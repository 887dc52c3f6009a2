use crate::bignum::{lemma_canonical_unique, limb_base, limbs_canonical, limbs_value, BigNum};
use vstd::arithmetic::div_mod::lemma_fundamental_div_mod;
use vstd::prelude::*;

verus! {

/// An ASCII decimal digit.
pub open spec fn is_digit(b: u8) -> bool {
    0x30 <= b <= 0x39
}

/// ASCII whitespace: space, tab, line feed, form feed, carriage return.
pub open spec fn is_space(b: u8) -> bool {
    b == 0x20 || b == 0x09 || b == 0x0A || b == 0x0C || b == 0x0D
}

/// The bytes that survive sanitization.
pub open spec fn is_kept(b: u8) -> bool {
    is_digit(b) || is_space(b)
}

/// The received bytes with everything but digits and whitespace removed,
/// in the order received.
pub open spec fn sanitized(buf: Seq<u8>) -> Seq<u8>
    decreases buf.len(),
{
    if buf.len() == 0 {
        Seq::empty()
    } else {
        let rest = sanitized(buf.drop_last());
        if is_kept(buf.last()) {
            rest.push(buf.last())
        } else {
            rest
        }
    }
}

/// Where a left-to-right scan of sanitized bytes stands: the values of the
/// finished chunks, the value of the chunk being read if any, and whether a
/// byte that is neither digit nor whitespace was met.
pub struct ChunkScan {
    pub done: Seq<nat>,
    pub current: Option<nat>,
    pub stray: bool,
}

/// One byte of the scan: a digit extends the current chunk, whitespace
/// closes it, anything else is stray.
pub open spec fn scan_step(st: ChunkScan, b: u8) -> ChunkScan {
    if is_digit(b) {
        let v = match st.current {
            Some(c) => c,
            None => 0,
        };
        ChunkScan { current: Some(v * 10 + (b - 0x30) as nat), ..st }
    } else if is_space(b) {
        match st.current {
            Some(c) => ChunkScan { done: st.done.push(c), current: None, ..st },
            None => st,
        }
    } else {
        ChunkScan { stray: true, ..st }
    }
}

/// The scan of `s` from the state `st`.
pub open spec fn scan_from(st: ChunkScan, s: Seq<u8>) -> ChunkScan
    decreases s.len(),
{
    if s.len() == 0 {
        st
    } else {
        scan_step(scan_from(st, s.drop_last()), s.last())
    }
}

pub open spec fn scan_start() -> ChunkScan {
    ChunkScan { done: Seq::empty(), current: None, stray: false }
}

pub open spec fn scan(s: Seq<u8>) -> ChunkScan {
    scan_from(scan_start(), s)
}

/// The value of each whitespace-separated chunk of digits, in order.
pub open spec fn chunk_values_of(st: ChunkScan) -> Seq<nat> {
    match st.current {
        Some(c) => st.done.push(c),
        None => st.done,
    }
}

pub open spec fn chunk_values(s: Seq<u8>) -> Seq<nat> {
    chunk_values_of(scan(s))
}

/// Why a received buffer does not hold a number.
#[derive(Debug, Clone, Copy, PartialEq, Eq, Structural)]
pub enum CodecError {
    /// No digit is left after sanitization.
    Empty,
    /// A chunk holds a byte other than a digit, or its digits denote a limb
    /// of `2^32` or more.
    MalformedDigits,
}

/// Parsing sanitized bytes: each chunk is one base-2^32 limb, written in
/// decimal, least significant limb first.
pub open spec fn parse_spec(s: Seq<u8>) -> Result<nat, CodecError> {
    let chunks = chunk_values(s);
    if scan(s).stray {
        Err(CodecError::MalformedDigits)
    } else if chunks.len() == 0 {
        Err(CodecError::Empty)
    } else if exists|i: int| 0 <= i < chunks.len() && chunks[i] >= limb_base() {
        Err(CodecError::MalformedDigits)
    } else {
        Ok(limbs_value(chunks.map_values(|v: nat| v as u32)))
    }
}

/// Decoding a received buffer: sanitize, then parse.
pub open spec fn decode_spec(buf: Seq<u8>) -> Result<nat, CodecError> {
    parse_spec(sanitized(buf))
}

/// The text with every NUL character removed, the others kept in order.
pub open spec fn without_nul(s: Seq<char>) -> Seq<char>
    decreases s.len(),
{
    if s.len() == 0 {
        Seq::empty()
    } else {
        let rest = without_nul(s.drop_last());
        if s.last() != '\0' {
            rest.push(s.last())
        } else {
            rest
        }
    }
}

/// Relies on `String::push`, which appends one character.
#[verifier::external_body]
fn push_char(s: &mut String, c: char)
    ensures
        final(s)@ == old(s)@.push(c),
{
    s.push(c);
}

/// Removes the NUL characters that the zero-initialised receive buffer
/// leaves after the peer's text.
pub fn sanitize_data_buffer(response: &mut String)
    ensures
        final(response)@ == without_nul(old(response)@),
{
    let mut kept = String::new();
    let ghost text = response@;
    for c in it: response.as_str().chars()
        invariant
            it.seq() == text,
            kept@ == without_nul(text.take(it.index() as int)),
    {
        assert(text.take(it.index() + 1).drop_last() =~= text.take(it.index() as int));
        if c != '\0' {
            push_char(&mut kept, c);
        }
    }
    assert(text.take(text.len() as int) =~= text);
    *response = kept;
}

/// Removes the NUL characters after the peer's public value; see
/// `sanitize_data_buffer`.
pub fn sanitize_their_pub_key(response: &mut String)
    ensures
        final(response)@ == without_nul(old(response)@),
{
    sanitize_data_buffer(response);
}

/// Keeps the digits and whitespace of `buf`, dropping zero padding and any
/// other byte.
pub fn sanitize(buf: &[u8]) -> (r: Vec<u8>)
    ensures
        r@ == sanitized(buf@),
{
    let mut r: Vec<u8> = Vec::new();
    let mut i: usize = 0;
    while i < buf.len()
        invariant
            i <= buf@.len(),
            r@ == sanitized(buf@.take(i as int)),
        decreases buf@.len() - i,
    {
        let b = buf[i];
        assert(buf@.take(i + 1).drop_last() =~= buf@.take(i as int));
        if (b >= 0x30 && b <= 0x39) || b == 0x20 || b == 0x09 || b == 0x0A || b == 0x0C || b
            == 0x0D {
            r.push(b);
        }
        i = i + 1;
    }
    assert(buf@.take(i as int) =~= buf@);
    r
}

/// The decimal digits of `n`, most significant first, with no leading zero.
pub open spec fn decimal(n: nat) -> Seq<u8>
    decreases n,
{
    if n < 10 {
        seq![(0x30 + n) as u8]
    } else {
        decimal(n / 10).push((0x30 + n % 10) as u8)
    }
}

/// The limbs written out in decimal, separated by single spaces.
pub open spec fn encode_limbs(s: Seq<u32>) -> Seq<u8>
    decreases s.len(),
{
    if s.len() <= 1 {
        if s.len() == 0 {
            Seq::empty()
        } else {
            decimal(s[0] as nat)
        }
    } else {
        encode_limbs(s.drop_last()).push(0x20) + decimal(s.last() as nat)
    }
}

/// The canonical base-2^32 limbs of `n`, least significant first.
pub open spec fn limbs_of(n: nat) -> Seq<u32>
    decreases n,
{
    if n == 0 {
        Seq::empty()
    } else {
        seq![(n % limb_base()) as u32] + limbs_of(n / limb_base())
    }
}

/// The wire form of `n`: its canonical limbs in decimal, least significant
/// first, separated by single spaces; zero is the single digit `0`.
pub open spec fn encoded(n: nat) -> Seq<u8> {
    if n == 0 {
        seq![0x30u8]
    } else {
        encode_limbs(limbs_of(n))
    }
}

pub proof fn lemma_limbs_of(n: nat)
    ensures
        limbs_canonical(limbs_of(n)),
        limbs_value(limbs_of(n)) == n,
    decreases n,
{
    if n > 0 {
        let base = limb_base();
        let q = n / base;
        lemma_limbs_of(q);
        lemma_fundamental_div_mod(n as int, base as int);
        let s = limbs_of(n);
        assert(s.drop_first() =~= limbs_of(q));
        if q == 0 {
            assert(n % base == n);
        } else {
            assert(s.last() == limbs_of(q).last());
        }
    }
}

/// Appends the decimal digits of `n`.
fn push_decimal(out: &mut Vec<u8>, n: u32)
    ensures
        final(out)@ == old(out)@ + decimal(n as nat),
    decreases n,
{
    if n >= 10 {
        push_decimal(out, n / 10);
    }
    out.push(0x30 + (n % 10) as u8);
    assert(final(out)@ =~= old(out)@ + decimal(n as nat));
}

/// The wire form of `v`; see `encoded`.
pub fn encode(v: &BigNum) -> (r: Vec<u8>)
    requires
        v.wf(),
    ensures
        r@ == encoded(v@),
{
    let limbs = v.limbs();
    let mut out: Vec<u8> = Vec::new();
    proof {
        lemma_limbs_of(v@);
        lemma_canonical_unique(limbs@, limbs_of(v@));
    }
    if limbs.len() == 0 {
        out.push(0x30);
        assert(out@ =~= seq![0x30u8]);
        return out;
    }
    let mut i: usize = 0;
    while i < limbs.len()
        invariant
            i <= limbs@.len(),
            out@ == encode_limbs(limbs@.take(i as int)),
        decreases limbs@.len() - i,
    {
        assert(limbs@.take(i + 1).drop_last() =~= limbs@.take(i as int));
        if i > 0 {
            out.push(0x20);
        }
        push_decimal(&mut out, limbs[i]);
        i = i + 1;
    }
    assert(limbs@.take(i as int) =~= limbs@);
    out
}

/// A step of the scan never shrinks a chunk value nor drops a chunk.
proof fn lemma_scan_step_grows(st: ChunkScan, b: u8)
    ensures
        chunk_values_of(scan_step(st, b)).len() >= chunk_values_of(st).len(),
        forall|j: int|
            0 <= j < chunk_values_of(st).len() ==> #[trigger] chunk_values_of(scan_step(st, b))[j]
                >= chunk_values_of(st)[j],
{
}

/// Parses sanitized bytes: each whitespace-separated chunk of digits is one
/// base-2^32 limb in decimal, least significant limb first.
pub fn parse_chunks(s: &[u8]) -> (r: Result<BigNum, CodecError>)
    ensures
        match r {
            Ok(v) => v.wf() && parse_spec(s@) == Ok::<nat, CodecError>(v@),
            Err(e) => parse_spec(s@) == Err::<nat, CodecError>(e),
        },
{
    let mut limbs: Vec<u32> = Vec::new();
    let mut cur: u64 = 0;
    let mut in_chunk = false;
    let mut overflow = false;
    let mut stray = false;
    let mut i: usize = 0;
    while i < s.len()
        invariant
            i <= s@.len(),
            stray == scan(s@.take(i as int)).stray,
            !overflow ==> {
                let st = scan(s@.take(i as int));
                &&& limbs@.len() == st.done.len()
                &&& forall|j: int| 0 <= j < limbs@.len() ==> limbs@[j] as nat == st.done[j]
                &&& in_chunk <==> st.current is Some
                &&& in_chunk ==> st.current == Some(cur as nat) && cur <= 0xFFFF_FFFF
            },
            overflow ==> exists|j: int|
                0 <= j < chunk_values(s@.take(i as int)).len() && #[trigger] chunk_values(
                    s@.take(i as int),
                )[j] >= limb_base(),
        decreases s@.len() - i,
    {
        let b = s[i];
        let ghost before = scan(s@.take(i as int));
        assert(s@.take(i + 1).drop_last() =~= s@.take(i as int));
        assert(scan(s@.take(i + 1)) == scan_step(before, b));
        proof {
            lemma_scan_step_grows(before, b);
            if overflow {
                let j = choose|j: int|
                    0 <= j < chunk_values(s@.take(i as int)).len() && #[trigger] chunk_values(
                        s@.take(i as int),
                    )[j] >= limb_base();
                assert(chunk_values(s@.take(i + 1))[j] >= chunk_values_of(before)[j]);
            }
        }
        if b >= 0x30 && b <= 0x39 {
            if !overflow {
                let d = (b - 0x30) as u64;
                if in_chunk {
                    let next = cur * 10 + d;
                    if next > 0xFFFF_FFFF {
                        overflow = true;
                        assert(chunk_values(s@.take(i + 1))[before.done.len() as int] >= limb_base());
                    } else {
                        cur = next;
                    }
                } else {
                    cur = d;
                    in_chunk = true;
                }
            }
        } else if b == 0x20 || b == 0x09 || b == 0x0A || b == 0x0C || b == 0x0D {
            if !overflow && in_chunk {
                limbs.push(cur as u32);
                in_chunk = false;
                cur = 0;
            }
        } else {
            stray = true;
        }
        i = i + 1;
    }
    assert(s@.take(i as int) =~= s@);
    if stray {
        return Err(CodecError::MalformedDigits);
    }
    if overflow {
        return Err(CodecError::MalformedDigits);
    }
    if in_chunk {
        limbs.push(cur as u32);
    }
    let ghost chunks = chunk_values(s@);
    assert(limbs@.len() == chunks.len());
    assert(forall|j: int| 0 <= j < limbs@.len() ==> limbs@[j] as nat == chunks[j]);
    if limbs.len() == 0 {
        return Err(CodecError::Empty);
    }
    assert(!exists|j: int| 0 <= j < chunks.len() && chunks[j] >= limb_base()) by {
        assert forall|j: int| 0 <= j < chunks.len() implies chunks[j] < limb_base() by {
            assert(limbs@[j] as nat == chunks[j]);
        }
    }
    assert(limbs@ =~= chunks.map_values(|v: nat| v as u32));
    Ok(BigNum::from_limbs(limbs))
}

/// Decodes a received buffer: sanitization, then `parse_chunks`.
pub fn decode(buf: &[u8]) -> (r: Result<BigNum, CodecError>)
    ensures
        match r {
            Ok(v) => v.wf() && decode_spec(buf@) == Ok::<nat, CodecError>(v@),
            Err(e) => decode_spec(buf@) == Err::<nat, CodecError>(e),
        },
{
    let clean = sanitize(buf);
    parse_chunks(clean.as_slice())
}

proof fn lemma_sanitized_of_kept(x: Seq<u8>)
    requires
        forall|i: int| 0 <= i < x.len() ==> is_kept(#[trigger] x[i]),
    ensures
        sanitized(x) == x,
    decreases x.len(),
{
    if x.len() > 0 {
        lemma_sanitized_of_kept(x.drop_last());
        assert(x.drop_last().push(x.last()) =~= x);
    }
}

proof fn lemma_decimal_digits(n: nat)
    ensures
        forall|i: int| 0 <= i < decimal(n).len() ==> is_digit(#[trigger] decimal(n)[i]),
    decreases n,
{
    if n >= 10 {
        lemma_decimal_digits(n / 10);
        let d = decimal(n);
        assert(n % 10 < 10);
        assert forall|i: int| 0 <= i < d.len() implies is_digit(#[trigger] d[i]) by {
            if i < d.len() - 1 {
                assert(d[i] == decimal(n / 10)[i]);
            }
        }
    }
}

proof fn lemma_encode_limbs_kept(ls: Seq<u32>)
    ensures
        forall|i: int| 0 <= i < encode_limbs(ls).len() ==> is_kept(#[trigger] encode_limbs(ls)[i]),
    decreases ls.len(),
{
    if ls.len() == 1 {
        lemma_decimal_digits(ls[0] as nat);
    } else if ls.len() > 1 {
        lemma_encode_limbs_kept(ls.drop_last());
        lemma_decimal_digits(ls.last() as nat);
        let head = encode_limbs(ls.drop_last()).push(0x20);
        assert forall|i: int| 0 <= i < encode_limbs(ls).len() implies is_kept(
            #[trigger] encode_limbs(ls)[i],
        ) by {
            if i < head.len() - 1 {
                assert(encode_limbs(ls)[i] == encode_limbs(ls.drop_last())[i]);
            } else if i >= head.len() {
                assert(encode_limbs(ls)[i] == decimal(ls.last() as nat)[i - head.len()]);
            }
        }
    }
}

proof fn lemma_scan_concat(st: ChunkScan, a: Seq<u8>, b: Seq<u8>)
    ensures
        scan_from(st, a + b) == scan_from(scan_from(st, a), b),
    decreases b.len(),
{
    if b.len() == 0 {
        assert(a + b =~= a);
    } else {
        lemma_scan_concat(st, a, b.drop_last());
        assert((a + b).drop_last() =~= a + b.drop_last());
    }
}

/// Reading the decimal digits of `n` outside any chunk yields a chunk of value `n`.
proof fn lemma_scan_decimal(st: ChunkScan, n: nat)
    requires
        st.current is None,
    ensures
        scan_from(st, decimal(n)) == (ChunkScan { current: Some(n), ..st }),
    decreases n,
{
    let d = decimal(n);
    if n < 10 {
        assert(d.drop_last() =~= Seq::<u8>::empty());
        assert(d.last() == 0x30 + n);
        assert(scan_from(st, d.drop_last()) == st);
        assert(scan_from(st, d) == scan_step(st, d.last()));
    } else {
        lemma_scan_decimal(st, n / 10);
        assert(d.drop_last() =~= decimal(n / 10));
        assert(n % 10 < 10);
        assert(d.last() == 0x30 + n % 10);
        assert((n / 10) * 10 + n % 10 == n) by {
            lemma_fundamental_div_mod(n as int, 10);
        }
        assert(scan_from(st, d) == scan_step(scan_from(st, decimal(n / 10)), d.last()));
    }
}

proof fn lemma_scan_encode_limbs(ls: Seq<u32>)
    requires
        ls.len() >= 1,
    ensures
        scan(encode_limbs(ls)) == (ChunkScan {
            done: ls.drop_last().map_values(|x: u32| x as nat),
            current: Some(ls.last() as nat),
            stray: false,
        }),
    decreases ls.len(),
{
    if ls.len() == 1 {
        lemma_scan_decimal(scan_start(), ls[0] as nat);
        assert(ls.drop_last().map_values(|x: u32| x as nat) =~= Seq::<nat>::empty());
    } else {
        let rest = ls.drop_last();
        let head = encode_limbs(rest).push(0x20);
        lemma_scan_encode_limbs(rest);
        lemma_scan_concat(scan_start(), head, decimal(ls.last() as nat));
        assert(head.drop_last() =~= encode_limbs(rest));
        let mid = scan(head);
        assert(mid.done =~= rest.map_values(|x: u32| x as nat)) by {
            assert(rest.drop_last().map_values(|x: u32| x as nat).push(rest.last() as nat)
                =~= rest.map_values(|x: u32| x as nat));
        }
        lemma_scan_decimal(mid, ls.last() as nat);
    }
}

/// Decoding the wire form of any number gives that number back.
pub proof fn lemma_decode_encode(n: nat)
    ensures
        decode_spec(encoded(n)) == Ok::<nat, CodecError>(n),
{
    let e = encoded(n);
    if n == 0 {
        lemma_sanitized_of_kept(e);
        lemma_scan_decimal(scan_start(), 0);
        assert(e =~= decimal(0));
        let chunks = chunk_values(e);
        assert(chunks =~= seq![0nat]);
        crate::bignum::lemma_value_single(chunks.map_values(|v: nat| v as u32));
    } else {
        let ls = limbs_of(n);
        lemma_limbs_of(n);
        lemma_encode_limbs_kept(ls);
        lemma_sanitized_of_kept(e);
        lemma_scan_encode_limbs(ls);
        let chunks = chunk_values(e);
        assert(chunks =~= ls.map_values(|x: u32| x as nat));
        assert(chunks.map_values(|v: nat| v as u32) =~= ls);
    }
}

proof fn lemma_sanitized_drops_zeros(digits: Seq<u8>, pad: Seq<u8>)
    requires
        forall|i: int| 0 <= i < pad.len() ==> #[trigger] pad[i] == 0,
    ensures
        sanitized(digits + pad) == sanitized(digits),
    decreases pad.len(),
{
    if pad.len() == 0 {
        assert(digits + pad =~= digits);
    } else {
        lemma_sanitized_drops_zeros(digits, pad.drop_last());
        assert((digits + pad).drop_last() =~= digits + pad.drop_last());
    }
}

/// Zero bytes after the payload, as left by a zero-initialised receive
/// buffer, do not change what is decoded.
pub proof fn lemma_zero_padding_ignored(payload: Seq<u8>, pad: Seq<u8>)
    requires
        forall|i: int| 0 <= i < pad.len() ==> #[trigger] pad[i] == 0,
    ensures
        decode_spec(payload + pad) == decode_spec(payload),
{
    lemma_sanitized_drops_zeros(payload, pad);
}

/// A buffer of nothing but zero padding decodes to `Empty`.
pub proof fn lemma_all_padding_is_empty(buf: Seq<u8>)
    requires
        forall|i: int| 0 <= i < buf.len() ==> #[trigger] buf[i] == 0,
    ensures
        decode_spec(buf) == Err::<nat, CodecError>(CodecError::Empty),
{
    let none = Seq::<u8>::empty();
    lemma_sanitized_drops_zeros(none, buf);
    assert(none + buf =~= buf);
    assert(chunk_values(sanitized(buf)) =~= Seq::<nat>::empty());
}

} // verus!
