use num_bigint::BigUint;
use vstd::arithmetic::power::{lemma_pow_increases, lemma_pow_positive, pow};
use vstd::prelude::*;

verus! {

/// The radix of a limb: each limb holds 32 bits.
pub open spec fn limb_base() -> nat {
    0x1_0000_0000
}

/// The number denoted by a sequence of base-2^32 limbs, least significant first.
pub open spec fn limbs_value(s: Seq<u32>) -> nat
    decreases s.len(),
{
    if s.len() == 0 {
        0
    } else {
        s[0] as nat + limb_base() * limbs_value(s.drop_first())
    }
}

/// A limb sequence is canonical when its most significant limb is not zero;
/// zero is the empty sequence.
pub open spec fn limbs_canonical(s: Seq<u32>) -> bool {
    s.len() == 0 || s.last() != 0
}

/// Splitting a limb sequence at `k`: the low part plus the high part scaled
/// by `2^(32k)`.
pub proof fn lemma_value_split(s: Seq<u32>, k: nat)
    requires
        k <= s.len(),
    ensures
        limbs_value(s) == limbs_value(s.take(k as int)) + pow(limb_base() as int, k)
            * limbs_value(s.skip(k as int)),
    decreases k,
{
    reveal(pow);
    if k == 0 {
        assert(s.take(0) =~= Seq::<u32>::empty());
        assert(s.skip(0) =~= s);
    } else {
        let t = s.drop_first();
        lemma_value_split(t, (k - 1) as nat);
        assert(t.skip(k - 1) =~= s.skip(k as int));
        assert(s.take(k as int).drop_first() =~= t.take(k - 1));
        let b = limb_base() as int;
        let p = pow(b, (k - 1) as nat);
        let x = limbs_value(t.take(k - 1)) as int;
        let y = limbs_value(s.skip(k as int)) as int;
        assert(b * (x + p * y) == b * x + (b * p) * y) by (nonlinear_arith);
    }
}

/// A sequence of `n` limbs denotes a number below `2^(32n)`.
pub proof fn lemma_value_bound(s: Seq<u32>)
    ensures
        limbs_value(s) < pow(limb_base() as int, s.len()),
    decreases s.len(),
{
    reveal(pow);
    if s.len() > 0 {
        let t = s.drop_first();
        lemma_value_bound(t);
        let b = limb_base() as int;
        let p = pow(b, t.len());
        let x = limbs_value(t) as int;
        let s0 = s[0] as int;
        assert(s0 + b * x < b * p) by (nonlinear_arith)
            requires
                x < p,
                0 <= s0 < b,
        ;
    }
}

/// A limb sequence denotes zero exactly when all its limbs are zero.
pub proof fn lemma_value_zero(s: Seq<u32>)
    ensures
        (limbs_value(s) == 0) <==> (forall|i: int| 0 <= i < s.len() ==> s[i] == 0),
    decreases s.len(),
{
    if s.len() > 0 {
        let t = s.drop_first();
        lemma_value_zero(t);
        if limbs_value(s) == 0 {
            assert forall|i: int| 0 <= i < s.len() implies s[i] == 0 by {
                if i > 0 {
                    assert(s[i] == t[i - 1]);
                }
            }
        }
        if forall|i: int| 0 <= i < s.len() ==> s[i] == 0 {
            assert forall|i: int| 0 <= i < t.len() implies t[i] == 0 by {
                assert(t[i] == s[i + 1]);
            }
        }
    }
}

/// A zero most significant limb does not change the value.
pub proof fn lemma_value_drop_last_zero(s: Seq<u32>)
    requires
        s.len() > 0,
        s.last() == 0,
    ensures
        limbs_value(s) == limbs_value(s.drop_last()),
{
    let k = (s.len() - 1) as nat;
    lemma_value_split(s, k);
    assert(s.take(k as int) =~= s.drop_last());
    lemma_value_zero(s.skip(k as int));
}

/// A single limb denotes itself.
pub proof fn lemma_value_single(s: Seq<u32>)
    requires
        s.len() == 1,
    ensures
        limbs_value(s) == s[0] as nat,
{
    assert(s.drop_first() =~= Seq::<u32>::empty());
    assert(limbs_value(s.drop_first()) == 0);
}

/// A canonical sequence of `n > 0` limbs denotes at least `2^(32(n-1))`.
pub proof fn lemma_canonical_lower_bound(s: Seq<u32>)
    requires
        limbs_canonical(s),
        s.len() > 0,
    ensures
        limbs_value(s) >= pow(limb_base() as int, (s.len() - 1) as nat),
{
    let k = (s.len() - 1) as nat;
    lemma_value_split(s, k);
    let hi = s.skip(k as int);
    lemma_value_single(hi);
    let p = pow(limb_base() as int, k);
    lemma_pow_positive(limb_base() as int, k);
    let h = s.last() as int;
    assert(p * h >= p) by (nonlinear_arith)
        requires
            h >= 1,
            p > 0,
    ;
}

/// Two canonical sequences with the same value are the same sequence.
pub proof fn lemma_canonical_unique(a: Seq<u32>, b: Seq<u32>)
    requires
        limbs_canonical(a),
        limbs_canonical(b),
        limbs_value(a) == limbs_value(b),
    ensures
        a == b,
    decreases a.len(),
{
    if a.len() == 0 {
        if b.len() > 0 {
            lemma_canonical_lower_bound(b);
            lemma_pow_positive(limb_base() as int, (b.len() - 1) as nat);
        }
        assert(a =~= b);
    } else {
        lemma_canonical_lower_bound(a);
        lemma_pow_positive(limb_base() as int, (a.len() - 1) as nat);
        let ta = a.drop_first();
        let tb = b.drop_first();
        let x = limbs_value(ta) as int;
        let y = limbs_value(tb) as int;
        let a0 = a[0] as int;
        let b0 = b[0] as int;
        let base = limb_base() as int;
        assert(a0 == b0 && x == y) by (nonlinear_arith)
            requires
                a0 + base * x == b0 + base * y,
                0 <= a0 < base,
                0 <= b0 < base,
                x >= 0,
                y >= 0,
        {
            if x < y {
                assert(base * x + base <= base * y);
            } else if y < x {
                assert(base * y + base <= base * x);
            }
        }
        assert(ta.len() == 0 || ta.last() == a.last());
        assert(tb.len() == 0 || tb.last() == b.last());
        lemma_canonical_unique(ta, tb);
        assert(a =~= b) by {
            assert forall|i: int| 0 <= i < a.len() implies a[i] == b[i] by {
                if i > 0 {
                    assert(a[i] == ta[i - 1]);
                    assert(b[i] == tb[i - 1]);
                }
            }
        }
    }
}

/// Of two canonical sequences, the shorter denotes the smaller number.
pub proof fn lemma_shorter_is_smaller(a: Seq<u32>, b: Seq<u32>)
    requires
        limbs_canonical(b),
        a.len() < b.len(),
    ensures
        limbs_value(a) < limbs_value(b),
{
    lemma_value_bound(a);
    lemma_canonical_lower_bound(b);
    lemma_pow_increases(limb_base(), a.len(), (b.len() - 1) as nat);
}

/// Of two sequences of equal length that agree above position `k - 1`, the
/// one with the smaller limb there denotes the smaller number.
pub proof fn lemma_first_difference(a: Seq<u32>, b: Seq<u32>, k: nat)
    requires
        a.len() == b.len(),
        0 < k <= a.len(),
        a.skip(k as int) == b.skip(k as int),
        a[k - 1] < b[k - 1],
    ensures
        limbs_value(a) < limbs_value(b),
{
    let j = (k - 1) as nat;
    lemma_value_split(a, j);
    lemma_value_split(b, j);
    lemma_value_bound(a.take(j as int));
    assert(a.skip(j as int).drop_first() =~= a.skip(k as int));
    assert(b.skip(j as int).drop_first() =~= b.skip(k as int));
    let p = pow(limb_base() as int, j);
    let base = limb_base() as int;
    let lo_a = limbs_value(a.take(j as int)) as int;
    let lo_b = limbs_value(b.take(j as int)) as int;
    let t = limbs_value(a.skip(k as int)) as int;
    let x = a[k - 1] as int;
    let y = b[k - 1] as int;
    assert(lo_a + p * (x + base * t) < lo_b + p * (y + base * t)) by (nonlinear_arith)
        requires
            0 <= lo_a < p,
            lo_b >= 0,
            x + 1 <= y,
    ;
}

/// The one way modular exponentiation can fail.
#[derive(Debug, Clone, Copy, PartialEq, Eq, Structural)]
pub enum ArithmeticError {
    /// The modulus was zero.
    ZeroModulus,
}

/// Relies on `num_bigint::BigUint::modpow`, documented to return
/// `(self ^ exponent) % modulus` and to panic on a zero modulus.
/// `BigUint::new` reads base-2^32 limbs least significant first, and
/// `BigUint::to_u32_digits` writes them back in that order with no high zero limb.
#[verifier::external_body]
fn modpow_limbs(base: &Vec<u32>, exponent: &Vec<u32>, modulus: &Vec<u32>) -> (r: Vec<u32>)
    requires
        limbs_value(modulus@) > 0,
    ensures
        limbs_canonical(r@),
        limbs_value(r@) as int == pow(limbs_value(base@) as int, limbs_value(exponent@))
            % (limbs_value(modulus@) as int),
{
    let b = BigUint::new(base.clone());
    let e = BigUint::new(exponent.clone());
    let m = BigUint::new(modulus.clone());
    b.modpow(&e, &m).to_u32_digits()
}

/// Raising to the power zero gives `1 mod m`, which is 1 for every modulus above 1.
pub proof fn lemma_zero_exponent(base: int, m: int)
    requires
        m > 1,
    ensures
        pow(base, 0) % m == 1,
{
    reveal(pow);
    vstd::arithmetic::div_mod::lemma_small_mod(1, m as nat);
}

/// `base^exponent mod modulus`, or `ZeroModulus` when the modulus is zero.
pub fn modpow(base: &BigNum, exponent: &BigNum, modulus: &BigNum) -> (r: Result<
    BigNum,
    ArithmeticError,
>)
    requires
        modulus.wf(),
    ensures
        r is Err <==> modulus@ == 0,
        r is Err ==> r == Err::<BigNum, ArithmeticError>(ArithmeticError::ZeroModulus),
        r matches Ok(v) ==> v.wf() && v@ as int == pow(base@ as int, exponent@) % (
        modulus@ as int),
{
    if modulus.limbs.len() == 0 {
        Err(ArithmeticError::ZeroModulus)
    } else {
        proof {
            lemma_canonical_lower_bound(modulus.limbs@);
            lemma_pow_positive(limb_base() as int, (modulus.limbs@.len() - 1) as nat);
        }
        Ok(BigNum { limbs: modpow_limbs(&base.limbs, &exponent.limbs, &modulus.limbs) })
    }
}

/// A non-negative integer of arbitrary size, held as canonical base-2^32 limbs.
#[derive(Debug, Clone)]
pub struct BigNum {
    limbs: Vec<u32>,
}

impl View for BigNum {
    type V = nat;

    open spec fn view(&self) -> nat {
        limbs_value(self.limbs_spec())
    }
}

impl BigNum {
    pub closed spec fn limbs_spec(&self) -> Seq<u32> {
        self.limbs@
    }

    pub open spec fn wf(&self) -> bool {
        limbs_canonical(self.limbs_spec())
    }

    pub fn from_u32(n: u32) -> (r: BigNum)
        ensures
            r.wf(),
            r@ == n as nat,
    {
        let mut limbs: Vec<u32> = Vec::new();
        if n != 0 {
            limbs.push(n);
        }
        let r = BigNum { limbs };
        proof {
            if n != 0 {
                lemma_value_single(r.limbs@);
            }
        }
        r
    }

    /// The number denoted by `limbs`, base-2^32 digits least significant first;
    /// high zero limbs are dropped.
    pub fn from_limbs(limbs: Vec<u32>) -> (r: BigNum)
        ensures
            r.wf(),
            r@ == limbs_value(limbs@),
    {
        let ghost given = limbs@;
        let mut limbs = limbs;
        while limbs.len() > 0 && limbs[limbs.len() - 1] == 0
            invariant
                limbs_value(limbs@) == limbs_value(given),
            decreases limbs.len(),
        {
            proof {
                lemma_value_drop_last_zero(limbs@);
            }
            limbs.pop();
        }
        BigNum { limbs }
    }

    /// The canonical base-2^32 digits, least significant first.
    pub fn limbs(&self) -> (r: Vec<u32>)
        ensures
            limbs_value(r@) == self@,
            self.wf() ==> limbs_canonical(r@),
    {
        let r = self.limbs.clone();
        assert(r@ =~= self.limbs@);
        r
    }

    pub fn is_zero(&self) -> (r: bool)
        requires
            self.wf(),
        ensures
            r == (self@ == 0),
    {
        proof {
            if self.limbs@.len() > 0 {
                lemma_canonical_lower_bound(self.limbs@);
                lemma_pow_positive(limb_base() as int, (self.limbs@.len() - 1) as nat);
            }
        }
        self.limbs.len() == 0
    }

    /// Whether `self` is smaller than `other`, comparing limbs from the most
    /// significant down.
    pub fn lt(&self, other: &BigNum) -> (r: bool)
        requires
            self.wf(),
            other.wf(),
        ensures
            r == (self@ < other@),
    {
        let a = &self.limbs;
        let b = &other.limbs;
        if a.len() != b.len() {
            proof {
                if a.len() < b.len() {
                    lemma_shorter_is_smaller(a@, b@);
                } else {
                    lemma_shorter_is_smaller(b@, a@);
                }
            }
            return a.len() < b.len();
        }
        let mut i: usize = a.len();
        while i > 0
            invariant
                a@ == self.limbs@,
                b@ == other.limbs@,
                a.len() == b.len(),
                i <= a.len(),
                a@.skip(i as int) == b@.skip(i as int),
            decreases i,
        {
            if a[i - 1] != b[i - 1] {
                let r = a[i - 1] < b[i - 1];
                proof {
                    if r {
                        lemma_first_difference(a@, b@, i as nat);
                    } else {
                        lemma_first_difference(b@, a@, i as nat);
                    }
                }
                return r;
            }
            assert(a@.skip(i - 1) =~= seq![a[i - 1]] + a@.skip(i as int));
            assert(b@.skip(i - 1) =~= seq![b[i - 1]] + b@.skip(i as int));
            i = i - 1;
        }
        assert(a@ =~= a@.skip(0));
        assert(b@ =~= b@.skip(0));
        false
    }
}

impl PartialEq for BigNum {
    fn eq(&self, other: &BigNum) -> (r: bool) {
        let r = self.limbs == other.limbs;
        proof {
            if r {
                assert(self.limbs@ =~= other.limbs@);
            }
        }
        r
    }
}

impl vstd::std_specs::cmp::PartialEqSpecImpl for BigNum {
    open spec fn obeys_eq_spec() -> bool {
        true
    }

    open spec fn eq_spec(&self, other: &BigNum) -> bool {
        self.limbs_spec() == other.limbs_spec()
    }
}

impl Eq for BigNum {

}

} // verus!
