use crate::bignum::{limbs_canonical, limbs_value, lemma_canonical_unique, modpow, BigNum};
use crate::group::GroupParams;
use num_bigint::{BigUint, RandomBits};
use rand::Rng;
use vstd::arithmetic::power::{lemma_pow_mod_noop, lemma_pow_multiplies, pow};
use vstd::prelude::*;

verus! {

/// The width in bits of a freshly drawn private exponent.
pub const PRIVATE_EXPONENT_BITS: u64 = 256;

/// The public value for private exponent `x` in the group `(p, g)`: `g^x mod p`.
pub open spec fn public_value_of(p: nat, g: nat, x: nat) -> nat {
    (pow(g as int, x) % (p as int)) as nat
}

/// The session key from the peer's public value `y` and private exponent `x`:
/// `y^x mod p`.
pub open spec fn session_key_of(p: nat, y: nat, x: nat) -> nat {
    (pow(y as int, x) % (p as int)) as nat
}

/// Why a session key could not be derived.
#[derive(Debug, Clone, Copy, PartialEq, Eq, Structural)]
pub enum KeyError {
    /// The peer's value is not below the modulus.
    InvalidPeerValue,
}

/// Relies on `rand::thread_rng`, a cryptographically secure generator, sampled
/// through `num_bigint::RandomBits::new(bits)`, which fills `bits` random bits:
/// the number is below `2^bits`. `BigUint::to_u32_digits` gives its canonical limbs.
#[verifier::external_body]
fn random_limbs(bits: u64) -> (r: Vec<u32>)
    requires
        bits <= 0x1_0000,
    ensures
        limbs_canonical(r@),
        limbs_value(r@) < pow(2, bits as nat),
{
    let mut rng = rand::thread_rng();
    let x: BigUint = rng.sample(RandomBits::new(bits));
    x.to_u32_digits()
}

/// Draws a fresh private exponent of `PRIVATE_EXPONENT_BITS` random bits.
pub fn generate_private_exponent() -> (r: BigNum)
    ensures
        r.wf(),
        r@ < pow(2, PRIVATE_EXPONENT_BITS as nat),
{
    BigNum::from_limbs(random_limbs(PRIVATE_EXPONENT_BITS))
}

/// The public value `g^private mod p` to send to the peer.
pub fn derive_public_value(private: &BigNum, params: &GroupParams) -> (r: BigNum)
    requires
        private.wf(),
        params.wf(),
    ensures
        r.wf(),
        r@ == public_value_of(params.modulus@, params.generator@, private@),
{
    match modpow(&params.generator, private, &params.modulus) {
        Ok(v) => v,
        Err(_) => {
            proof {
                assert(false);
            }
            BigNum::from_u32(0)
        },
    }
}

/// The session key `peer^private mod p`; the peer's value must lie in `[0, p)`.
pub fn derive_session_key(private: &BigNum, peer: &BigNum, params: &GroupParams) -> (r: Result<
    BigNum,
    KeyError,
>)
    requires
        private.wf(),
        peer.wf(),
        params.wf(),
    ensures
        r is Err <==> peer@ >= params.modulus@,
        r is Err ==> r == Err::<BigNum, KeyError>(KeyError::InvalidPeerValue),
        r matches Ok(k) ==> k.wf() && k@ == session_key_of(params.modulus@, peer@, private@),
{
    if !peer.lt(&params.modulus) {
        return Err(KeyError::InvalidPeerValue);
    }
    match modpow(peer, private, &params.modulus) {
        Ok(v) => Ok(v),
        Err(_) => {
            proof {
                assert(false);
            }
            Err(KeyError::InvalidPeerValue)
        },
    }
}

/// Deriving a public value is deterministic: two results for the same private
/// exponent and group hold the same canonical limbs, so they are `==`.
pub proof fn lemma_public_value_deterministic(
    private: BigNum,
    params: GroupParams,
    first: BigNum,
    second: BigNum,
)
    requires
        first.wf(),
        second.wf(),
        first@ == public_value_of(params.modulus@, params.generator@, private@),
        second@ == public_value_of(params.modulus@, params.generator@, private@),
    ensures
        first.limbs_spec() == second.limbs_spec(),
{
    lemma_canonical_unique(first.limbs_spec(), second.limbs_spec());
}

/// Both peers reach the same key: `(g^a mod p)^b mod p == (g^b mod p)^a mod p`,
/// and each public value lies in `[0, p)`, so the peer accepts it.
pub proof fn lemma_shared_key_agrees(p: nat, g: nat, a: nat, b: nat)
    requires
        p > 0,
    ensures
        public_value_of(p, g, a) < p,
        public_value_of(p, g, b) < p,
        session_key_of(p, public_value_of(p, g, a), b) == session_key_of(
            p,
            public_value_of(p, g, b),
            a,
        ),
{
    let m = p as int;
    lemma_pow_mod_noop(pow(g as int, a), b, m);
    lemma_pow_mod_noop(pow(g as int, b), a, m);
    lemma_pow_multiplies(g as int, a, b);
    lemma_pow_multiplies(g as int, b, a);
    assert(a * b == b * a) by (nonlinear_arith);
}

} // verus!
