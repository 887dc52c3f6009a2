use crate::bignum::{limbs_value, ArithmeticError, BigNum};
use vstd::prelude::*;

verus! {

/// The generator of the 2048-bit MODP group.
pub const MODP_2048_GENERATOR: u32 = 2;

/// The limbs, least significant first, of the 2048-bit MODP prime of RFC 3526
/// (group 14): `2^2048 - 2^1984 - 1 + 2^64 * (floor(2^1918 * pi) + 124476)`.
pub open spec fn modp_2048_limbs() -> Seq<u32> {
    seq![
        0xFFFFFFFF, 0xFFFFFFFF, 0x8AACAA68, 0x15728E5A,
        0x98FA0510, 0x15D22618, 0xEA956AE5, 0x3995497C,
        0x95581718, 0xDE2BCBF6, 0x6F4C52C9, 0xB5C55DF0,
        0xEC07A28F, 0x9B2783A2, 0x180E8603, 0xE39E772C,
        0x2E36CE3B, 0x32905E46, 0xCA18217C, 0xF1746C08,
        0x4ABC9804, 0x670C354E, 0x7096966D, 0x9ED52907,
        0x208552BB, 0x1C62F356, 0xDCA3AD96, 0x83655D23,
        0xFD24CF5F, 0x69163FA8, 0x1C55D39A, 0x98DA4836,
        0xA163BF05, 0xC2007CB8, 0xECE45B3D, 0x49286651,
        0x7C4B1FE6, 0xAE9F2411, 0x5A899FA5, 0xEE386BFB,
        0xF406B7ED, 0x0BFF5CB6, 0xA637ED6B, 0xF44C42E9,
        0x625E7EC6, 0xE485B576, 0x6D51C245, 0x4FE1356D,
        0xF25F1437, 0x302B0A6D, 0xCD3A431B, 0xEF9519B3,
        0x8E3404DD, 0x514A0879, 0x3B139B22, 0x020BBEA6,
        0x8A67CC74, 0x29024E08, 0x80DC1CD1, 0xC4C6628B,
        0x2168C234, 0xC90FDAA2, 0xFFFFFFFF, 0xFFFFFFFF,
    ]
}

/// The 2048-bit MODP prime.
pub open spec fn modp_2048_prime() -> nat {
    limbs_value(modp_2048_limbs())
}

/// The public parameters of a Diffie–Hellman group: a modulus `p` and a
/// generator `g`, shared read-only by both peers.
#[derive(Debug, Clone)]
pub struct GroupParams {
    pub modulus: BigNum,
    pub generator: BigNum,
}

impl GroupParams {
    pub open spec fn wf(&self) -> bool {
        &&& self.modulus.wf()
        &&& self.generator.wf()
        &&& self.modulus@ > 0
    }

    /// A group with the given modulus and generator; fails on a zero modulus.
    pub fn new(modulus: BigNum, generator: BigNum) -> (r: Result<GroupParams, ArithmeticError>)
        requires
            modulus.wf(),
            generator.wf(),
        ensures
            r is Err <==> modulus@ == 0,
            r is Err ==> r == Err::<GroupParams, ArithmeticError>(ArithmeticError::ZeroModulus),
            r matches Ok(params) ==> params.wf() && params.modulus@ == modulus@
                && params.generator@ == generator@,
    {
        if modulus.is_zero() {
            Err(ArithmeticError::ZeroModulus)
        } else {
            Ok(GroupParams { modulus, generator })
        }
    }

    /// The 2048-bit MODP group of RFC 3526 with generator 2.
    pub fn modp_2048() -> (r: GroupParams)
        ensures
            r.wf(),
            r.modulus@ == modp_2048_prime(),
            r.generator@ == MODP_2048_GENERATOR as nat,
    {
        let limbs: Vec<u32> = vec![
            0xFFFFFFFF, 0xFFFFFFFF, 0x8AACAA68, 0x15728E5A,
            0x98FA0510, 0x15D22618, 0xEA956AE5, 0x3995497C,
            0x95581718, 0xDE2BCBF6, 0x6F4C52C9, 0xB5C55DF0,
            0xEC07A28F, 0x9B2783A2, 0x180E8603, 0xE39E772C,
            0x2E36CE3B, 0x32905E46, 0xCA18217C, 0xF1746C08,
            0x4ABC9804, 0x670C354E, 0x7096966D, 0x9ED52907,
            0x208552BB, 0x1C62F356, 0xDCA3AD96, 0x83655D23,
            0xFD24CF5F, 0x69163FA8, 0x1C55D39A, 0x98DA4836,
            0xA163BF05, 0xC2007CB8, 0xECE45B3D, 0x49286651,
            0x7C4B1FE6, 0xAE9F2411, 0x5A899FA5, 0xEE386BFB,
            0xF406B7ED, 0x0BFF5CB6, 0xA637ED6B, 0xF44C42E9,
            0x625E7EC6, 0xE485B576, 0x6D51C245, 0x4FE1356D,
            0xF25F1437, 0x302B0A6D, 0xCD3A431B, 0xEF9519B3,
            0x8E3404DD, 0x514A0879, 0x3B139B22, 0x020BBEA6,
            0x8A67CC74, 0x29024E08, 0x80DC1CD1, 0xC4C6628B,
            0x2168C234, 0xC90FDAA2, 0xFFFFFFFF, 0xFFFFFFFF,
        ];
        assert(limbs@ =~= modp_2048_limbs());
        let modulus = BigNum::from_limbs(limbs);
        let generator = BigNum::from_u32(MODP_2048_GENERATOR);
        proof {
            crate::bignum::lemma_canonical_lower_bound(modp_2048_limbs());
            vstd::arithmetic::power::lemma_pow_positive(crate::bignum::limb_base() as int, 63);
        }
        GroupParams { modulus, generator }
    }
}

} // verus!
