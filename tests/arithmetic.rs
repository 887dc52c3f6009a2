use dh_exchange::{modpow, ArithmeticError, BigNum, GroupParams, MODP_2048_GENERATOR};
use num_bigint::BigUint;

fn n(v: u32) -> BigNum {
    BigNum::from_u32(v)
}

#[test]
fn modpow_small_values() {
    assert_eq!(modpow(&n(5), &n(6), &n(23)), Ok(n(8)));
    assert_eq!(modpow(&n(19), &n(6), &n(23)), Ok(n(2)));
    assert_eq!(modpow(&n(8), &n(15), &n(23)), Ok(n(2)));
    assert_eq!(modpow(&n(2), &n(10), &n(1000)), Ok(n(24)));
}

#[test]
fn modpow_zero_modulus_fails() {
    assert_eq!(modpow(&n(5), &n(3), &n(0)), Err(ArithmeticError::ZeroModulus));
    assert_eq!(modpow(&n(0), &n(0), &n(0)), Err(ArithmeticError::ZeroModulus));
}

#[test]
fn modpow_zero_exponent_is_one() {
    for m in [2u32, 3, 23, 1000, u32::MAX] {
        assert_eq!(modpow(&n(7), &n(0), &n(m)), Ok(n(1)));
        assert_eq!(modpow(&n(0), &n(0), &n(m)), Ok(n(1)));
    }
    assert_eq!(modpow(&n(7), &n(0), &n(1)), Ok(n(0)));
}

#[test]
fn modpow_edge_bases() {
    assert_eq!(modpow(&n(0), &n(5), &n(23)), Ok(n(0)));
    assert_eq!(modpow(&n(1), &n(12345), &n(23)), Ok(n(1)));
    assert_eq!(modpow(&n(30), &n(1), &n(23)), Ok(n(7)));
}

#[test]
fn modpow_multi_limb() {
    // 2^64 is below the modulus 2^64 + 1, so it comes back unchanged.
    let two = n(2);
    let sixty_four = n(64);
    let modulus = BigNum::from_limbs(vec![1, 0, 1]);
    let r = modpow(&two, &sixty_four, &modulus).unwrap();
    assert_eq!(r.limbs(), vec![0, 0, 1]);
}

#[test]
fn from_limbs_drops_high_zeros() {
    let v = BigNum::from_limbs(vec![7, 0, 0]);
    assert_eq!(v.limbs(), vec![7]);
    assert_eq!(v, n(7));
    let zero = BigNum::from_limbs(vec![0, 0]);
    assert!(zero.is_zero());
    assert_eq!(zero.limbs(), Vec::<u32>::new());
    assert_eq!(n(0), zero);
}

#[test]
fn comparison_follows_value() {
    assert!(n(3).lt(&n(4)));
    assert!(!n(4).lt(&n(4)));
    assert!(!n(5).lt(&n(4)));
    let big = BigNum::from_limbs(vec![0, 1]);
    let bigger = BigNum::from_limbs(vec![0, 2]);
    let mixed = BigNum::from_limbs(vec![u32::MAX, 1]);
    assert!(n(u32::MAX).lt(&big));
    assert!(!big.lt(&n(u32::MAX)));
    assert!(big.lt(&mixed));
    assert!(mixed.lt(&bigger));
    assert!(!bigger.lt(&mixed));
}

#[test]
fn modp_group_matches_rfc_prime() {
    let params = GroupParams::modp_2048();
    let hex = b"FFFFFFFFFFFFFFFFC90FDAA22168C234C4C6628B80DC1CD1\
29024E088A67CC74020BBEA63B139B22514A08798E3404DD\
EF9519B3CD3A431B302B0A6DF25F14374FE1356D6D51C245\
E485B576625E7EC6F44C42E9A637ED6B0BFF5CB6F406B7ED\
EE386BFB5A899FA5AE9F24117C4B1FE649286651ECE45B3D\
C2007CB8A163BF0598DA48361C55D39A69163FA8FD24CF5F\
83655D23DCA3AD961C62F356208552BB9ED529077096966D\
670C354E4ABC9804F1746C08CA18217C32905E462E36CE3B\
E39E772C180E86039B2783A2EC07A28FB5C55DF06F4C52C9\
DE2BCBF6955817183995497CEA956AE515D2261898FA0510\
15728E5A8AACAA68FFFFFFFFFFFFFFFF";
    let expected = BigUint::parse_bytes(hex, 16).unwrap();
    assert_eq!(expected.bits(), 2048);
    assert_eq!(params.modulus.limbs(), expected.to_u32_digits());
    assert_eq!(params.generator, n(MODP_2048_GENERATOR));
    assert_eq!(MODP_2048_GENERATOR, 2);
}

#[test]
fn group_with_zero_modulus_is_refused() {
    assert_eq!(GroupParams::new(n(0), n(5)).unwrap_err(), ArithmeticError::ZeroModulus);
    let params = GroupParams::new(n(23), n(5)).unwrap();
    assert_eq!(params.modulus, n(23));
    assert_eq!(params.generator, n(5));
}
