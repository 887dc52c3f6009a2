use dh_exchange::{
    decode, encode, generate_private_exponent, parse_chunks, sanitize, sanitize_data_buffer,
    sanitize_their_pub_key, BigNum, CodecError, GroupParams,
};

fn n(v: u32) -> BigNum {
    BigNum::from_u32(v)
}

fn padded(payload: &[u8], capacity: usize) -> Vec<u8> {
    let mut buf = vec![0u8; capacity];
    buf[..payload.len()].copy_from_slice(payload);
    buf
}

#[test]
fn padded_eight_decodes_to_eight() {
    let buf = padded(b"8", 2048);
    assert_eq!(decode(&buf), Ok(n(8)));
    assert_eq!(decode(b"8"), Ok(n(8)));
    assert_eq!(decode(&buf), decode(b"8"));
}

#[test]
fn padding_does_not_change_decoding() {
    for payload in [&b"19"[..], b"0", b"4294967295", b"1 2 3", b"", b"x"] {
        for capacity in [payload.len(), payload.len() + 1, 2048] {
            assert_eq!(decode(&padded(payload, capacity)), decode(payload));
        }
    }
}

#[test]
fn all_padding_is_empty() {
    assert_eq!(decode(&[0u8; 2048]), Err(CodecError::Empty));
    assert_eq!(decode(&[]), Err(CodecError::Empty));
    assert_eq!(decode(b"  \n\t"), Err(CodecError::Empty));
    assert_eq!(decode(b"garbage"), Err(CodecError::Empty));
}

#[test]
fn encode_exact_bytes() {
    assert_eq!(encode(&n(0)), b"0".to_vec());
    assert_eq!(encode(&n(8)), b"8".to_vec());
    assert_eq!(encode(&n(4294967295)), b"4294967295".to_vec());
    assert_eq!(encode(&BigNum::from_limbs(vec![0, 1])), b"0 1".to_vec());
    assert_eq!(encode(&BigNum::from_limbs(vec![12, 0, 305])), b"12 0 305".to_vec());
}

#[test]
fn decode_of_encode_round_trips() {
    let params = GroupParams::modp_2048();
    let mut values = vec![
        n(0),
        n(1),
        n(9),
        n(10),
        n(u32::MAX),
        BigNum::from_limbs(vec![0, 1]),
        BigNum::from_limbs(vec![5, 0, 0, 7]),
        params.modulus.clone(),
    ];
    values.push(generate_private_exponent());
    for v in values {
        let wire = encode(&v);
        assert_eq!(decode(&wire), Ok(v.clone()));
        assert_eq!(decode(&padded(&wire, 2048)), Ok(v));
    }
}

#[test]
fn chunks_are_limbs_least_significant_first() {
    assert_eq!(decode(b"0 1"), Ok(BigNum::from_limbs(vec![0, 1])));
    assert_eq!(decode(b"  7\t\n3 \r"), Ok(BigNum::from_limbs(vec![7, 3])));
    assert_eq!(decode(b"0007"), Ok(n(7)));
    assert_eq!(decode(b"5 0 0"), Ok(n(5)));
}

#[test]
fn garbage_bytes_are_stripped() {
    assert_eq!(decode(b"1x9"), Ok(n(19)));
    assert_eq!(decode(b"\xff8\x00\x01"), Ok(n(8)));
    assert_eq!(sanitize(b"a1 \x002\xfe"), b"1 2".to_vec());
}

#[test]
fn oversized_limb_is_malformed() {
    assert_eq!(decode(b"4294967296"), Err(CodecError::MalformedDigits));
    assert_eq!(decode(b"1 99999999999999999999999"), Err(CodecError::MalformedDigits));
    assert_eq!(decode(b"4294967295"), Ok(n(u32::MAX)));
}

#[test]
fn stray_byte_after_sanitizing_is_malformed() {
    assert_eq!(parse_chunks(b"12a"), Err(CodecError::MalformedDigits));
    assert_eq!(parse_chunks(b"\x00"), Err(CodecError::MalformedDigits));
    assert_eq!(parse_chunks(b"12 34"), Ok(BigNum::from_limbs(vec![12, 34])));
    assert_eq!(parse_chunks(b" "), Err(CodecError::Empty));
}

#[test]
fn nul_characters_are_removed_from_text() {
    let mut text = String::from("8\u{0}\u{0}\u{0}");
    sanitize_data_buffer(&mut text);
    assert_eq!(text, "8");
    let mut key = String::from("\u{0}12\u{0}34 é\u{0}");
    sanitize_their_pub_key(&mut key);
    assert_eq!(key, "1234 é");
    let mut empty = String::new();
    sanitize_data_buffer(&mut empty);
    assert_eq!(empty, "");
}
