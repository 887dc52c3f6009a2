use dh_exchange::{
    decode, encode, Action, BigNum, CodecError, Event, GroupParams, Handshake, HandshakeError,
    Phase, Role,
};

fn n(v: u32) -> BigNum {
    BigNum::from_u32(v)
}

fn small_group() -> GroupParams {
    GroupParams::new(n(23), n(5)).unwrap()
}

fn sent_bytes(a: Action) -> Vec<u8> {
    match a {
        Action::Send(bytes) => bytes,
        other => panic!("expected Send, got {:?}", other),
    }
}

#[test]
fn initiator_and_responder_agree() {
    let mut initiator = Handshake::new(Role::Initiator, small_group(), n(6));
    let mut responder = Handshake::new(Role::Responder, small_group(), n(15));
    assert_eq!(initiator.phase(), Phase::Idle);
    assert_eq!(initiator.public_value(), &n(8));
    assert_eq!(responder.public_value(), &n(19));

    let to_responder = sent_bytes(initiator.start());
    assert_eq!(to_responder, b"8".to_vec());
    assert_eq!(initiator.phase(), Phase::AwaitingPeerValue);
    assert!(matches!(responder.start(), Action::Receive));
    assert!(matches!(initiator.on_event(Event::Sent), Action::Receive));

    let mut wire = vec![0u8; 2048];
    wire[..to_responder.len()].copy_from_slice(&to_responder);
    let to_initiator = sent_bytes(responder.on_event(Event::Received(wire)));
    assert_eq!(to_initiator, b"19".to_vec());
    let responder_key = match responder.on_event(Event::Sent) {
        Action::Finish(k) => k,
        other => panic!("expected Finish, got {:?}", other),
    };
    let initiator_key = match initiator.on_event(Event::Received(to_initiator)) {
        Action::Finish(k) => k,
        other => panic!("expected Finish, got {:?}", other),
    };
    assert_eq!(initiator_key, n(2));
    assert_eq!(responder_key, n(2));
    assert_eq!(initiator.phase(), Phase::Complete);
    assert_eq!(responder.phase(), Phase::Complete);
    assert_eq!(initiator.role(), Role::Initiator);
    assert_eq!(responder.role(), Role::Responder);
}

#[test]
fn full_size_group_handshake_agrees() {
    let params = GroupParams::modp_2048();
    let mut a = Handshake::new(Role::Initiator, params.clone(), dh_exchange::generate_private_exponent());
    let mut b = Handshake::new(Role::Responder, params, dh_exchange::generate_private_exponent());
    let from_a = sent_bytes(a.start());
    assert_eq!(decode(&from_a), Ok(a.public_value().clone()));
    assert!(matches!(b.start(), Action::Receive));
    let from_b = sent_bytes(b.on_event(Event::Received(from_a)));
    assert_eq!(from_b, encode(b.public_value()));
    assert!(matches!(a.on_event(Event::Sent), Action::Receive));
    let key_b = match b.on_event(Event::Sent) {
        Action::Finish(k) => k,
        other => panic!("expected Finish, got {:?}", other),
    };
    let key_a = match a.on_event(Event::Received(from_b)) {
        Action::Finish(k) => k,
        other => panic!("expected Finish, got {:?}", other),
    };
    assert_eq!(key_a, key_b);
}

#[test]
fn empty_reply_fails_the_handshake() {
    let mut initiator = Handshake::new(Role::Initiator, small_group(), n(6));
    sent_bytes(initiator.start());
    initiator.on_event(Event::Sent);
    let a = initiator.on_event(Event::Received(vec![0u8; 2048]));
    assert!(matches!(a, Action::Abort(HandshakeError::Codec(CodecError::Empty))));
    assert_eq!(initiator.phase(), Phase::Failed);
}

#[test]
fn out_of_range_reply_fails_the_handshake() {
    let mut initiator = Handshake::new(Role::Initiator, small_group(), n(6));
    sent_bytes(initiator.start());
    initiator.on_event(Event::Sent);
    let a = initiator.on_event(Event::Received(b"23".to_vec()));
    assert!(matches!(a, Action::Abort(HandshakeError::InvalidPeerValue)));
    assert_eq!(initiator.phase(), Phase::Failed);
}

#[test]
fn channel_failure_aborts() {
    let mut responder = Handshake::new(Role::Responder, small_group(), n(15));
    assert!(matches!(responder.start(), Action::Receive));
    let a = responder.on_event(Event::ChannelFailed);
    assert!(matches!(a, Action::Abort(HandshakeError::Channel)));
    assert_eq!(responder.phase(), Phase::Failed);
}

#[test]
fn responder_decodes_only_after_sending() {
    let mut responder = Handshake::new(Role::Responder, small_group(), n(15));
    responder.start();
    let a = responder.on_event(Event::Received(b"no digits".to_vec()));
    assert_eq!(sent_bytes(a), b"19".to_vec());
    assert_eq!(responder.phase(), Phase::AwaitingPeerValue);
    let b = responder.on_event(Event::Sent);
    assert!(matches!(b, Action::Abort(HandshakeError::Codec(CodecError::Empty))));
    assert_eq!(responder.phase(), Phase::Failed);
}

#[test]
fn only_first_reply_counts() {
    let mut initiator = Handshake::new(Role::Initiator, small_group(), n(6));
    sent_bytes(initiator.start());
    let early = initiator.on_event(Event::Received(b"19".to_vec()));
    assert!(matches!(early, Action::Send(_)));
    let done = initiator.on_event(Event::Sent);
    assert!(matches!(done, Action::Finish(ref k) if *k == n(2)));
}
