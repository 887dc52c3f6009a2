//! Unauthenticated Diffie–Hellman key agreement between two peers over an
//! untrusted byte channel: arbitrary-precision numbers, key material, a
//! tolerant wire codec and a single-shot handshake state machine.

pub mod bignum;
pub mod codec;
pub mod group;
pub mod handshake;
pub mod keys;

pub use bignum::{modpow, ArithmeticError, BigNum};
pub use codec::{
    decode, encode, parse_chunks, sanitize, sanitize_data_buffer, sanitize_their_pub_key,
    CodecError,
};
pub use group::{GroupParams, MODP_2048_GENERATOR};
pub use handshake::{Action, Event, Handshake, HandshakeError, Phase, Role};
pub use keys::{
    derive_public_value, derive_session_key, generate_private_exponent, KeyError,
    PRIVATE_EXPONENT_BITS,
};
