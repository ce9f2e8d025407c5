//! A k-of-n multisignature authentication scheme.
//!
//! A single logical signer is represented by an ordered committee of member
//! public keys plus a threshold; an authorization is valid if at least
//! `threshold` distinct committee members produced a valid signature over the
//! same message. Members may use different signature algorithms at once.

pub mod bitmap;
pub mod codec;
pub mod committee;
pub mod crypto;
pub mod errors;
pub mod laws;
pub mod multisig;
