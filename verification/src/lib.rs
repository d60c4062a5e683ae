//! Core of a cross-ledger message bridge: threshold multisignature
//! verification of inbound messages against a rotating validator set, and a
//! bounded out-of-order nonce window that admits each message exactly once.
//!
//! The crate is organised leaves-first: fixed-width byte codecs, the chain
//! reference and message header wire formats, the message body layout, the
//! bridge configuration (validator set, threshold, fee), the outbound nonce
//! issuer and the inbound replay guard, the signature verifier, and finally
//! the send/confirm orchestration.

pub mod body;
pub mod bytes;
pub mod chain;
pub mod config;
pub mod errors;
pub mod header;
pub mod message;
pub mod multisig;
pub mod nonce;
