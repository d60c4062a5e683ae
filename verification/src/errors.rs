//! Typed failures surfaced by the bridge core. Every rejection is explicit;
//! none is silently swallowed, and a failed operation mutates no state.

use vstd::prelude::*;

verus! {

/// The reasons a bridge-core operation can fail.
#[derive(Clone, Copy, Debug, PartialEq, Eq, Structural)]
pub enum ErrorCode {
    /// The validator set would exceed its capacity of twelve identities.
    ValidatorOver12,
    /// Fewer distinct recognised signers than the required threshold.
    SignaturesLess,
    /// A threshold of zero, or one above the validator count, was requested;
    /// also raised when removal would leave the validator set empty.
    InvalidThreshold,
    /// A signature recovered to an identity outside the validator set.
    SignaturePublicKeyMismatch,
    /// A signature could not be recovered to any public key.
    SignatureVerificationFailed,
    /// The nonce is below the replay window's floor: older than anything the
    /// window remembers, so it cannot be told apart from a consumed one.
    NonceInvalid,
    /// The nonce was already accepted (it is in the window, or it repeats the
    /// most recently stored nonce).
    NonceConsumed,
    /// The fee balance is short of the requested withdrawal.
    InsufficientFee,
    /// A persisted byte encoding could not be decoded.
    DeserializationError,
    /// The payload-embedded receiver does not match the actual receiver.
    ReceiverMismatch,
}

} // verus!
