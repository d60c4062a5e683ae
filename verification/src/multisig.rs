//! Threshold multisignature verification.
//!
//! A message is accepted when every supplied signature recovers to a member
//! of the validator set — one unrecognised signer invalidates the whole call,
//! so junk signatures cannot be used to pad a set — and the signatures cover
//! at least `threshold` distinct validators, so one validator signing twice
//! counts once.
//!
//! Signatures are 65 wire bytes: `r (32) ‖ s (32) ‖ recovery id (1)`, the
//! wire recovery id carrying the inverted parity convention, normalised as
//! `(id + 1) mod 2` before recovery. A signer's 20-byte identity is the
//! low-order 20 bytes of the keccak256 digest of its recovered uncompressed
//! public key.

use vstd::prelude::*;

use crate::bytes::bytes20_eq;
use crate::errors::ErrorCode;

verus! {

/// The keccak256 digest of a byte string. The digest itself is opaque to the
/// contracts; they rely only on it being a function of the input bytes.
pub uninterp spec fn keccak_of(data: Seq<u8>) -> Seq<u8>;

/// The secp256k1 public key (64 uncompressed bytes) recovered from a 32-byte
/// digest, a recovery id and a 64-byte `r ‖ s` signature, or nothing when no
/// key can be recovered. A function of its inputs alone.
pub uninterp spec fn recover_of(digest: Seq<u8>, recovery_id: u8, signature: Seq<u8>) -> Option<
    Seq<u8>,
>;

/// Relies on solana_keccak_hasher::hash: the keccak256 digest, 32 bytes,
/// depending on the input bytes alone.
#[verifier::external_body]
fn keccak256(data: &[u8]) -> (r: [u8; 32])
    ensures
        r@ == keccak_of(data@),
        r@.len() == 32,
{
    solana_keccak_hasher::hash(data).to_bytes()
}

/// Relies on solana_secp256k1_recover::secp256k1_recover: public-key
/// recovery from the digest, the recovery id and the first 64 signature
/// bytes; deterministic in its inputs, returning a key exactly when one can
/// be recovered.
#[verifier::external_body]
fn recover_pubkey(digest: &[u8; 32], recovery_id: u8, signature: &[u8; 65]) -> (r: Option<
    [u8; 64],
>)
    ensures
        match r {
            Some(pk) => recover_of(digest@, recovery_id, signature@.take(64)) == Some(pk@),
            None => recover_of(digest@, recovery_id, signature@.take(64)) is None,
        },
{
    match solana_secp256k1_recover::secp256k1_recover(digest, recovery_id, &signature[..64]) {
        Ok(pk) => Some(pk.to_bytes()),
        Err(_) => None,
    }
}

/// The normalised recovery id of a wire signature's 65th byte: the wire
/// format's parity convention is inverted relative to the raw recovery id.
pub open spec fn wire_recovery_id(b: u8) -> u8 {
    ((b + 1) % 2) as u8
}

/// The signer identity derived from an uncompressed public key: the
/// low-order 20 bytes of its keccak256 digest.
pub open spec fn identity_of(pubkey: Seq<u8>) -> Seq<u8> {
    keccak_of(pubkey).skip(12)
}

/// The identity a 65-byte wire signature recovers to for `digest`, if any.
pub open spec fn signer_of(digest: Seq<u8>, sig: Seq<u8>) -> Option<Seq<u8>>
    recommends
        sig.len() == 65,
{
    match recover_of(digest, wire_recovery_id(sig[64]), sig.take(64)) {
        Some(pk) => Some(identity_of(pk)),
        None => None,
    }
}

/// A sequence of 65-byte wire signatures, as byte sequences.
pub open spec fn sigs_view(sigs: Seq<[u8; 65]>) -> Seq<Seq<u8>> {
    sigs.map_values(|a: [u8; 65]| a@)
}

/// A sequence of 20-byte identities, as byte sequences.
pub open spec fn ids_view(ids: Seq<[u8; 20]>) -> Seq<Seq<u8>> {
    ids.map_values(|a: [u8; 20]| a@)
}

/// One signature is in order: it recovers, and its signer is a validator.
pub open spec fn sig_valid(digest: Seq<u8>, sig: Seq<u8>, validators: Seq<Seq<u8>>) -> bool {
    signer_of(digest, sig) matches Some(s) && validators.contains(s)
}

/// Every supplied signature is in order.
pub open spec fn all_sigs_valid(digest: Seq<u8>, sigs: Seq<Seq<u8>>, validators: Seq<Seq<u8>>) -> bool {
    forall|i: int| 0 <= i < sigs.len() ==> #[trigger] sig_valid(digest, sigs[i], validators)
}

/// The set of distinct signer identities the signatures recover to.
pub open spec fn signer_set(digest: Seq<u8>, sigs: Seq<Seq<u8>>) -> Set<Seq<u8>>
    decreases sigs.len(),
{
    if sigs.len() == 0 {
        Set::empty()
    } else {
        match signer_of(digest, sigs.last()) {
            Some(s) => signer_set(digest, sigs.drop_last()).insert(s),
            None => signer_set(digest, sigs.drop_last()),
        }
    }
}

/// Verification succeeds exactly when every signature recovers to a member
/// of the validator set and the signatures cover at least `threshold`
/// distinct signers.
pub open spec fn verify_ok(
    message: Seq<u8>,
    sigs: Seq<Seq<u8>>,
    validators: Seq<Seq<u8>>,
    threshold: u8,
) -> bool {
    let digest = keccak_of(message);
    all_sigs_valid(digest, sigs, validators) && signer_set(digest, sigs).len() >= threshold
}

/// The failure the front-to-back scan of the signatures hits first, if any:
/// a signature that does not recover fails verification outright, and one
/// recovering to a non-member fails as a key mismatch.
pub open spec fn scan_error(digest: Seq<u8>, sigs: Seq<Seq<u8>>, validators: Seq<Seq<u8>>) -> Option<
    ErrorCode,
>
    decreases sigs.len(),
{
    if sigs.len() == 0 {
        None
    } else {
        match signer_of(digest, sigs[0]) {
            None => Some(ErrorCode::SignatureVerificationFailed),
            Some(s) => if !validators.contains(s) {
                Some(ErrorCode::SignaturePublicKeyMismatch)
            } else {
                scan_error(digest, sigs.drop_first(), validators)
            },
        }
    }
}

/// The error `verify_multisig` reports when it fails: the first scan
/// failure, or too few distinct signers once all signatures are in order.
pub open spec fn verify_error(message: Seq<u8>, sigs: Seq<Seq<u8>>, validators: Seq<Seq<u8>>) -> ErrorCode {
    match scan_error(keccak_of(message), sigs, validators) {
        Some(e) => e,
        None => ErrorCode::SignaturesLess,
    }
}

/// When the first `i` signatures are in order, the scan's outcome is decided
/// by what signature `i` does (or by reaching the end).
proof fn lemma_scan_at(digest: Seq<u8>, sigs: Seq<Seq<u8>>, validators: Seq<Seq<u8>>, i: int)
    requires
        0 <= i <= sigs.len(),
        forall|j: int| 0 <= j < i ==> #[trigger] sig_valid(digest, sigs[j], validators),
    ensures
        i == sigs.len() ==> scan_error(digest, sigs, validators) is None,
        i < sigs.len() && signer_of(digest, sigs[i]) is None ==> scan_error(
            digest,
            sigs,
            validators,
        ) == Some(ErrorCode::SignatureVerificationFailed),
        i < sigs.len() && (signer_of(digest, sigs[i]) matches Some(s) && !validators.contains(s))
            ==> scan_error(digest, sigs, validators) == Some(ErrorCode::SignaturePublicKeyMismatch),
    decreases sigs.len(),
{
    if sigs.len() > 0 {
        if i == 0 {
        } else {
            assert(sig_valid(digest, sigs[0], validators));
            let rest = sigs.drop_first();
            assert(forall|j: int| 0 <= j < rest.len() ==> rest[j] == sigs[j + 1]);
            assert forall|j: int| 0 <= j < i - 1 implies #[trigger] sig_valid(
                digest,
                rest[j],
                validators,
            ) by {
                assert(sig_valid(digest, sigs[j + 1], validators));
            }
            lemma_scan_at(digest, rest, validators, i - 1);
        }
    }
}

/// Whether `x` occurs among the 20-byte identities in `ids`.
pub(crate) fn contains_id(ids: &Vec<[u8; 20]>, x: &[u8; 20]) -> (r: bool)
    ensures
        r <==> ids_view(ids@).contains(x@),
{
    let mut i: usize = 0;
    while i < ids.len()
        invariant
            i <= ids@.len(),
            forall|j: int| 0 <= j < i ==> ids_view(ids@)[j] != x@,
        decreases ids@.len() - i,
    {
        if bytes20_eq(&ids[i], x) {
            proof {
                assert(ids_view(ids@)[i as int] == x@);
            }
            return true;
        }
        i = i + 1;
    }
    proof {
        if ids_view(ids@).contains(x@) {
            let j = choose|j: int| 0 <= j < ids_view(ids@).len() && ids_view(ids@)[j] == x@;
            assert(ids_view(ids@)[j] != x@);
        }
    }
    false
}

/// The low-order 20 bytes of a 32-byte digest, as an identity.
fn tail20(h: &[u8; 32]) -> (a: [u8; 20])
    ensures
        a@ == h@.skip(12),
{
    let mut a = [0u8; 20];
    let mut i: usize = 0;
    while i < 20
        invariant
            i <= 20,
            a@.len() == 20,
            forall|j: int| 0 <= j < i ==> a@[j] == h@[j + 12],
        decreases 20 - i,
    {
        a[i] = h[i + 12];
        i = i + 1;
    }
    proof {
        assert(a@ =~= h@.skip(12));
    }
    a
}

/// Verifies a threshold multisignature over `message`.
///
/// Succeeds exactly when every signature recovers to a distinct-or-repeated
/// member of `validators` and at least `threshold` distinct members are
/// covered. A signature that cannot be recovered fails the whole call, as
/// does one from an unrecognised signer; with all signatures in order but
/// too few distinct signers the call fails short of threshold. A pure check:
/// no state is touched.
pub fn verify_multisig(
    message: &Vec<u8>,
    signatures: &Vec<[u8; 65]>,
    validators: &Vec<[u8; 20]>,
    threshold: u8,
) -> (r: Result<(), ErrorCode>)
    ensures
        r is Ok <==> verify_ok(message@, sigs_view(signatures@), ids_view(validators@), threshold),
        r matches Err(e) ==> e == verify_error(
            message@,
            sigs_view(signatures@),
            ids_view(validators@),
        ),
{
    let ghost sigsv = sigs_view(signatures@);
    let ghost valsv = ids_view(validators@);
    let digest = keccak256(message.as_slice());
    let mut seen: Vec<[u8; 20]> = Vec::new();
    let mut i: usize = 0;
    while i < signatures.len()
        invariant
            i <= signatures@.len(),
            sigsv == sigs_view(signatures@),
            valsv == ids_view(validators@),
            digest@ == keccak_of(message@),
            forall|j: int| 0 <= j < i ==> #[trigger] sig_valid(digest@, sigsv[j], valsv),
            signer_set(digest@, sigsv.take(i as int)).finite(),
            signer_set(digest@, sigsv.take(i as int)) == ids_view(seen@).to_set(),
            signer_set(digest@, sigsv.take(i as int)).len() == seen@.len(),
        decreases signatures@.len() - i,
    {
        let sig = signatures[i];
        proof {
            assert(sigsv[i as int] == sig@);
        }
        let rid: u8 = if sig[64] % 2 == 0 {
            1
        } else {
            0
        };
        proof {
            assert(rid == wire_recovery_id(sig@[64])) by {
                let b = sig@[64];
                assert(b % 2 == 0 ==> ((b + 1) % 2) as u8 == 1) by (bit_vector);
                assert(b % 2 != 0 ==> ((b + 1) % 2) as u8 == 0) by (bit_vector);
            }
        }
        let pk = match recover_pubkey(&digest, rid, &sig) {
            Some(pk) => pk,
            None => {
                proof {
                    assert(signer_of(digest@, sigsv[i as int]) is None);
                    assert(!sig_valid(digest@, sigsv[i as int], valsv));
                    lemma_scan_at(digest@, sigsv, valsv, i as int);
                }
                return Err(ErrorCode::SignatureVerificationFailed);
            },
        };
        let pk_hash = keccak256(pk.as_slice());
        let id = tail20(&pk_hash);
        proof {
            assert(id@ == identity_of(pk@));
            assert(signer_of(digest@, sigsv[i as int]) == Some(id@));
        }
        if !contains_id(validators, &id) {
            proof {
                assert(!sig_valid(digest@, sigsv[i as int], valsv));
                lemma_scan_at(digest@, sigsv, valsv, i as int);
            }
            return Err(ErrorCode::SignaturePublicKeyMismatch);
        }
        proof {
            assert(sig_valid(digest@, sigsv[i as int], valsv));
        }
        let ghost pre = signer_set(digest@, sigsv.take(i as int));
        let ghost old_seen = seen@;
        if !contains_id(&seen, &id) {
            seen.push(id);
            proof {
                assert(ids_view(seen@) =~= ids_view(old_seen).push(id@));
                ids_view(old_seen).lemma_push_to_set_commute(id@);
                assert(ids_view(seen@).to_set() == pre.insert(id@));
                assert(!pre.contains(id@));
            }
        } else {
            proof {
                assert(pre.insert(id@) =~= pre);
            }
        }
        i = i + 1;
        proof {
            let taken = sigsv.take(i as int);
            assert(taken.drop_last() =~= sigsv.take(i as int - 1));
            assert(taken.last() == sigsv[i as int - 1]);
            assert(signer_set(digest@, taken) == pre.insert(id@));
        }
    }
    proof {
        assert(sigsv.take(i as int) =~= sigsv);
        lemma_scan_at(digest@, sigsv, valsv, i as int);
    }
    if seen.len() >= threshold as usize {
        Ok(())
    } else {
        Err(ErrorCode::SignaturesLess)
    }
}

} // verus!
