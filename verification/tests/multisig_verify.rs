use bridge_core::errors::ErrorCode;
use bridge_core::multisig::verify_multisig;

/// A deterministic secret key from a seed byte.
fn secret_key(seed: u8) -> libsecp256k1::SecretKey {
    let mut bytes = [0u8; 32];
    bytes[31] = seed;
    bytes[0] = 1;
    libsecp256k1::SecretKey::parse(&bytes).unwrap()
}

/// The 20-byte signer identity of a secret key: the low-order 20 bytes of
/// the keccak256 digest of the uncompressed public key.
fn identity(sk: &libsecp256k1::SecretKey) -> [u8; 20] {
    let pk = libsecp256k1::PublicKey::from_secret_key(sk);
    let uncompressed = pk.serialize();
    let digest = solana_keccak_hasher::hash(&uncompressed[1..65]).to_bytes();
    let mut id = [0u8; 20];
    id.copy_from_slice(&digest[12..32]);
    id
}

/// Signs the keccak256 digest of `message`, in the 65-byte wire form with
/// the inverted-parity recovery byte.
fn wire_sign(message: &[u8], sk: &libsecp256k1::SecretKey) -> [u8; 65] {
    let digest = solana_keccak_hasher::hash(message).to_bytes();
    let msg = libsecp256k1::Message::parse(&digest);
    let (sig, recid) = libsecp256k1::sign(&msg, sk);
    let mut wire = [0u8; 65];
    wire[..64].copy_from_slice(&sig.serialize());
    wire[64] = (recid.serialize() + 1) % 2;
    wire
}

#[test]
fn two_of_three_verifies() {
    let (a, b, c) = (secret_key(1), secret_key(2), secret_key(3));
    let validators = vec![identity(&a), identity(&b), identity(&c)];
    let message = b"a bridged message".to_vec();
    let signatures = vec![wire_sign(&message, &a), wire_sign(&message, &b)];
    assert_eq!(verify_multisig(&message, &signatures, &validators, 2), Ok(()));
}

#[test]
fn unknown_signer_fails_despite_valid_one() {
    let (a, b, c, x) = (secret_key(1), secret_key(2), secret_key(3), secret_key(9));
    let validators = vec![identity(&a), identity(&b), identity(&c)];
    let message = b"a bridged message".to_vec();
    let signatures = vec![wire_sign(&message, &a), wire_sign(&message, &x)];
    assert_eq!(
        verify_multisig(&message, &signatures, &validators, 2),
        Err(ErrorCode::SignaturePublicKeyMismatch)
    );
}

#[test]
fn duplicate_signer_counts_once() {
    let (a, b) = (secret_key(1), secret_key(2));
    let validators = vec![identity(&a), identity(&b)];
    let message = b"payload".to_vec();
    let signatures = vec![wire_sign(&message, &a), wire_sign(&message, &a)];
    assert_eq!(
        verify_multisig(&message, &signatures, &validators, 2),
        Err(ErrorCode::SignaturesLess)
    );
    // The same pair meets a threshold of one.
    assert_eq!(verify_multisig(&message, &signatures, &validators, 1), Ok(()));
}

#[test]
fn no_signatures_fail_threshold() {
    let a = secret_key(1);
    let validators = vec![identity(&a)];
    let message = b"payload".to_vec();
    assert_eq!(
        verify_multisig(&message, &Vec::new(), &validators, 1),
        Err(ErrorCode::SignaturesLess)
    );
}

#[test]
fn malformed_signature_fails_recovery() {
    let a = secret_key(1);
    let validators = vec![identity(&a)];
    let message = b"payload".to_vec();
    // An all-zero r ‖ s is not a valid signature for any key.
    let signatures = vec![[0u8; 65]];
    assert_eq!(
        verify_multisig(&message, &signatures, &validators, 1),
        Err(ErrorCode::SignatureVerificationFailed)
    );
}

#[test]
fn signature_over_other_message_rejected() {
    let a = secret_key(1);
    let validators = vec![identity(&a)];
    let signed = b"the real message".to_vec();
    let other = b"a forged message".to_vec();
    let signatures = vec![wire_sign(&signed, &a)];
    assert_eq!(verify_multisig(&signed, &signatures, &validators, 1), Ok(()));
    // Against different bytes the digest differs, so recovery yields some
    // other key whose identity is not a validator.
    assert_ne!(verify_multisig(&other, &signatures, &validators, 1), Ok(()));
}

#[test]
fn empty_validator_set_rejects_everything() {
    let a = secret_key(1);
    let validators: Vec<[u8; 20]> = Vec::new();
    let message = b"payload".to_vec();
    let signatures = vec![wire_sign(&message, &a)];
    assert_eq!(
        verify_multisig(&message, &signatures, &validators, 1),
        Err(ErrorCode::SignaturePublicKeyMismatch)
    );
    assert_eq!(
        verify_multisig(&message, &Vec::new(), &validators, 1),
        Err(ErrorCode::SignaturesLess)
    );
}
