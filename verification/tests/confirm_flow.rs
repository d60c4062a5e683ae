use bridge_core::chain::Chain;
use bridge_core::config::ConfigInfo;
use bridge_core::errors::ErrorCode;
use bridge_core::header::MsgHeader;
use bridge_core::message::{confirm_message, send_message};
use bridge_core::nonce::{FromChainNonce, ToChainNonce};

fn secret_key(seed: u8) -> libsecp256k1::SecretKey {
    let mut bytes = [0u8; 32];
    bytes[31] = seed;
    bytes[0] = 1;
    libsecp256k1::SecretKey::parse(&bytes).unwrap()
}

fn identity(sk: &libsecp256k1::SecretKey) -> [u8; 20] {
    let pk = libsecp256k1::PublicKey::from_secret_key(sk);
    let uncompressed = pk.serialize();
    let digest = solana_keccak_hasher::hash(&uncompressed[1..65]).to_bytes();
    let mut id = [0u8; 20];
    id.copy_from_slice(&digest[12..32]);
    id
}

fn wire_sign(message: &[u8], sk: &libsecp256k1::SecretKey) -> [u8; 65] {
    let digest = solana_keccak_hasher::hash(message).to_bytes();
    let msg = libsecp256k1::Message::parse(&digest);
    let (sig, recid) = libsecp256k1::sign(&msg, sk);
    let mut wire = [0u8; 65];
    wire[..64].copy_from_slice(&sig.serialize());
    wire[64] = (recid.serialize() + 1) % 2;
    wire
}

fn test_config(keys: &[&libsecp256k1::SecretKey], threshold: u8) -> ConfigInfo {
    let mut config = ConfigInfo::initialize([1; 32], 255);
    let ids: Vec<[u8; 20]> = keys.iter().map(|k| identity(k)).collect();
    config.add_signers(&ids).unwrap();
    config.set_threshold(threshold).unwrap();
    config
}

fn header_with_nonce(nonce: u64) -> MsgHeader {
    MsgHeader {
        mtype: 0,
        nonce,
        from_chain: Chain { chain_type: 0, chain_id: 5 },
        from_addr: [2; 32],
        to_chain: Chain { chain_type: 2, chain_id: 101 },
        to_addr: [3; 32],
        upload_gas_fee: 50,
    }
}

/// A 120-byte body carrying `receiver` in its embedded receiver field.
fn body_for(receiver: &[u8; 32]) -> Vec<u8> {
    let mut body = vec![0u8; 120];
    body[80..112].copy_from_slice(receiver);
    body
}

fn signed_bytes(header: &MsgHeader, body: &[u8]) -> Vec<u8> {
    let mut message = header.to_be_bytes();
    message.extend_from_slice(body);
    message
}

#[test]
fn confirm_then_replay_then_below_floor() {
    let (a, b) = (secret_key(1), secret_key(2));
    let config = test_config(&[&a, &b], 2);
    let receiver = [9u8; 32];
    let executor = [8u8; 32];
    let mut replay = FromChainNonce::new();

    let header = header_with_nonce(10);
    let body = body_for(&receiver);
    let message = signed_bytes(&header, &body);
    let signatures = vec![wire_sign(&message, &a), wire_sign(&message, &b)];

    let ev = confirm_message(
        &config,
        &mut replay,
        &receiver,
        &executor,
        &header,
        body.clone(),
        &signatures,
    )
    .unwrap();
    assert_eq!(ev.executor, executor);
    assert_eq!(ev.from_chain, header.from_chain);
    assert_eq!(ev.nonce, 10);
    assert_eq!(ev.mbody, body);
    // The record was stamped with the source chain on first confirmation.
    assert_eq!(replay.chain, header.from_chain);

    // The same nonce again is consumed.
    let again = confirm_message(
        &config,
        &mut replay,
        &receiver,
        &executor,
        &header,
        body.clone(),
        &signatures,
    );
    assert_eq!(again.unwrap_err(), ErrorCode::NonceConsumed);

    // Nonce 9 is below the window floor of 10.
    let header9 = header_with_nonce(9);
    let message9 = signed_bytes(&header9, &body);
    let signatures9 = vec![wire_sign(&message9, &a), wire_sign(&message9, &b)];
    let low = confirm_message(
        &config,
        &mut replay,
        &receiver,
        &executor,
        &header9,
        body.clone(),
        &signatures9,
    );
    assert_eq!(low.unwrap_err(), ErrorCode::NonceInvalid);
}

#[test]
fn receiver_mismatch_mutates_nothing() {
    let (a, b) = (secret_key(1), secret_key(2));
    let config = test_config(&[&a, &b], 2);
    let receiver = [9u8; 32];
    let executor = [8u8; 32];
    let mut replay = FromChainNonce::new();

    let header = header_with_nonce(10);
    // 120-byte body whose embedded receiver names someone else.
    let body = body_for(&[0x55; 32]);
    let message = signed_bytes(&header, &body);
    let signatures = vec![wire_sign(&message, &a), wire_sign(&message, &b)];

    let r = confirm_message(
        &config,
        &mut replay,
        &receiver,
        &executor,
        &header,
        body.clone(),
        &signatures,
    );
    assert_eq!(r.unwrap_err(), ErrorCode::ReceiverMismatch);
    // No replay state was touched: the same nonce still succeeds once the
    // body is right.
    assert!(replay.window.is_empty());
    let good_body = body_for(&receiver);
    let good_message = signed_bytes(&header, &good_body);
    let good_sigs = vec![wire_sign(&good_message, &a), wire_sign(&good_message, &b)];
    assert!(confirm_message(
        &config,
        &mut replay,
        &receiver,
        &executor,
        &header,
        good_body,
        &good_sigs,
    )
    .is_ok());
}

#[test]
fn short_body_skips_receiver_binding() {
    let a = secret_key(1);
    let config = test_config(&[&a], 1);
    let receiver = [9u8; 32];
    let mut replay = FromChainNonce::new();

    let header = header_with_nonce(1);
    let body = vec![1, 2, 3];
    let message = signed_bytes(&header, &body);
    let signatures = vec![wire_sign(&message, &a)];
    assert!(confirm_message(
        &config,
        &mut replay,
        &receiver,
        &[8; 32],
        &header,
        body,
        &signatures,
    )
    .is_ok());
}

#[test]
fn failed_verification_mutates_nothing() {
    let (a, x) = (secret_key(1), secret_key(9));
    let config = test_config(&[&a], 1);
    let receiver = [9u8; 32];
    let mut replay = FromChainNonce::new();

    let header = header_with_nonce(4);
    let body = body_for(&receiver);
    let message = signed_bytes(&header, &body);
    // Signed by an unknown key: verification fails before replay admission.
    let signatures = vec![wire_sign(&message, &x)];
    let r = confirm_message(
        &config,
        &mut replay,
        &receiver,
        &[8; 32],
        &header,
        body.clone(),
        &signatures,
    );
    assert_eq!(r.unwrap_err(), ErrorCode::SignaturePublicKeyMismatch);
    assert!(replay.window.is_empty());
    assert_eq!(replay.last_nonce, 0);

    // Too few signatures: also no mutation.
    let r = confirm_message(
        &config,
        &mut replay,
        &receiver,
        &[8; 32],
        &header,
        body,
        &Vec::new(),
    );
    assert_eq!(r.unwrap_err(), ErrorCode::SignaturesLess);
    assert!(replay.window.is_empty());
}

#[test]
fn send_issues_sequential_nonces() {
    let mut counter = ToChainNonce::new();
    let to_chain = Chain { chain_type: 0, chain_id: 5 };
    let ev1 = send_message(&mut counter, to_chain, [3; 32], vec![1, 2], 0, 7, [2; 32]);
    assert_eq!(ev1.header.nonce, 1);
    assert_eq!(ev1.header.to_chain, to_chain);
    assert_eq!(ev1.header.to_addr, [3; 32]);
    assert_eq!(ev1.header.from_addr, [2; 32]);
    assert_eq!(ev1.header.upload_gas_fee, 7);
    // The header is stamped with this ledger's own identity.
    assert_eq!(ev1.header.from_chain, bridge_core::message::get_current_chain());
    assert_eq!(ev1.body, vec![1, 2]);
    assert_eq!(ev1.fee, 7);
    // The counter was stamped with the destination on first use.
    assert_eq!(counter.chain, to_chain);

    let ev2 = send_message(&mut counter, to_chain, [3; 32], Vec::new(), 1, 0, [2; 32]);
    assert_eq!(ev2.header.nonce, 2);
    let ev3 = send_message(&mut counter, to_chain, [3; 32], Vec::new(), 1, 0, [2; 32]);
    assert_eq!(ev3.header.nonce, 3);
}
