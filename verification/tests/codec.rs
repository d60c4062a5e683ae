use bridge_core::body::MsgBody;
use bridge_core::chain::Chain;
use bridge_core::errors::ErrorCode;
use bridge_core::header::MsgHeader;
use bridge_core::nonce::{decode_window, encode_window};

fn sample_header() -> MsgHeader {
    MsgHeader {
        mtype: 7,
        nonce: 0x0102030405060708,
        from_chain: Chain { chain_type: 0, chain_id: 5 },
        from_addr: [0xAA; 32],
        to_chain: Chain { chain_type: 2, chain_id: 101 },
        to_addr: [0xBB; 32],
        upload_gas_fee: 0x1122334455667788_99AABBCCDDEEFF00,
    }
}

#[test]
fn chain_bytes_layout() {
    let c = Chain { chain_type: 1, chain_id: 0x0102030405060708 };
    let bytes = c.combain_chain();
    assert_eq!(bytes, vec![1, 1, 2, 3, 4, 5, 6, 7, 8]);
    let back = Chain::from_bytes(&bytes);
    assert_eq!(back, c);
}

#[test]
fn header_encoding_layout() {
    let h = sample_header();
    let bytes = h.to_be_bytes();
    assert_eq!(bytes.len(), 107);
    assert_eq!(bytes[0], 7);
    // nonce, big-endian, at [1, 9)
    assert_eq!(&bytes[1..9], &[1, 2, 3, 4, 5, 6, 7, 8]);
    // from_chain at [9, 18)
    assert_eq!(&bytes[9..18], &[0, 0, 0, 0, 0, 0, 0, 0, 5]);
    // from_addr at [18, 50)
    assert_eq!(&bytes[18..50], &[0xAA; 32]);
    // to_chain at [50, 59)
    assert_eq!(&bytes[50..59], &[2, 0, 0, 0, 0, 0, 0, 0, 101]);
    // to_addr at [59, 91)
    assert_eq!(&bytes[59..91], &[0xBB; 32]);
    // upload_gas_fee, big-endian, at [91, 107)
    assert_eq!(
        &bytes[91..107],
        &[
            0x11, 0x22, 0x33, 0x44, 0x55, 0x66, 0x77, 0x88, 0x99, 0xAA, 0xBB, 0xCC, 0xDD, 0xEE,
            0xFF, 0x00
        ]
    );
}

#[test]
fn header_round_trip() {
    let h = sample_header();
    let bytes = h.to_be_bytes();
    let back = MsgHeader::from_be_bytes(&bytes).unwrap();
    assert_eq!(back, h);
}

#[test]
fn header_decode_rejects_wrong_length() {
    let h = sample_header();
    let mut bytes = h.to_be_bytes();
    bytes.push(0);
    assert_eq!(MsgHeader::from_be_bytes(&bytes), Err(ErrorCode::DeserializationError));
    assert_eq!(MsgHeader::from_be_bytes(&bytes[..106]), Err(ErrorCode::DeserializationError));
    assert_eq!(MsgHeader::from_be_bytes(&[]), Err(ErrorCode::DeserializationError));
}

#[test]
fn header_encoding_distinguishes_headers() {
    let h1 = sample_header();
    let mut h2 = sample_header();
    h2.nonce += 1;
    assert_ne!(h1.to_be_bytes(), h2.to_be_bytes());
}

#[test]
fn body_round_trip() {
    let b = MsgBody {
        source_token: [3; 32],
        all_amount: 123_456_789_000,
        from_who: [4; 32],
        to_who: [5; 32],
    };
    let buffer = b.to_evm_buffer();
    assert_eq!(buffer.len(), 112);
    // the receiver identity sits at [80, 112)
    assert_eq!(&buffer[80..112], &[5; 32]);
    let back = MsgBody::from_evm_buffer(buffer);
    assert_eq!(back, b);
}

#[test]
fn body_decode_ignores_trailing_bytes() {
    let b = MsgBody {
        source_token: [9; 32],
        all_amount: 1,
        from_who: [8; 32],
        to_who: [7; 32],
    };
    let mut buffer = b.to_evm_buffer();
    buffer.extend_from_slice(&[0xFF; 8]);
    let back = MsgBody::from_evm_buffer(buffer);
    assert_eq!(back, b);
}

#[test]
fn window_bytes_round_trip() {
    let window: Vec<u64> = vec![3, 5, 9, 1000];
    let bytes = encode_window(&window);
    // count, little-endian, then each nonce, little-endian
    assert_eq!(&bytes[0..8], &[4, 0, 0, 0, 0, 0, 0, 0]);
    assert_eq!(&bytes[8..16], &[3, 0, 0, 0, 0, 0, 0, 0]);
    assert_eq!(&bytes[32..40], &[0xE8, 0x03, 0, 0, 0, 0, 0, 0]);
    let back = decode_window(&bytes).unwrap();
    assert_eq!(back, window);
}

#[test]
fn window_bytes_round_trip_empty() {
    let window: Vec<u64> = Vec::new();
    let bytes = encode_window(&window);
    assert_eq!(bytes, vec![0; 8]);
    let back = decode_window(&bytes).unwrap();
    assert!(back.is_empty());
}

#[test]
fn window_decode_rejects_corruption() {
    // Too short for a count.
    assert_eq!(decode_window(&[1, 2, 3]), Err(ErrorCode::DeserializationError));
    // Count above capacity.
    let mut bytes = vec![51, 0, 0, 0, 0, 0, 0, 0];
    bytes.extend_from_slice(&vec![0u8; 51 * 8]);
    assert_eq!(decode_window(&bytes), Err(ErrorCode::DeserializationError));
    // Count does not match the payload length.
    let bytes = encode_window(&vec![3, 5]);
    assert_eq!(decode_window(&bytes[..bytes.len() - 1]), Err(ErrorCode::DeserializationError));
    // Entries out of order.
    let mut bytes = vec![2, 0, 0, 0, 0, 0, 0, 0];
    bytes.extend_from_slice(&[9, 0, 0, 0, 0, 0, 0, 0]);
    bytes.extend_from_slice(&[3, 0, 0, 0, 0, 0, 0, 0]);
    assert_eq!(decode_window(&bytes), Err(ErrorCode::DeserializationError));
    // Duplicate entries.
    let mut bytes = vec![2, 0, 0, 0, 0, 0, 0, 0];
    bytes.extend_from_slice(&[3, 0, 0, 0, 0, 0, 0, 0]);
    bytes.extend_from_slice(&[3, 0, 0, 0, 0, 0, 0, 0]);
    assert_eq!(decode_window(&bytes), Err(ErrorCode::DeserializationError));
}
