use torrent_core::handshake::{HandShake, HandshakeError};
use torrent_core::hashes::{FixedRecordError, Hashes};

#[test]
fn handshake_layout_is_68_bytes() {
    let hs = HandShake::new([7u8; 20], [9u8; 20]);
    let bytes = hs.to_bytes();
    assert_eq!(bytes.len(), 68);
    assert_eq!(bytes[0], 19);
    assert_eq!(&bytes[1..20], b"BitTorrent protocol");
    assert_eq!(&bytes[20..28], &[0u8; 8]);
    assert_eq!(&bytes[28..48], &[7u8; 20]);
    assert_eq!(&bytes[48..68], &[9u8; 20]);
}

#[test]
fn valid_reply_returns_peer_id_unchanged() {
    let info_hash = [3u8; 20];
    let mut remote_id = [0u8; 20];
    for (i, b) in remote_id.iter_mut().enumerate() {
        *b = i as u8;
    }
    let reply = HandShake::new(info_hash, remote_id).to_bytes();
    let pid = HandShake::validate_reply(&reply, &info_hash).expect("valid reply");
    assert_eq!(pid, remote_id);
}

#[test]
fn any_altered_identifier_byte_is_a_mismatch() {
    let info_hash = [3u8; 20];
    let good = HandShake::new(info_hash, [1u8; 20]).to_bytes();
    for i in 28..48 {
        let mut reply = good.clone();
        reply[i] ^= 0x01;
        match HandShake::validate_reply(&reply, &info_hash) {
            Err(HandshakeError::IdentifierMismatch) => {},
            _ => panic!("expected IdentifierMismatch for altered byte {}", i),
        }
    }
}

#[test]
fn short_reply_is_truncated() {
    let info_hash = [3u8; 20];
    let mut reply = HandShake::new(info_hash, [1u8; 20]).to_bytes();
    reply.pop();
    assert_eq!(reply.len(), 67);
    match HandShake::validate_reply(&reply, &info_hash) {
        Err(HandshakeError::Truncated) => {},
        _ => panic!("expected Truncated"),
    }
}

#[test]
fn wrong_length_prefix_is_protocol_mismatch() {
    let info_hash = [3u8; 20];
    let mut reply = HandShake::new(info_hash, [1u8; 20]).to_bytes();
    reply[0] = 18;
    match HandShake::validate_reply(&reply, &info_hash) {
        Err(HandshakeError::ProtocolMismatch) => {},
        _ => panic!("expected ProtocolMismatch"),
    }
}

#[test]
fn wrong_protocol_name_is_protocol_mismatch() {
    let info_hash = [3u8; 20];
    let mut reply = HandShake::new(info_hash, [1u8; 20]).to_bytes();
    reply[5] = b'x';
    match HandShake::validate_reply(&reply, &info_hash) {
        Err(HandshakeError::ProtocolMismatch) => {},
        _ => panic!("expected ProtocolMismatch"),
    }
}

#[test]
fn fixed_record_decode_rejects_misaligned_buffer() {
    // Record width 20: a 21-byte buffer is an error, never truncated.
    let buf = vec![0u8; 21];
    match Hashes::from_bytes(&buf) {
        Err(FixedRecordError::InvalidLength) => {},
        _ => panic!("expected InvalidLength"),
    }
}

#[test]
fn fixed_record_decode_of_empty_buffer_is_empty() {
    let h = Hashes::from_bytes(&Vec::new()).expect("empty buffer");
    assert!(h.0.is_empty());
}

#[test]
fn fixed_record_round_trip() {
    let mut buf = Vec::new();
    buf.extend_from_slice(&[1u8; 20]);
    buf.extend_from_slice(&[2u8; 20]);
    let h = Hashes::from_bytes(&buf).expect("aligned buffer");
    assert_eq!(h.0.len(), 2);
    assert_eq!(h.0[0], [1u8; 20]);
    assert_eq!(h.0[1], [2u8; 20]);
    assert_eq!(h.to_bytes(), buf);
}
