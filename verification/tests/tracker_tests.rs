use torrent_core::tracker::{TrackerError, TrackerRequest, TrackerResponse, urlencode};

fn response_with_peers(peers: &[u8]) -> Vec<u8> {
    let mut v = Vec::new();
    v.extend_from_slice(b"d8:intervali1800e5:peers");
    v.extend_from_slice(peers.len().to_string().as_bytes());
    v.push(b':');
    v.extend_from_slice(peers);
    v.push(b'e');
    v
}

#[test]
fn compact_peer_decode() {
    // One 6-byte record: 4-byte IPv4 in network order, big-endian port.
    let bytes = response_with_peers(&[127, 0, 0, 1, 0x1A, 0xE1]);
    let r = TrackerResponse::parse(&bytes).expect("parse tracker response");
    assert_eq!(r.interval, 1800);
    assert_eq!(r.peers.0.len(), 1);
    assert_eq!(r.peers.0[0].ip, [127, 0, 0, 1]);
    assert_eq!(r.peers.0[0].port, 6881);
}

#[test]
fn compact_peer_decode_many() {
    let bytes = response_with_peers(&[10, 0, 0, 2, 0, 80, 192, 168, 1, 9, 0x1F, 0x90]);
    let r = TrackerResponse::parse(&bytes).expect("parse tracker response");
    assert_eq!(r.peers.0.len(), 2);
    assert_eq!(r.peers.0[0].ip, [10, 0, 0, 2]);
    assert_eq!(r.peers.0[0].port, 80);
    assert_eq!(r.peers.0[1].ip, [192, 168, 1, 9]);
    assert_eq!(r.peers.0[1].port, 8080);
}

#[test]
fn compact_peer_length_not_multiple_of_six() {
    let bytes = response_with_peers(&[127, 0, 0, 1, 0x1A, 0xE1, 9]);
    match TrackerResponse::parse(&bytes) {
        Err(TrackerError::InvalidPeersLength) => {},
        _ => panic!("expected InvalidPeersLength"),
    }
}

#[test]
fn empty_peer_list_is_valid() {
    let bytes = response_with_peers(&[]);
    let r = TrackerResponse::parse(&bytes).expect("parse tracker response");
    assert!(r.peers.0.is_empty());
}

#[test]
fn response_missing_interval() {
    let mut v = Vec::new();
    v.extend_from_slice(b"d5:peers0:e");
    match TrackerResponse::parse(&v) {
        Err(TrackerError::MalformedResponse) => {},
        _ => panic!("expected MalformedResponse"),
    }
}

#[test]
fn response_peers_of_wrong_type() {
    let v = b"d8:intervali1800e5:peersi1ee".to_vec();
    match TrackerResponse::parse(&v) {
        Err(TrackerError::MalformedResponse) => {},
        _ => panic!("expected MalformedResponse"),
    }
}

#[test]
fn response_not_bencode() {
    match TrackerResponse::parse(&b"not bencode".to_vec()) {
        Err(TrackerError::Bencode(_)) => {},
        _ => panic!("expected a bencode error"),
    }
}

#[test]
fn peers_serialize_back_to_wire_form() {
    let wire = [127, 0, 0, 1, 0x1A, 0xE1, 10, 0, 0, 7, 0, 80];
    let bytes = response_with_peers(&wire);
    let r = TrackerResponse::parse(&bytes).expect("parse tracker response");
    assert_eq!(r.peers.to_bytes(), wire.to_vec());
    let empty = TrackerResponse::parse(&response_with_peers(&[])).expect("parse");
    assert!(empty.peers.to_bytes().is_empty());
}

#[test]
fn request_fixes_compact_flag() {
    let r = TrackerRequest::new(String::from("00112233445566778899"), 6881, 0, 0, 123);
    assert_eq!(r.peer_id, "00112233445566778899");
    assert_eq!(r.port, 6881);
    assert_eq!(r.uploaded, 0);
    assert_eq!(r.downloaded, 0);
    assert_eq!(r.left, 123);
    assert_eq!(r.compact, 1);
}

#[test]
fn urlencode_every_byte_as_percent_hex() {
    let mut id = [0u8; 20];
    for (i, b) in id.iter_mut().enumerate() {
        *b = (i as u8) * 13;
    }
    let enc = urlencode(&id);
    assert_eq!(enc.len(), 60);
    let mut expected = String::new();
    for b in id.iter() {
        expected.push('%');
        expected.push_str(&format!("{:02x}", b));
    }
    assert_eq!(enc, expected.into_bytes());
}

#[test]
fn urlencode_does_not_spare_url_safe_bytes() {
    // Even ASCII that needs no escaping is escaped: raw identifier bytes
    // must not be reinterpreted as text.
    let id = [b'A'; 20];
    let enc = urlencode(&id);
    assert_eq!(&enc[..3], b"%41");
    assert_eq!(enc, b"%41".repeat(20));
}
