use torrent_core::bencode::BencodeValue;
use torrent_core::hashes::Hashes;
use torrent_core::torrent::{Info, Keys, Torrent, TorrentError};

fn single_file_torrent_bytes() -> Vec<u8> {
    let mut v = Vec::new();
    v.extend_from_slice(b"d8:announce22:http://tracker.example4:infod6:lengthi4e4:name4:test12:piece lengthi2e6:pieces20:");
    v.extend_from_slice(&[0xAA; 20]);
    v.extend_from_slice(b"ee");
    v
}

#[test]
fn parse_single_file_torrent() {
    let bytes = single_file_torrent_bytes();
    let t = Torrent::parse(&bytes).expect("parse torrent");
    assert_eq!(t.announce, b"http://tracker.example".to_vec());
    assert_eq!(t.info.name, b"test".to_vec());
    assert_eq!(t.info.plength, 2);
    assert_eq!(t.info.pieces.0.len(), 1);
    assert_eq!(t.info.pieces.0[0], [0xAA; 20]);
    match t.info.key {
        Keys::SingleFile { length } => assert_eq!(length, 4),
        _ => panic!("expected a single-file layout"),
    }
}

#[test]
fn parse_multi_file_torrent() {
    let bytes = b"d8:announce3:url4:infod5:filesld6:lengthi3e4:pathl1:a1:beed6:lengthi9e4:pathl1:ceee4:name1:n12:piece lengthi1e6:pieces0:ee".to_vec();
    let t = Torrent::parse(&bytes).expect("parse multi-file torrent");
    match &t.info.key {
        Keys::MultiFile { files } => {
            assert_eq!(files.len(), 2);
            assert_eq!(files[0].length, 3);
            assert_eq!(files[0].path, vec![b"a".to_vec(), b"b".to_vec()]);
            assert_eq!(files[1].length, 9);
            assert_eq!(files[1].path, vec![b"c".to_vec()]);
        },
        _ => panic!("expected a multi-file layout"),
    }
}

#[test]
fn parse_rejects_non_dictionary() {
    match Torrent::parse(&b"i1e".to_vec()) {
        Err(TorrentError::NotADictionary) => {},
        _ => panic!("expected NotADictionary"),
    }
}

#[test]
fn parse_rejects_missing_announce() {
    let bytes = b"d4:infod6:lengthi1e4:name0:12:piece lengthi1e6:pieces0:ee".to_vec();
    match Torrent::parse(&bytes) {
        Err(TorrentError::MalformedAnnounce) => {},
        _ => panic!("expected MalformedAnnounce"),
    }
}

#[test]
fn parse_rejects_both_length_and_files() {
    let bytes = b"d8:announce1:u4:infod5:filesle6:lengthi1e4:name0:12:piece lengthi1e6:pieces0:ee".to_vec();
    match Torrent::parse(&bytes) {
        Err(TorrentError::StructuralError) => {},
        _ => panic!("expected StructuralError"),
    }
}

#[test]
fn parse_rejects_neither_length_nor_files() {
    let bytes = b"d8:announce1:u4:infod4:name0:12:piece lengthi1e6:pieces0:ee".to_vec();
    match Torrent::parse(&bytes) {
        Err(TorrentError::StructuralError) => {},
        _ => panic!("expected StructuralError"),
    }
}

#[test]
fn parse_rejects_misaligned_pieces() {
    let bytes = b"d8:announce1:u4:infod6:lengthi1e4:name0:12:piece lengthi1e6:pieces3:abcee".to_vec();
    match Torrent::parse(&bytes) {
        Err(TorrentError::InvalidPiecesLength) => {},
        _ => panic!("expected InvalidPiecesLength"),
    }
}

#[test]
fn parse_rejects_malformed_bencode() {
    match Torrent::parse(&b"d8:announce".to_vec()) {
        Err(TorrentError::Bencode(_)) => {},
        _ => panic!("expected a bencode error"),
    }
}

fn empty_info() -> Info {
    Info {
        name: Vec::new(),
        plength: 1,
        pieces: Hashes(Vec::new()),
        key: Keys::SingleFile { length: 0 },
    }
}

#[test]
fn info_hash_known_vector() {
    // The canonical bencode of {length: 0, name: "", piece length: 1,
    // pieces: ""} is d6:lengthi0e4:name0:12:piece lengthi1e6:pieces0:e and
    // its SHA-1 digest is this fixed 20-byte value.
    let dict = BencodeValue::Dictionary(vec![
        (b"pieces".to_vec(), BencodeValue::ByteString(Vec::new())),
        (b"name".to_vec(), BencodeValue::ByteString(Vec::new())),
        (b"length".to_vec(), BencodeValue::Integer(0)),
        (b"piece length".to_vec(), BencodeValue::Integer(1)),
    ]);
    assert_eq!(dict.encode(), b"d6:lengthi0e4:name0:12:piece lengthi1e6:pieces0:e".to_vec());

    let t = Torrent { announce: b"x".to_vec(), info: empty_info() };
    let expected: [u8; 20] = [
        182, 141, 54, 249, 104, 75, 101, 205, 99, 10, 117, 18, 91, 221, 1, 255, 254, 98, 46, 243,
    ];
    assert_eq!(t.info_hash(), expected);
}

#[test]
fn info_hash_is_deterministic() {
    let bytes = single_file_torrent_bytes();
    let t = Torrent::parse(&bytes).expect("parse torrent");
    assert_eq!(t.info_hash(), t.info_hash());
}

#[test]
fn info_hash_changes_with_any_field() {
    let base = Torrent::parse(&single_file_torrent_bytes()).expect("parse").info_hash();

    let mut changed_pieces = single_file_torrent_bytes();
    let n = changed_pieces.len();
    changed_pieces[n - 3] = 0xAB;
    let t = Torrent::parse(&changed_pieces).expect("parse");
    assert_ne!(t.info_hash(), base);

    let mut t2 = Torrent::parse(&single_file_torrent_bytes()).expect("parse");
    t2.info.name = b"tesu".to_vec();
    assert_ne!(t2.info_hash(), base);

    let mut t3 = Torrent::parse(&single_file_torrent_bytes()).expect("parse");
    t3.info.plength = 3;
    assert_ne!(t3.info_hash(), base);

    let mut t4 = Torrent::parse(&single_file_torrent_bytes()).expect("parse");
    t4.info.key = Keys::SingleFile { length: 5 };
    assert_ne!(t4.info_hash(), base);
}

#[test]
fn info_hash_of_parsed_known_torrent() {
    let mut v = Vec::new();
    v.extend_from_slice(b"d8:announce1:u4:infod6:lengthi4e4:name4:test12:piece lengthi2e6:pieces20:");
    v.extend_from_slice(&[b'a'; 20]);
    v.extend_from_slice(b"ee");
    let t = Torrent::parse(&v).expect("parse torrent");
    // SHA-1 of d6:lengthi4e4:name4:test12:piece lengthi2e6:pieces20:aaaaaaaaaaaaaaaaaaaae
    let expected: [u8; 20] = [
        93, 105, 95, 7, 7, 122, 68, 62, 132, 63, 73, 199, 124, 237, 181, 154, 4, 229, 114, 77,
    ];
    assert_eq!(t.info_hash(), expected);
}
