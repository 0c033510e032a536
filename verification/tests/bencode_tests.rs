use torrent_core::bencode::{BencodeError, BencodeValue};

fn decode_ok(input: &[u8]) -> (BencodeValue, usize) {
    let v: Vec<u8> = input.to_vec();
    BencodeValue::decode(&v).expect("decode should succeed")
}

fn decode_err(input: &[u8]) -> BencodeError {
    let v: Vec<u8> = input.to_vec();
    BencodeValue::decode(&v).expect_err("decode should fail")
}

#[test]
fn decode_integer() {
    let (v, used) = decode_ok(b"i42e");
    assert!(matches!(v, BencodeValue::Integer(42)));
    assert_eq!(used, 4);
}

#[test]
fn decode_negative_integer() {
    let (v, _) = decode_ok(b"i-7e");
    assert!(matches!(v, BencodeValue::Integer(-7)));
}

#[test]
fn decode_zero() {
    let (v, _) = decode_ok(b"i0e");
    assert!(matches!(v, BencodeValue::Integer(0)));
}

#[test]
fn decode_integer_extremes() {
    let (v, _) = decode_ok(b"i9223372036854775807e");
    assert!(matches!(v, BencodeValue::Integer(i64::MAX)));
    let (v, _) = decode_ok(b"i-9223372036854775808e");
    assert!(matches!(v, BencodeValue::Integer(i64::MIN)));
}

#[test]
fn decode_integer_overflow_rejected() {
    assert_eq!(decode_err(b"i9223372036854775808e"), BencodeError::MalformedInteger);
    assert_eq!(decode_err(b"i-9223372036854775809e"), BencodeError::MalformedInteger);
}

#[test]
fn decode_integer_grammar_violations() {
    assert_eq!(decode_err(b"ie"), BencodeError::MalformedInteger);
    assert_eq!(decode_err(b"i-e"), BencodeError::MalformedInteger);
    assert_eq!(decode_err(b"i-0e"), BencodeError::MalformedInteger);
    assert_eq!(decode_err(b"i01e"), BencodeError::MalformedInteger);
    assert_eq!(decode_err(b"i1x2e"), BencodeError::MalformedInteger);
    assert_eq!(decode_err(b"i12"), BencodeError::TruncatedInput);
}

#[test]
fn decode_byte_string() {
    let (v, used) = decode_ok(b"5:hello");
    match v {
        BencodeValue::ByteString(s) => assert_eq!(s, b"hello".to_vec()),
        _ => panic!("expected a byte string"),
    }
    assert_eq!(used, 7);
}

#[test]
fn decode_byte_string_with_remainder() {
    let (v, used) = decode_ok(b"2:okxyz");
    match v {
        BencodeValue::ByteString(s) => assert_eq!(s, b"ok".to_vec()),
        _ => panic!("expected a byte string"),
    }
    assert_eq!(used, 4);
}

#[test]
fn decode_empty_string() {
    let (v, used) = decode_ok(b"0:");
    match v {
        BencodeValue::ByteString(s) => assert!(s.is_empty()),
        _ => panic!("expected a byte string"),
    }
    assert_eq!(used, 2);
}

#[test]
fn decode_string_truncated() {
    assert_eq!(decode_err(b"5:abc"), BencodeError::TruncatedInput);
    assert_eq!(decode_err(b"5"), BencodeError::TruncatedInput);
    assert_eq!(decode_err(b""), BencodeError::TruncatedInput);
}

#[test]
fn decode_string_length_with_leading_zero_rejected() {
    assert_eq!(decode_err(b"05:hello"), BencodeError::MalformedInteger);
}

#[test]
fn decode_huge_claimed_length_fails_without_allocation() {
    assert_eq!(decode_err(b"99999999999999999999999:x"), BencodeError::TruncatedInput);
}

#[test]
fn decode_list() {
    let (v, used) = decode_ok(b"li1ei2ee");
    match v {
        BencodeValue::List(items) => {
            assert_eq!(items.len(), 2);
            assert!(matches!(items[0], BencodeValue::Integer(1)));
            assert!(matches!(items[1], BencodeValue::Integer(2)));
        },
        _ => panic!("expected a list"),
    }
    assert_eq!(used, 8);
}

#[test]
fn decode_unterminated_list() {
    assert_eq!(decode_err(b"li1e"), BencodeError::UnterminatedList);
    assert_eq!(decode_err(b"l"), BencodeError::UnterminatedList);
}

#[test]
fn decode_dictionary() {
    let (v, _) = decode_ok(b"d1:ai1e1:b2:hie");
    match v {
        BencodeValue::Dictionary(entries) => {
            assert_eq!(entries.len(), 2);
            assert_eq!(entries[0].0, b"a".to_vec());
            assert!(matches!(entries[0].1, BencodeValue::Integer(1)));
            assert_eq!(entries[1].0, b"b".to_vec());
        },
        _ => panic!("expected a dictionary"),
    }
}

#[test]
fn decode_unterminated_dict() {
    assert_eq!(decode_err(b"d1:ai1e"), BencodeError::UnterminatedDict);
    assert_eq!(decode_err(b"d"), BencodeError::UnterminatedDict);
}

#[test]
fn decode_non_string_dict_key() {
    assert_eq!(decode_err(b"di1ei2ee"), BencodeError::InvalidDictKey);
}

#[test]
fn decode_unexpected_byte() {
    assert_eq!(decode_err(b"x"), BencodeError::UnexpectedByte);
    assert_eq!(decode_err(b"3x"), BencodeError::UnexpectedByte);
}

#[test]
fn encode_integer() {
    let v = BencodeValue::Integer(-42);
    assert_eq!(v.encode(), b"i-42e".to_vec());
    assert_eq!(BencodeValue::Integer(0).encode(), b"i0e".to_vec());
    assert_eq!(BencodeValue::Integer(i64::MIN).encode(), b"i-9223372036854775808e".to_vec());
}

#[test]
fn encode_byte_string() {
    let v = BencodeValue::ByteString(b"spam".to_vec());
    assert_eq!(v.encode(), b"4:spam".to_vec());
    assert_eq!(BencodeValue::ByteString(Vec::new()).encode(), b"0:".to_vec());
}

#[test]
fn encode_list() {
    let v = BencodeValue::List(vec![
        BencodeValue::Integer(1),
        BencodeValue::ByteString(b"ab".to_vec()),
    ]);
    assert_eq!(v.encode(), b"li1e2:abe".to_vec());
}

#[test]
fn encode_sorts_dictionary_keys() {
    // Entries inserted out of order are emitted in ascending raw-byte order.
    let v = BencodeValue::Dictionary(vec![
        (b"zz".to_vec(), BencodeValue::Integer(3)),
        (b"a".to_vec(), BencodeValue::Integer(1)),
        (b"m".to_vec(), BencodeValue::Integer(2)),
    ]);
    assert_eq!(v.encode(), b"d1:ai1e1:mi2e2:zzi3ee".to_vec());
}

#[test]
fn encode_insertion_order_is_irrelevant() {
    let a = BencodeValue::Dictionary(vec![
        (b"x".to_vec(), BencodeValue::Integer(1)),
        (b"y".to_vec(), BencodeValue::Integer(2)),
        (b"z".to_vec(), BencodeValue::Integer(3)),
    ]);
    let b = BencodeValue::Dictionary(vec![
        (b"z".to_vec(), BencodeValue::Integer(3)),
        (b"x".to_vec(), BencodeValue::Integer(1)),
        (b"y".to_vec(), BencodeValue::Integer(2)),
    ]);
    assert_eq!(a.encode(), b.encode());
}

#[test]
fn round_trip_nested_value() {
    // decode(encode(v)) == v for a canonical value, observed through the
    // byte-identical re-encoding of the decoded value.
    let v = BencodeValue::Dictionary(vec![
        (b"a".to_vec(), BencodeValue::List(vec![
            BencodeValue::Integer(-5),
            BencodeValue::ByteString(b"deep".to_vec()),
        ])),
        (b"b".to_vec(), BencodeValue::Dictionary(vec![
            (b"k".to_vec(), BencodeValue::Integer(7)),
        ])),
    ]);
    let enc = v.encode();
    let (decoded, used) = BencodeValue::decode(&enc).expect("round trip decode");
    assert_eq!(used, enc.len());
    assert_eq!(decoded.encode(), enc);
}

#[test]
fn round_trip_leaves_trailing_input() {
    let mut enc = BencodeValue::Integer(314).encode();
    enc.extend_from_slice(b"rest");
    let (v, used) = BencodeValue::decode(&enc).expect("decode with remainder");
    assert!(matches!(v, BencodeValue::Integer(314)));
    assert_eq!(used, 5);
    assert_eq!(&enc[used..], b"rest");
}
