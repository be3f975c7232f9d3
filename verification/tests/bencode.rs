use bittorrent::bencode::{decode, encode, BencodeValue};

fn bytes(s: &str) -> Vec<u8> {
    s.as_bytes().to_vec()
}

#[test]
fn decode_byte_string() {
    let input = bytes("4:spam");
    let (value, end) = decode(&input, 0).unwrap();
    assert_eq!(value, BencodeValue::ByteString(bytes("spam")));
    assert_eq!(end, input.len());
}

#[test]
fn decode_negative_integer() {
    let input = bytes("i-42e");
    let (value, end) = decode(&input, 0).unwrap();
    assert_eq!(value, BencodeValue::Integer(-42));
    assert_eq!(end, input.len());
}

#[test]
fn decode_list() {
    let input = bytes("l4:spam4:eggse");
    let (value, end) = decode(&input, 0).unwrap();
    assert_eq!(
        value,
        BencodeValue::List(vec![
            BencodeValue::ByteString(bytes("spam")),
            BencodeValue::ByteString(bytes("eggs")),
        ])
    );
    assert_eq!(end, input.len());
}

#[test]
fn decode_dictionary() {
    let input = bytes("d3:cow3:moo4:spam4:eggse");
    let (value, end) = decode(&input, 0).unwrap();
    assert_eq!(
        value,
        BencodeValue::Dictionary(vec![
            (bytes("cow"), BencodeValue::ByteString(bytes("moo"))),
            (bytes("spam"), BencodeValue::ByteString(bytes("eggs"))),
        ])
    );
    assert_eq!(end, input.len());
}

#[test]
fn decode_leaves_remainder() {
    let input = bytes("4:spamrest");
    let (value, end) = decode(&input, 0).unwrap();
    assert_eq!(value, BencodeValue::ByteString(bytes("spam")));
    assert_eq!(end, 6);
    assert_eq!(&input[end..], b"rest");
}

#[test]
fn decode_rejects_unknown_leading_byte() {
    assert!(decode(&bytes("x"), 0).is_err());
}

#[test]
fn decode_rejects_empty_input() {
    assert!(decode(&bytes(""), 0).is_err());
}

#[test]
fn decode_rejects_truncated_string() {
    assert!(decode(&bytes("4:spa"), 0).is_err());
}

#[test]
fn decode_rejects_unterminated_list() {
    assert!(decode(&bytes("l4:spam"), 0).is_err());
}

#[test]
fn decode_rejects_unterminated_integer() {
    assert!(decode(&bytes("i42"), 0).is_err());
}

#[test]
fn decode_rejects_integer_key_in_dictionary() {
    assert!(decode(&bytes("di1e3:mooe"), 0).is_err());
}

#[test]
fn encode_byte_string() {
    let v = BencodeValue::ByteString(bytes("spam"));
    assert_eq!(encode(&v), bytes("4:spam"));
}

#[test]
fn encode_integers() {
    assert_eq!(encode(&BencodeValue::Integer(-42)), bytes("i-42e"));
    assert_eq!(encode(&BencodeValue::Integer(0)), bytes("i0e"));
    assert_eq!(encode(&BencodeValue::Integer(i64::MIN)), bytes("i-9223372036854775808e"));
    assert_eq!(encode(&BencodeValue::Integer(i64::MAX)), bytes("i9223372036854775807e"));
}

#[test]
fn encode_dictionary_keeps_entry_order() {
    let v = BencodeValue::Dictionary(vec![
        (bytes("cow"), BencodeValue::ByteString(bytes("moo"))),
        (bytes("spam"), BencodeValue::Integer(7)),
    ]);
    assert_eq!(encode(&v), bytes("d3:cow3:moo4:spami7ee"));
}

#[test]
fn encode_empty_containers() {
    assert_eq!(encode(&BencodeValue::List(vec![])), bytes("le"));
    assert_eq!(encode(&BencodeValue::Dictionary(vec![])), bytes("de"));
    assert_eq!(encode(&BencodeValue::ByteString(vec![])), bytes("0:"));
}

#[test]
fn round_trip_nested_tree() {
    let v = BencodeValue::Dictionary(vec![
        (
            bytes("a"),
            BencodeValue::List(vec![
                BencodeValue::Integer(-7),
                BencodeValue::ByteString(bytes("xy")),
                BencodeValue::List(vec![]),
            ]),
        ),
        (bytes("b"), BencodeValue::Integer(0)),
        (
            bytes("c"),
            BencodeValue::Dictionary(vec![(bytes("k"), BencodeValue::ByteString(vec![0, 255, 1]))]),
        ),
    ]);
    let encoded = encode(&v);
    let (decoded, end) = decode(&encoded, 0).unwrap();
    assert_eq!(decoded, v);
    assert_eq!(end, encoded.len());
}

#[test]
fn round_trip_extreme_integers() {
    for i in [i64::MIN, -1, 0, 1, i64::MAX] {
        let v = BencodeValue::Integer(i);
        let encoded = encode(&v);
        let (decoded, end) = decode(&encoded, 0).unwrap();
        assert_eq!(decoded, v);
        assert_eq!(end, encoded.len());
    }
}

#[test]
fn decode_from_offset() {
    let input = bytes("XXi5e");
    let (value, end) = decode(&input, 2).unwrap();
    assert_eq!(value, BencodeValue::Integer(5));
    assert_eq!(end, 5);
}
