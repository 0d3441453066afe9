use bittorrent::bencode::{decode_bencoded_value, encode, BencodeValue, DecodeError};

fn bytes(s: &str) -> BencodeValue {
    BencodeValue::Bytes(s.as_bytes().to_vec())
}

#[test]
fn decodes_integer() {
    assert_eq!(decode_bencoded_value(b"i52e"), Ok((BencodeValue::Integer(52), 4)));
    assert_eq!(decode_bencoded_value(b"i-42e"), Ok((BencodeValue::Integer(-42), 5)));
    assert_eq!(decode_bencoded_value(b"i+7e"), Ok((BencodeValue::Integer(7), 4)));
    assert_eq!(
        decode_bencoded_value(b"i-9223372036854775808e"),
        Ok((BencodeValue::Integer(i64::MIN), 22))
    );
}

#[test]
fn decodes_byte_string_and_leaves_the_rest() {
    assert_eq!(decode_bencoded_value(b"5:helloi1e"), Ok((bytes("hello"), 7)));
    assert_eq!(decode_bencoded_value(b"0:"), Ok((bytes(""), 2)));
}

#[test]
fn decodes_list_and_dict() {
    let list = BencodeValue::List(vec![bytes("hello"), BencodeValue::Integer(52)]);
    assert_eq!(decode_bencoded_value(b"l5:helloi52ee"), Ok((list, 13)));
    let dict = BencodeValue::Dict(vec![
        (b"foo".to_vec(), bytes("bar")),
        (b"hello".to_vec(), BencodeValue::Integer(52)),
    ]);
    assert_eq!(decode_bencoded_value(b"d3:foo3:bar5:helloi52ee"), Ok((dict, 23)));
}

#[test]
fn duplicate_key_keeps_position_and_takes_last_value() {
    let dict = BencodeValue::Dict(vec![
        (b"a".to_vec(), BencodeValue::Integer(3)),
        (b"b".to_vec(), BencodeValue::Integer(2)),
    ]);
    assert_eq!(decode_bencoded_value(b"d1:ai1e1:bi2e1:ai3ee"), Ok((dict, 20)));
}

#[test]
fn decode_errors() {
    assert_eq!(decode_bencoded_value(b""), Err(DecodeError::Malformed));
    assert_eq!(decode_bencoded_value(b"x"), Err(DecodeError::Malformed));
    assert_eq!(decode_bencoded_value(b"i12"), Err(DecodeError::Malformed));
    assert_eq!(decode_bencoded_value(b"ie"), Err(DecodeError::Malformed));
    assert_eq!(decode_bencoded_value(b"i1x2e"), Err(DecodeError::Malformed));
    assert_eq!(decode_bencoded_value(b"i9223372036854775808e"), Err(DecodeError::Malformed));
    assert_eq!(decode_bencoded_value(b"5:hi"), Err(DecodeError::Malformed));
    assert_eq!(decode_bencoded_value(b"5hello"), Err(DecodeError::Malformed));
    assert_eq!(decode_bencoded_value(b"li1e"), Err(DecodeError::Malformed));
    assert_eq!(decode_bencoded_value(b"d1:a"), Err(DecodeError::Malformed));
    assert_eq!(decode_bencoded_value(b"di1ei2ee"), Err(DecodeError::KeyNotString));
    assert_eq!(decode_bencoded_value(b"d1:\xffi1ee"), Err(DecodeError::Malformed));
    assert_eq!(decode_bencoded_value(b"d1:ai1e"), Err(DecodeError::Malformed));
}

#[test]
fn encodes_canonically() {
    assert_eq!(encode(&BencodeValue::Integer(-42)), b"i-42e".to_vec());
    assert_eq!(encode(&BencodeValue::Integer(0)), b"i0e".to_vec());
    assert_eq!(encode(&bytes("spam")), b"4:spam".to_vec());
    let v = BencodeValue::Dict(vec![(
        b"list".to_vec(),
        BencodeValue::List(vec![BencodeValue::Integer(1), bytes("")]),
    )]);
    assert_eq!(encode(&v), b"d4:listli1e0:ee".to_vec());
}

#[test]
fn round_trip_nested_value() {
    let v = BencodeValue::Dict(vec![
        (b"announce".to_vec(), bytes("http://tracker/announce")),
        (
            b"info".to_vec(),
            BencodeValue::Dict(vec![
                (b"length".to_vec(), BencodeValue::Integer(i64::MAX)),
                (b"nums".to_vec(), BencodeValue::List(vec![BencodeValue::Integer(i64::MIN), BencodeValue::List(vec![])])),
            ]),
        ),
    ]);
    let mut wire = encode(&v);
    let n = wire.len();
    wire.extend_from_slice(b"trailing");
    assert_eq!(decode_bencoded_value(&wire), Ok((v, n)));
}
