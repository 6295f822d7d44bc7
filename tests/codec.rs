use bittorrent_core::bencode::{
    bytes_equal, bytes_less, decode, decode_bencoded_value, dict_insert, encode,
    find_e_for_index, DecodeError, Value,
};
use std::collections::HashMap;

fn bytes(s: &str) -> Value {
    Value::Bytes(s.as_bytes().to_vec())
}

#[test]
fn decode_string() {
    assert_eq!(decode(b"5:hello"), Ok(bytes("hello")));
}

#[test]
fn decode_integer() {
    assert_eq!(decode(b"i42e"), Ok(Value::Integer(42)));
    assert_eq!(decode(b"i-42e"), Ok(Value::Integer(-42)));
    assert_eq!(decode(b"i0e"), Ok(Value::Integer(0)));
}

#[test]
fn decode_integer_limits() {
    assert_eq!(decode(b"i9223372036854775807e"), Ok(Value::Integer(i64::MAX)));
    assert_eq!(decode(b"i-9223372036854775808e"), Ok(Value::Integer(i64::MIN)));
    assert_eq!(decode(b"i9223372036854775808e"), Err(DecodeError::InvalidInteger));
}

#[test]
fn decode_list() {
    assert_eq!(
        decode(b"l4:spami7ee"),
        Ok(Value::List(vec![bytes("spam"), Value::Integer(7)]))
    );
}

#[test]
fn decode_dict() {
    let expected = Value::Dict(vec![
        (b"cow".to_vec(), bytes("moo")),
        (b"spam".to_vec(), Value::List(vec![bytes("a"), bytes("b")])),
    ]);
    assert_eq!(decode(b"d3:cow3:moo4:spaml1:a1:bee"), Ok(expected));
}

#[test]
fn decode_at_index_reports_end() {
    assert_eq!(
        decode_bencoded_value(b"i1e4:spam", 3),
        Ok((bytes("spam"), 9))
    );
}

#[test]
fn decode_errors() {
    assert_eq!(decode(b""), Err(DecodeError::UnexpectedEnd));
    assert_eq!(decode(b"i-0e"), Err(DecodeError::InvalidInteger));
    assert_eq!(decode(b"i03e"), Err(DecodeError::InvalidInteger));
    assert_eq!(decode(b"ie"), Err(DecodeError::InvalidInteger));
    assert_eq!(decode(b"5:hi"), Err(DecodeError::UnexpectedEnd));
    assert_eq!(decode(b"03:abc"), Err(DecodeError::InvalidLength));
    assert_eq!(decode(b"x"), Err(DecodeError::UnexpectedByte(0)));
    assert_eq!(decode(b"i1ei2e"), Err(DecodeError::UnexpectedByte(3)));
    assert_eq!(decode(b"l1:a"), Err(DecodeError::UnexpectedEnd));
    assert_eq!(decode(b"di1ei2ee"), Err(DecodeError::UnexpectedByte(1)));
}

#[test]
fn decode_rejects_unsorted_keys() {
    assert_eq!(decode(b"d1:bi1e1:ai2ee"), Err(DecodeError::DictKeyOutOfOrder));
    assert_eq!(decode(b"d1:ai1e1:ai2ee"), Err(DecodeError::DictKeyOutOfOrder));
}

#[test]
fn encode_sorts_keys() {
    let mut entries = Vec::new();
    dict_insert(&mut entries, b"b".to_vec(), Value::Integer(1));
    dict_insert(&mut entries, b"a".to_vec(), Value::Integer(2));
    assert_eq!(encode(&Value::Dict(entries)), b"d1:ai2e1:bi1ee".to_vec());
}

#[test]
fn dict_insert_replaces_equal_key() {
    let mut entries = Vec::new();
    assert_eq!(dict_insert(&mut entries, b"k".to_vec(), Value::Integer(1)), 0);
    assert_eq!(dict_insert(&mut entries, b"k".to_vec(), Value::Integer(2)), 0);
    assert_eq!(entries.len(), 1);
    assert_eq!(encode(&Value::Dict(entries)), b"d1:ki2ee".to_vec());
}

#[test]
fn encode_then_decode_gives_value_back() {
    let mut inner = Vec::new();
    dict_insert(&mut inner, b"pieces".to_vec(), Value::Bytes(vec![0, 255, 101, 58]));
    dict_insert(&mut inner, b"length".to_vec(), Value::Integer(-17));
    let v = Value::List(vec![
        Value::Dict(inner),
        Value::Integer(i64::MIN),
        Value::Bytes(Vec::new()),
        Value::List(Vec::new()),
    ]);
    let text = encode(&v);
    assert_eq!(decode(&text), Ok(v));
}

#[test]
fn encode_matches_serde_bencode() {
    let mut map = HashMap::new();
    map.insert(b"zeta".to_vec(), serde_bencode::value::Value::Int(-3));
    map.insert(
        b"alpha".to_vec(),
        serde_bencode::value::Value::List(vec![serde_bencode::value::Value::Bytes(b"x".to_vec())]),
    );
    let theirs = serde_bencode::to_bytes(&serde_bencode::value::Value::Dict(map)).unwrap();
    let mut entries = Vec::new();
    dict_insert(&mut entries, b"zeta".to_vec(), Value::Integer(-3));
    dict_insert(&mut entries, b"alpha".to_vec(), Value::List(vec![bytes("x")]));
    assert_eq!(encode(&Value::Dict(entries)), theirs);
}

#[test]
fn find_closing_e() {
    assert_eq!(find_e_for_index("i42e", 0), 3);
    assert_eq!(find_e_for_index("li1eli2eee", 0), 9);
    assert_eq!(find_e_for_index("l5:\u{e9}tudei1ee", 0), 12);
    assert_eq!(find_e_for_index("li1e", 0), 0);
}

#[test]
fn byte_order_and_equality() {
    assert!(bytes_less(b"piece length", b"pieces"));
    assert!(!bytes_less(b"pieces", b"piece length"));
    assert!(bytes_less(b"ab", b"abc"));
    assert!(!bytes_less(b"ab", b"ab"));
    assert!(bytes_equal(b"ab", b"ab"));
    assert!(!bytes_equal(b"ab", b"abc"));
}

#[test]
fn insertion_order_does_not_change_encoding() {
    let keys: [&[u8]; 3] = [b"name", b"length", b"piece length"];
    let orders = [[0, 1, 2], [0, 2, 1], [1, 0, 2], [1, 2, 0], [2, 0, 1], [2, 1, 0]];
    let mut texts = Vec::new();
    for order in orders {
        let mut entries = Vec::new();
        for k in order {
            dict_insert(&mut entries, keys[k].to_vec(), Value::Integer(k as i64));
        }
        texts.push(encode(&Value::Dict(entries)));
    }
    for t in &texts {
        assert_eq!(t, &b"d6:lengthi1e4:namei0e12:piece lengthi2ee".to_vec());
    }
}
