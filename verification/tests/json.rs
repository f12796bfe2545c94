use bencode::error::{DecodeError, ErrorKind};
use bencode::json::{decode_bencoded_value, to_json};
use bencode::value::Kind;
use serde_json::{Number, Value};

fn text(s: &str) -> Kind {
    Kind::ByteString(s.as_bytes().to_vec())
}

#[test]
fn byte_string_becomes_a_json_string() {
    assert_eq!(to_json(&text("hello")), Value::String("hello".to_string()));
    assert_eq!(to_json(&text("")), Value::String(String::new()));
    assert_eq!(to_json(&text("h\u{e9}llo")), Value::String("h\u{e9}llo".to_string()));
}

#[test]
fn bytes_that_are_no_text_become_replacement_characters() {
    let json = to_json(&Kind::ByteString(vec![b'a', 0xff, b'b']));
    assert_eq!(json, Value::String("a\u{fffd}b".to_string()));
}

#[test]
fn integer_becomes_a_json_number() {
    assert_eq!(to_json(&Kind::Integer(52)), Value::Number(Number::from(52i64)));
    assert_eq!(to_json(&Kind::Integer(-1)), Value::Number(Number::from(-1i64)));
    assert_eq!(to_json(&Kind::Integer(i64::MIN)), Value::Number(Number::from(i64::MIN)));
    assert_ne!(to_json(&Kind::Integer(52)), Value::Number(Number::from(53i64)));
}

#[test]
fn list_becomes_a_json_array() {
    let list = Kind::List(vec![text("hello"), Kind::Integer(52), Kind::List(vec![])]);
    let expected = Value::Array(vec![
        Value::String("hello".to_string()),
        Value::Number(Number::from(52i64)),
        Value::Array(vec![]),
    ]);
    assert_eq!(to_json(&list), expected);
}

#[test]
fn dictionary_becomes_a_json_object() {
    let dictionary = Kind::Dictionary(vec![
        (b"hello".to_vec(), Kind::Integer(52)),
        (b"foo".to_vec(), text("bar")),
    ]);
    let mut members = serde_json::Map::new();
    members.insert("foo".to_string(), Value::String("bar".to_string()));
    members.insert("hello".to_string(), Value::Number(Number::from(52i64)));
    assert_eq!(to_json(&dictionary), Value::Object(members));
    assert_eq!(to_json(&dictionary).to_string(), "{\"foo\":\"bar\",\"hello\":52}");
}

#[test]
fn repeated_key_counts_with_its_last_entry_in_json() {
    let dictionary = Kind::Dictionary(vec![
        (b"k".to_vec(), Kind::Integer(1)),
        (b"k".to_vec(), Kind::Integer(2)),
    ]);
    let mut members = serde_json::Map::new();
    members.insert("k".to_string(), Value::Number(Number::from(2i64)));
    assert_eq!(to_json(&dictionary), Value::Object(members));
}

#[test]
fn encoded_text_becomes_json() {
    assert_eq!(decode_bencoded_value("5:hello").unwrap(), Value::String("hello".to_string()));
    assert_eq!(decode_bencoded_value("i52e").unwrap(), Value::Number(Number::from(52i64)));
    let json = decode_bencoded_value("l5:helloi52ee").unwrap();
    assert_eq!(json.to_string(), "[\"hello\",52]");
    let json = decode_bencoded_value("d3:foo3:bar5:helloi52ee").unwrap();
    assert_eq!(json.to_string(), "{\"foo\":\"bar\",\"hello\":52}");
}

#[test]
fn encoded_text_that_is_malformed_fails() {
    let e = decode_bencoded_value("i03e").unwrap_err();
    assert_eq!(e, DecodeError { kind: ErrorKind::MalformedInteger, offset: 1 });
    let e = decode_bencoded_value("x").unwrap_err();
    assert_eq!(e, DecodeError { kind: ErrorKind::UnknownMarker, offset: 0 });
}
