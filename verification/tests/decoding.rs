use bencode::decode::{decode, decode_at, decode_with, Data, Options, DEFAULT_MAX_DEPTH};
use bencode::error::{DecodeError, ErrorKind};
use bencode::value::Kind;

fn text(s: &str) -> Kind {
    Kind::ByteString(s.as_bytes().to_vec())
}

fn fails(input: &[u8], kind: ErrorKind, offset: usize) {
    match decode(input) {
        Ok(data) => panic!("decoded {:?}", data),
        Err(e) => assert_eq!(e, DecodeError { kind, offset }),
    }
}

#[test]
fn byte_string_with_its_length() {
    let data = decode(b"5:hello").unwrap();
    assert_eq!(data.value, text("hello"));
    assert_eq!(data.consumed, 7);
}

#[test]
fn empty_byte_string() {
    let data = decode(b"0:").unwrap();
    assert_eq!(data.value, text(""));
    assert_eq!(data.consumed, 2);
}

#[test]
fn byte_string_need_not_be_text() {
    let data = decode(&[b'3', b':', 0xff, 0x00, 0x80]).unwrap();
    assert_eq!(data.value, Kind::ByteString(vec![0xff, 0x00, 0x80]));
    assert_eq!(data.consumed, 5);
}

#[test]
fn positive_and_negative_integers() {
    let data = decode(b"i52e").unwrap();
    assert_eq!(data.value, Kind::Integer(52));
    assert_eq!(data.consumed, 4);
    let data = decode(b"i-1e").unwrap();
    assert_eq!(data.value, Kind::Integer(-1));
    assert_eq!(data.consumed, 4);
    let data = decode(b"i0e").unwrap();
    assert_eq!(data.value, Kind::Integer(0));
    assert_eq!(data.consumed, 3);
}

#[test]
fn integers_at_the_ends_of_the_range() {
    let data = decode(b"i9223372036854775807e").unwrap();
    assert_eq!(data.value, Kind::Integer(i64::MAX));
    let data = decode(b"i-9223372036854775808e").unwrap();
    assert_eq!(data.value, Kind::Integer(i64::MIN));
    fails(b"i9223372036854775808e", ErrorKind::MalformedInteger, 1);
    fails(b"i-9223372036854775809e", ErrorKind::MalformedInteger, 1);
    fails(b"i99999999999999999999999999999999e", ErrorKind::MalformedInteger, 1);
}

#[test]
fn malformed_integers() {
    fails(b"i03e", ErrorKind::MalformedInteger, 1);
    fails(b"i-0e", ErrorKind::MalformedInteger, 1);
    fails(b"i-e", ErrorKind::MalformedInteger, 2);
    fails(b"ie", ErrorKind::MalformedInteger, 1);
    fails(b"i+5e", ErrorKind::MalformedInteger, 1);
    fails(b"i12x", ErrorKind::MalformedInteger, 3);
    fails(b"i-03e", ErrorKind::MalformedInteger, 1);
    fails(b"i--1e", ErrorKind::MalformedInteger, 2);
}

#[test]
fn truncated_integers() {
    fails(b"i", ErrorKind::TruncatedInput, 1);
    fails(b"i-", ErrorKind::TruncatedInput, 2);
    fails(b"i12", ErrorKind::TruncatedInput, 3);
}

#[test]
fn list_of_two_byte_strings() {
    let data = decode(b"l5:hello5:worlde").unwrap();
    assert_eq!(data.value, Kind::List(vec![text("hello"), text("world")]));
    assert_eq!(data.consumed, 16);
}

#[test]
fn dictionary_with_sorted_keys() {
    let data = decode(b"d3:foo3:bar5:helloi52ee").unwrap();
    let expected = Kind::Dictionary(vec![
        (b"foo".to_vec(), text("bar")),
        (b"hello".to_vec(), Kind::Integer(52)),
    ]);
    assert_eq!(data.value, expected);
    assert_eq!(data.consumed, 23);
}

#[test]
fn dictionary_with_keys_out_of_order_fails_in_strict_mode() {
    fails(b"d5:hello3:foo3:bari52ee", ErrorKind::KeyOrderViolation, 13);
}

#[test]
fn dictionary_with_keys_out_of_order_decodes_in_permissive_mode() {
    let options = Options { strict: false, max_depth: DEFAULT_MAX_DEPTH, reject_trailing: false };
    let data = decode_with(b"d5:hello3:foo3:bari52ee", &options).unwrap();
    let expected = Kind::Dictionary(vec![
        (b"bar".to_vec(), Kind::Integer(52)),
        (b"hello".to_vec(), text("foo")),
    ]);
    assert_eq!(data.value, expected);
    assert_eq!(data.consumed, 23);
}

#[test]
fn permissive_mode_tells_whether_the_input_was_canonical() {
    let options = Options { strict: false, max_depth: DEFAULT_MAX_DEPTH, reject_trailing: false };
    assert!(decode_with(b"d3:foo3:bar5:helloi52ee", &options).unwrap().canonical);
    assert!(!decode_with(b"d5:hello3:foo3:bari52ee", &options).unwrap().canonical);
    assert!(decode_with(b"l5:helloi1ee", &options).unwrap().canonical);
    assert!(decode_with(b"i7e", &options).unwrap().canonical);
    assert!(!decode_with(b"ld1:bi1e1:ai2eee", &options).unwrap().canonical);
    assert!(!decode_with(b"d1:ad1:bi1e1:ai2eee", &options).unwrap().canonical);
    assert!(!decode_with(b"d1:bi1e1:ad1:xi1eee", &options).unwrap().canonical);
    assert!(decode_with(b"d1:ad1:ai1e1:bi2eee", &options).unwrap().canonical);
}

#[test]
fn strict_mode_reads_canonical_input_only() {
    assert!(decode(b"d3:foo3:bar5:helloi52ee").unwrap().canonical);
    assert!(decode(b"le").unwrap().canonical);
    assert!(decode(b"0:").unwrap().canonical);
}

#[test]
fn repeated_key_fails_in_both_modes() {
    fails(b"d1:ai1e1:ai2ee", ErrorKind::KeyOrderViolation, 7);
    let options = Options { strict: false, max_depth: DEFAULT_MAX_DEPTH, reject_trailing: false };
    let e = decode_with(b"d1:bi1e1:ai2e1:bi3ee", &options).unwrap_err();
    assert_eq!(e, DecodeError { kind: ErrorKind::KeyOrderViolation, offset: 13 });
}

#[test]
fn byte_string_shorter_than_announced() {
    fails(b"4:abc", ErrorKind::TruncatedInput, 5);
}

#[test]
fn malformed_lengths() {
    fails(b"05:hello", ErrorKind::MalformedLength, 0);
    fails(b"5x:hello", ErrorKind::MalformedLength, 1);
    fails(b":hello", ErrorKind::MalformedLength, 0);
    fails(b"5", ErrorKind::TruncatedInput, 1);
    fails(b"99999999999999999999999999:a", ErrorKind::TruncatedInput, 28);
}

#[test]
fn empty_containers() {
    let data = decode(b"le").unwrap();
    assert_eq!(data.value, Kind::List(vec![]));
    assert_eq!(data.consumed, 2);
    let data = decode(b"de").unwrap();
    assert_eq!(data.value, Kind::Dictionary(vec![]));
    assert_eq!(data.consumed, 2);
}

#[test]
fn unknown_marker() {
    fails(b"x", ErrorKind::UnknownMarker, 0);
    fails(b"e", ErrorKind::UnknownMarker, 0);
    fails(b"li1exe", ErrorKind::UnknownMarker, 4);
    fails(b"dxe", ErrorKind::UnknownMarker, 1);
}

#[test]
fn empty_and_unfinished_input() {
    fails(b"", ErrorKind::TruncatedInput, 0);
    fails(b"l", ErrorKind::TruncatedInput, 1);
    fails(b"li1e", ErrorKind::TruncatedInput, 4);
    fails(b"d", ErrorKind::TruncatedInput, 1);
    fails(b"d1:a", ErrorKind::TruncatedInput, 4);
    fails(b"d1:ai1e", ErrorKind::TruncatedInput, 7);
}

#[test]
fn key_that_is_no_byte_string() {
    fails(b"di1e1:ae", ErrorKind::InvalidKeyType, 1);
    fails(b"dle1:ae", ErrorKind::InvalidKeyType, 1);
    fails(b"dde1:ae", ErrorKind::InvalidKeyType, 1);
}

#[test]
fn nesting_beyond_the_limit_fails() {
    let depth = 100_000;
    let mut input = vec![b'l'; depth];
    input.extend(vec![b'e'; depth]);
    fails(&input, ErrorKind::NestingTooDeep, DEFAULT_MAX_DEPTH);
}

#[test]
fn nesting_up_to_the_limit_decodes() {
    let options = Options { strict: true, max_depth: 2, reject_trailing: false };
    let data = decode_with(b"llee", &options).unwrap();
    assert_eq!(data.value, Kind::List(vec![Kind::List(vec![])]));
    let e = decode_with(b"llleee", &options).unwrap_err();
    assert_eq!(e, DecodeError { kind: ErrorKind::NestingTooDeep, offset: 2 });
    let e = decode_with(b"ld1:adeee", &options).unwrap_err();
    assert_eq!(e, DecodeError { kind: ErrorKind::NestingTooDeep, offset: 5 });
    let none = Options { strict: true, max_depth: 0, reject_trailing: false };
    assert_eq!(decode_with(b"i7e", &none).unwrap().value, Kind::Integer(7));
    let e = decode_with(b"le", &none).unwrap_err();
    assert_eq!(e, DecodeError { kind: ErrorKind::NestingTooDeep, offset: 0 });
}

#[test]
fn trailing_bytes_are_counted_or_refused() {
    let data = decode(b"i1ei2e").unwrap();
    assert_eq!(data.value, Kind::Integer(1));
    assert_eq!(data.consumed, 3);
    let options = Options { strict: true, max_depth: DEFAULT_MAX_DEPTH, reject_trailing: true };
    let e = decode_with(b"i1ei2e", &options).unwrap_err();
    assert_eq!(e, DecodeError { kind: ErrorKind::TrailingData, offset: 3 });
    let data = decode_with(b"i1e", &options).unwrap();
    assert_eq!(data.consumed, 3);
}

#[test]
fn decoding_at_an_offset() {
    let options = Options::new();
    let input = b"i1e5:helloi-7e";
    let first = decode_at(input, 0, &options).unwrap();
    assert_eq!((first.value, first.consumed), (Kind::Integer(1), 3));
    let second = decode_at(input, 3, &options).unwrap();
    assert_eq!((second.value, second.consumed), (text("hello"), 7));
    let third = decode_at(input, 10, &options).unwrap();
    assert_eq!((third.value, third.consumed), (Kind::Integer(-7), 4));
    let e = decode_at(input, 14, &options).unwrap_err();
    assert_eq!(e, DecodeError { kind: ErrorKind::TruncatedInput, offset: 14 });
    let e = decode_at(input, 99, &options).unwrap_err();
    assert_eq!(e, DecodeError { kind: ErrorKind::TruncatedInput, offset: 14 });
}

#[test]
fn default_options() {
    let expected = Options { strict: true, max_depth: 64, reject_trailing: false };
    assert_eq!(Options::new(), expected);
    assert_eq!(Options::default(), expected);
}

#[test]
fn decoding_text() {
    let data = Data::from_str("l4:spami42ee").unwrap();
    assert_eq!(data.value, Kind::List(vec![text("spam"), Kind::Integer(42)]));
    assert_eq!(data.consumed, 12);
    let e = Data::from_str("i03e").unwrap_err();
    assert_eq!(e.kind, ErrorKind::MalformedInteger);
}
