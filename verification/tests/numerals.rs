use bencode::decimal::{byte_is_digit, push_decimal, read_number, scan_digits};
use bencode::decode::{decode_byte_string, decode_integer, decode_value};
use bencode::error::{DecodeError, ErrorKind};
use bencode::value::Kind;

#[test]
fn digits_are_the_ten_ascii_digits() {
    for c in 0..=255u8 {
        assert_eq!(byte_is_digit(c), c.is_ascii_digit());
    }
}

#[test]
fn a_run_of_digits_ends_at_the_first_other_byte() {
    assert_eq!(scan_digits(b"123:abc", 0), 3);
    assert_eq!(scan_digits(b"123:abc", 1), 3);
    assert_eq!(scan_digits(b"123:abc", 3), 3);
    assert_eq!(scan_digits(b"123", 0), 3);
    assert_eq!(scan_digits(b"123", 3), 3);
    assert_eq!(scan_digits(b"", 0), 0);
}

#[test]
fn digits_are_read_up_to_a_limit() {
    assert_eq!(read_number(b"x1234y", 1, 5, 9999), Some(1234));
    assert_eq!(read_number(b"x1234y", 1, 5, 1234), Some(1234));
    assert_eq!(read_number(b"x1234y", 1, 5, 1233), None);
    assert_eq!(read_number(b"x1234y", 1, 1, 0), Some(0));
    assert_eq!(read_number(b"007", 0, 3, 7), Some(7));
    assert_eq!(read_number(b"18446744073709551615", 0, 20, u64::MAX), Some(u64::MAX));
    assert_eq!(read_number(b"18446744073709551616", 0, 20, u64::MAX), None);
    assert_eq!(read_number(b"99999999999999999999999", 0, 23, u64::MAX), None);
}

#[test]
fn numbers_are_written_without_leading_zeros() {
    let mut out = Vec::new();
    push_decimal(&mut out, 0);
    out.push(b' ');
    push_decimal(&mut out, 7);
    out.push(b' ');
    push_decimal(&mut out, 10);
    out.push(b' ');
    push_decimal(&mut out, 1203);
    out.push(b' ');
    push_decimal(&mut out, u64::MAX);
    assert_eq!(out, b"0 7 10 1203 18446744073709551615".to_vec());
}

#[test]
fn byte_string_at_an_offset() {
    assert_eq!(decode_byte_string(b"i1e3:abcx", 3).unwrap(), (b"abc".to_vec(), 8));
    let e = decode_byte_string(b"i1e3:abcx", 0).unwrap_err();
    assert_eq!(e, DecodeError { kind: ErrorKind::MalformedLength, offset: 0 });
    let e = decode_byte_string(b"3:ab", 0).unwrap_err();
    assert_eq!(e, DecodeError { kind: ErrorKind::TruncatedInput, offset: 4 });
    let e = decode_byte_string(b"", 0).unwrap_err();
    assert_eq!(e, DecodeError { kind: ErrorKind::TruncatedInput, offset: 0 });
}

#[test]
fn integer_at_an_offset() {
    assert_eq!(decode_integer(b"xxi-42ei0e", 2).unwrap(), (-42, 7));
    assert_eq!(decode_integer(b"xxi-42ei0e", 7).unwrap(), (0, 10));
    let e = decode_integer(b"5:hello", 0).unwrap_err();
    assert_eq!(e, DecodeError { kind: ErrorKind::MalformedInteger, offset: 0 });
    let e = decode_integer(b"i5", 5).unwrap_err();
    assert_eq!(e, DecodeError { kind: ErrorKind::TruncatedInput, offset: 2 });
}

#[test]
fn value_with_a_depth_budget() {
    assert_eq!(decode_value(b"li1ee", 0, 1, true).unwrap(), (Kind::List(vec![Kind::Integer(1)]), 5));
    let e = decode_value(b"li1ee", 0, 0, true).unwrap_err();
    assert_eq!(e, DecodeError { kind: ErrorKind::NestingTooDeep, offset: 0 });
    assert_eq!(decode_value(b"li1ee", 1, 0, true).unwrap(), (Kind::Integer(1), 4));
}
