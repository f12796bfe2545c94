use bencode::decode::{decode, decode_with, Options, DEFAULT_MAX_DEPTH};
use bencode::encode::encode;
use bencode::error::ErrorKind;
use bencode::value::Kind;

fn text(s: &str) -> Kind {
    Kind::ByteString(s.as_bytes().to_vec())
}

fn sample() -> Kind {
    Kind::Dictionary(vec![
        (b"name".to_vec(), text("debian.iso")),
        (b"length".to_vec(), Kind::Integer(678_301_696)),
        (
            b"files".to_vec(),
            Kind::List(vec![
                Kind::Dictionary(vec![
                    (b"path".to_vec(), Kind::List(vec![text("a"), text("b.txt")])),
                    (b"length".to_vec(), Kind::Integer(-5)),
                ]),
                Kind::List(vec![]),
                Kind::Dictionary(vec![]),
            ]),
        ),
        (b"pieces".to_vec(), Kind::ByteString(vec![0, 1, 2, 0xfe, 0xff, b':', b'e'])),
        (b"".to_vec(), Kind::Integer(i64::MIN)),
    ])
}

#[test]
fn decoding_an_encoding_gives_the_value_back() {
    let value = sample();
    let bytes = encode(&value);
    let data = decode(&bytes).unwrap();
    assert_eq!(data.value, value);
    assert_eq!(data.consumed, bytes.len());
}

#[test]
fn decoding_an_encoding_gives_the_value_back_in_permissive_mode() {
    let options = Options { strict: false, max_depth: DEFAULT_MAX_DEPTH, reject_trailing: true };
    let value = sample();
    let bytes = encode(&value);
    let data = decode_with(&bytes, &options).unwrap();
    assert_eq!(data.value, value);
    assert_eq!(data.consumed, bytes.len());
}

#[test]
fn round_trip_of_scalars() {
    for number in [0, 1, -1, 9, 10, -10, 99, 100, 12345, i64::MAX, i64::MIN] {
        let value = Kind::Integer(number);
        assert_eq!(decode(&encode(&value)).unwrap().value, value);
    }
    for length in [0usize, 1, 9, 10, 11, 99, 100, 1000] {
        let value = Kind::ByteString(vec![b'7'; length]);
        assert_eq!(decode(&encode(&value)).unwrap().value, value);
    }
}

#[test]
fn encoding_what_strict_decoding_read_gives_the_bytes_back() {
    let inputs: [&[u8]; 7] = [
        b"5:hello",
        b"i52e",
        b"i-1e",
        b"l5:hello5:worlde",
        b"d3:foo3:bar5:helloi52ee",
        b"le",
        b"d1:ad1:bl1:cdeee1:zi0ee",
    ];
    for input in inputs {
        let data = decode(input).unwrap();
        assert_eq!(data.consumed, input.len());
        assert_eq!(encode(&data.value), input.to_vec());
    }
}

#[test]
fn encoding_what_strict_decoding_read_gives_the_consumed_bytes_back() {
    let input = b"li1ei2eetrailing";
    let data = decode(input).unwrap();
    assert_eq!(data.consumed, 8);
    assert_eq!(encode(&data.value), input[..8].to_vec());
}

#[test]
fn permissive_decoding_reads_what_is_not_canonical() {
    let options = Options { strict: false, max_depth: DEFAULT_MAX_DEPTH, reject_trailing: false };
    let input = b"d1:bi1e1:ai2ee";
    let data = decode_with(input, &options).unwrap();
    assert_eq!(encode(&data.value), b"d1:ai2e1:bi1ee".to_vec());
}

#[test]
fn a_value_nested_beyond_the_limit_does_not_come_back() {
    let mut value = Kind::List(vec![]);
    for _ in 0..DEFAULT_MAX_DEPTH {
        value = Kind::List(vec![value]);
    }
    let bytes = encode(&value);
    let e = decode(&bytes).unwrap_err();
    assert_eq!(e.kind, ErrorKind::NestingTooDeep);
    assert_eq!(e.offset, DEFAULT_MAX_DEPTH);
    let options = Options { strict: true, max_depth: DEFAULT_MAX_DEPTH + 1, reject_trailing: false };
    assert_eq!(decode_with(&bytes, &options).unwrap().value, value);
}

#[test]
fn permissive_mode_reads_what_strict_mode_reads() {
    let permissive = Options { strict: false, max_depth: DEFAULT_MAX_DEPTH, reject_trailing: false };
    let inputs: [&[u8]; 6] = [
        b"5:hello",
        b"i-17e",
        b"l5:hello5:worlde",
        b"d3:foo3:bar5:helloi52ee",
        b"d1:ad1:bl1:cdeee1:zi0eerest",
        b"de",
    ];
    for input in inputs {
        let strict = decode(input).unwrap();
        let other = decode_with(input, &permissive).unwrap();
        assert_eq!(other.value, strict.value);
        assert_eq!(other.consumed, strict.consumed);
    }
}
