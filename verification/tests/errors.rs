use bencode::error::{DecodeError, ErrorKind};

#[test]
fn each_kind_has_its_description() {
    assert_eq!(ErrorKind::MalformedLength.describe(), "malformed byte string length");
    assert_eq!(ErrorKind::TruncatedInput.describe(), "input ends inside a value");
    assert_eq!(ErrorKind::MalformedInteger.describe(), "malformed integer");
    assert_eq!(ErrorKind::UnknownMarker.describe(), "unknown type marker");
    assert_eq!(ErrorKind::InvalidKeyType.describe(), "dictionary key is not a byte string");
    assert_eq!(
        ErrorKind::KeyOrderViolation.describe(),
        "dictionary keys repeat or are out of order"
    );
    assert_eq!(ErrorKind::NestingTooDeep.describe(), "containers are nested too deeply");
    assert_eq!(ErrorKind::TrailingData.describe(), "bytes follow the root value");
    assert_eq!(ErrorKind::TypeMismatch.describe(), "value has another shape");
}

#[test]
fn failures_compare_by_kind_and_offset() {
    let e = DecodeError { kind: ErrorKind::UnknownMarker, offset: 3 };
    assert_eq!(e, DecodeError { kind: ErrorKind::UnknownMarker, offset: 3 });
    assert_ne!(e, DecodeError { kind: ErrorKind::UnknownMarker, offset: 4 });
    assert_ne!(e, DecodeError { kind: ErrorKind::TruncatedInput, offset: 3 });
    let copy = e;
    assert_eq!(copy.kind, e.kind);
}
