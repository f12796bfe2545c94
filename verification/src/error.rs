//! The ways in which decoding, or a typed look at a value, can fail.

use vstd::prelude::*;

verus! {

/// What went wrong.
#[derive(Clone, Copy, Debug, PartialEq, Eq, Structural)]
pub enum ErrorKind {
    /// The length prefix of a byte string has a leading zero, or is not
    /// followed by `:`.
    MalformedLength,
    /// The input ended where the grammar still needed a byte.
    TruncatedInput,
    /// An integer token breaks the rules on sign, digits, leading zeros,
    /// terminator or range.
    MalformedInteger,
    /// The byte at the start of a value is no digit and none of `i`, `l`, `d`.
    UnknownMarker,
    /// A dictionary key position holds an integer, a list or a dictionary.
    InvalidKeyType,
    /// A dictionary key repeats, or (in strict mode) does not exceed the key
    /// before it.
    KeyOrderViolation,
    /// Containers are nested more deeply than the configured limit.
    NestingTooDeep,
    /// Bytes follow the root value, and the caller asked for none.
    TrailingData,
    /// A value was asked for as a shape that it does not have.
    TypeMismatch,
}

/// A decoding failure as a mathematical value: its kind and the offset in the
/// input at which decoding stopped.
pub struct Fault {
    pub kind: ErrorKind,
    pub offset: int,
}

/// A decoding failure: its kind and the offset in the input at which decoding
/// stopped.
#[derive(Clone, Copy, Debug, PartialEq, Eq, Structural)]
pub struct DecodeError {
    pub kind: ErrorKind,
    pub offset: usize,
}

impl View for DecodeError {
    type V = Fault;

    open spec fn view(&self) -> Fault {
        Fault { kind: self.kind, offset: self.offset as int }
    }
}

impl ErrorKind {
    /// The text of [`ErrorKind::describe`].
    pub open spec fn description(self) -> Seq<char> {
        match self {
            ErrorKind::MalformedLength => "malformed byte string length"@,
            ErrorKind::TruncatedInput => "input ends inside a value"@,
            ErrorKind::MalformedInteger => "malformed integer"@,
            ErrorKind::UnknownMarker => "unknown type marker"@,
            ErrorKind::InvalidKeyType => "dictionary key is not a byte string"@,
            ErrorKind::KeyOrderViolation => "dictionary keys repeat or are out of order"@,
            ErrorKind::NestingTooDeep => "containers are nested too deeply"@,
            ErrorKind::TrailingData => "bytes follow the root value"@,
            ErrorKind::TypeMismatch => "value has another shape"@,
        }
    }

    /// A short human-readable description of the failure.
    pub fn describe(&self) -> (s: &'static str)
        ensures
            s@ == self.description(),
    {
        match self {
            ErrorKind::MalformedLength => "malformed byte string length",
            ErrorKind::TruncatedInput => "input ends inside a value",
            ErrorKind::MalformedInteger => "malformed integer",
            ErrorKind::UnknownMarker => "unknown type marker",
            ErrorKind::InvalidKeyType => "dictionary key is not a byte string",
            ErrorKind::KeyOrderViolation => "dictionary keys repeat or are out of order",
            ErrorKind::NestingTooDeep => "containers are nested too deeply",
            ErrorKind::TrailingData => "bytes follow the root value",
            ErrorKind::TypeMismatch => "value has another shape",
        }
    }
}

} // verus!
