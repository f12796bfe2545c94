//! The bytes that mark shapes and boundaries in an encoding.

use vstd::prelude::*;

verus! {

/// `0`, the digit that no number but 0 itself starts with.
pub const ZERO: u8 = 48;

/// `:` between a byte string's length and its bytes.
pub const SEPARATOR: u8 = 58;

/// `-` before the digits of a negative integer.
pub const MINUS: u8 = 45;

/// `i` at the start of an integer.
pub const INTEGER_MARK: u8 = 105;

/// `l` at the start of a list.
pub const LIST_MARK: u8 = 108;

/// `d` at the start of a dictionary.
pub const DICTIONARY_MARK: u8 = 100;

/// `e` at the end of an integer, a list or a dictionary.
pub const END_MARK: u8 = 101;

} // verus!
