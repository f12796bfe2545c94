//! Bencode: the self-delimiting encoding of byte strings, integers, lists and
//! dictionaries used by BitTorrent, with a decoder and a canonical encoder.
//!
//! - [`value`] holds the value model, [`Kind`](value::Kind), and its
//!   mathematical content, [`Tree`](value::Tree); [`equality`] compares values
//!   by content.
//! - [`grammar`] states what decoding gives for every input, and [`decode`]
//!   computes it.
//! - [`encode`] states the canonical encoding of a value and writes it, with
//!   the keys of a dictionary in the order that [`key_order`] finds.
//! - [`laws`] proves that decoding inverts encoding, and that strict decoding
//!   accepts canonical encodings only.
//! - [`json`] turns a value into a JSON tree for display.
//! - [`decimal`], [`order`] and [`marks`] hold the numerals, the order of keys
//!   and the marker bytes that the others build on; [`error`] the failures.

pub mod decimal;
pub mod decode;
pub mod encode;
pub mod equality;
pub mod error;
pub mod grammar;
pub mod json;
pub mod key_order;
pub mod laws;
pub mod marks;
pub mod order;
pub mod value;
