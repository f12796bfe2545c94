//! The grammar of bencode as a function from bytes to a value or a failure:
//! what the decoder computes.

use crate::decimal::{digit_run, digits_value, is_digit};
use crate::error::{ErrorKind, Fault};
use crate::marks::{
    DICTIONARY_MARK, END_MARK, INTEGER_MARK, LIST_MARK, MINUS, SEPARATOR, ZERO,
};
use crate::order::{
    lemma_increasing_no_duplicates, lemma_lex_transitive, lex_lt, strictly_increasing,
};
use crate::value::{map_of_pairs, Tree};
use vstd::prelude::*;

verus! {

/// What reading from some offset gives: the thing read and the offset just
/// behind it, or the failure.
pub type Parsed<T> = Result<(T, int), Fault>;

/// `thing` was read, and reading stopped just before `end`.
pub open spec fn read_to<T>(thing: T, end: int) -> Parsed<T> {
    Ok((thing, end))
}

/// The failure of `kind` at `offset`.
pub open spec fn fault<T>(kind: ErrorKind, offset: int) -> Parsed<T> {
    Err(Fault { kind, offset })
}

/// Reads a byte string at `at`: digits without a leading zero that give a
/// length, `:`, and that many bytes.
///
/// Fails with `MalformedLength` where there is no digit at `at`, where the
/// length has a leading zero (both at `at`), or where the byte behind the
/// digits is not `:` (at that byte); with `TruncatedInput`, at the end of the
/// input, where the input ends before the `:` or before the last of the
/// announced bytes.
pub open spec fn parse_byte_string(b: Seq<u8>, at: int) -> Parsed<Seq<u8>> {
    let stop = digit_run(b, at);
    let length = digits_value(b.subrange(at, stop));
    if !(0 <= at < b.len()) {
        fault(ErrorKind::TruncatedInput, b.len() as int)
    } else if stop == at {
        fault(ErrorKind::MalformedLength, at)
    } else if stop - at > 1 && b[at] == ZERO {
        fault(ErrorKind::MalformedLength, at)
    } else if stop >= b.len() {
        fault(ErrorKind::TruncatedInput, b.len() as int)
    } else if b[stop] != SEPARATOR {
        fault(ErrorKind::MalformedLength, stop)
    } else if stop + 1 + length > b.len() {
        fault(ErrorKind::TruncatedInput, b.len() as int)
    } else {
        Ok((b.subrange(stop + 1, stop + 1 + length), stop + 1 + length))
    }
}

/// Reads an integer at `at`: `i`, an optional `-`, digits, `e`.
///
/// Fails with `MalformedInteger` where the byte at `at` is not `i` (at `at`),
/// where no digit follows the `i` or the `-` (at the byte that should be a
/// digit), where the byte behind the digits is not `e` (at that byte), and
/// where the number has a leading zero, is `-0`, or does not fit in 64 bits
/// (at the start of the number, behind the `i`). Fails with `TruncatedInput`,
/// at the end of the input, where the input ends before the `e`.
pub open spec fn parse_integer(b: Seq<u8>, at: int) -> Parsed<int> {
    let negative = at + 1 < b.len() && b[at + 1] == MINUS;
    let first = if negative {
        at + 2
    } else {
        at + 1
    };
    let stop = digit_run(b, first);
    let magnitude = digits_value(b.subrange(first, stop));
    let number = if negative {
        -magnitude
    } else {
        magnitude as int
    };
    if !(0 <= at < b.len()) {
        fault(ErrorKind::TruncatedInput, b.len() as int)
    } else if b[at] != INTEGER_MARK {
        fault(ErrorKind::MalformedInteger, at)
    } else if stop == first {
        if first >= b.len() {
            fault(ErrorKind::TruncatedInput, b.len() as int)
        } else {
            fault(ErrorKind::MalformedInteger, first)
        }
    } else if stop - first > 1 && b[first] == ZERO {
        fault(ErrorKind::MalformedInteger, at + 1)
    } else if stop >= b.len() {
        fault(ErrorKind::TruncatedInput, b.len() as int)
    } else if b[stop] != END_MARK {
        fault(ErrorKind::MalformedInteger, stop)
    } else if negative && magnitude == 0 {
        fault(ErrorKind::MalformedInteger, at + 1)
    } else if !(i64::MIN <= number <= i64::MAX) {
        fault(ErrorKind::MalformedInteger, at + 1)
    } else {
        Ok((number, stop + 1))
    }
}

/// Whether `key` may follow the keys `seen` of one dictionary. In strict mode
/// it has to come after the last of them in byte-lexicographic order; in
/// permissive mode it only has to differ from each of them.
pub open spec fn key_allowed(seen: Seq<Seq<u8>>, key: Seq<u8>, strict: bool) -> bool {
    if strict {
        seen.len() == 0 || lex_lt(seen.last(), key)
    } else {
        !seen.contains(key)
    }
}

/// A key that may follow `seen` continues it without a repeat, and in strict
/// mode in increasing order.
pub proof fn lemma_key_follows(seen: Seq<Seq<u8>>, key: Seq<u8>, strict: bool)
    requires
        seen.no_duplicates(),
        strict ==> strictly_increasing(seen),
        key_allowed(seen, key, strict),
    ensures
        seen.push(key).no_duplicates(),
        strict ==> strictly_increasing(seen.push(key)),
{
    let grown = seen.push(key);
    if strict {
        assert forall|i: int, j: int| 0 <= i < j < grown.len() implies lex_lt(
            #[trigger] grown[i],
            #[trigger] grown[j],
        ) by {
            if j == seen.len() {
                if i < seen.len() - 1 {
                    assert(lex_lt(seen[i], seen[seen.len() - 1]));
                    lemma_lex_transitive(seen[i], seen.last(), key);
                }
            } else {
                assert(lex_lt(seen[i], seen[j]));
            }
        }
        lemma_increasing_no_duplicates(grown);
    } else {
        assert forall|i: int, j: int|
            0 <= i < grown.len() && 0 <= j < grown.len() && i != j implies grown[i]
            != grown[j] by {
            if i < seen.len() && j < seen.len() {
                assert(seen[i] != seen[j]);
            } else if i < seen.len() {
                assert(seen.contains(seen[i]));
            } else {
                assert(seen.contains(seen[j]));
            }
        }
    }
}

/// Reads one value at `at`, with containers nested at most `depth` deep.
///
/// The byte at `at` decides: a digit or `:` starts a byte string, `i` an
/// integer, `l` a list, `d` a dictionary; any other byte fails with
/// `UnknownMarker` at `at`. A list or dictionary fails with `NestingTooDeep`
/// at `at` where `depth` is 0. Where the input has no byte at `at` the
/// failure is `TruncatedInput` at the end of the input.
pub open spec fn parse_value(b: Seq<u8>, at: int, depth: nat, strict: bool) -> Parsed<Tree>
    decreases 2 * depth, 0nat,
{
    if !(0 <= at < b.len()) {
        fault(ErrorKind::TruncatedInput, b.len() as int)
    } else if is_digit(b[at]) || b[at] == SEPARATOR {
        match parse_byte_string(b, at) {
            Ok((bytes, end)) => Ok((Tree::ByteString(bytes), end)),
            Err(f) => Err(f),
        }
    } else if b[at] == INTEGER_MARK {
        match parse_integer(b, at) {
            Ok((number, end)) => Ok((Tree::Integer(number), end)),
            Err(f) => Err(f),
        }
    } else if b[at] == LIST_MARK {
        if depth == 0 {
            fault(ErrorKind::NestingTooDeep, at)
        } else {
            match parse_items(b, at + 1, (depth - 1) as nat, strict) {
                Ok((items, end)) => Ok((Tree::List(items), end)),
                Err(f) => Err(f),
            }
        }
    } else if b[at] == DICTIONARY_MARK {
        if depth == 0 {
            fault(ErrorKind::NestingTooDeep, at)
        } else {
            match parse_entries(b, at + 1, (depth - 1) as nat, strict, Seq::empty()) {
                Ok((pairs, end)) => Ok((Tree::Dictionary(map_of_pairs(pairs)), end)),
                Err(f) => Err(f),
            }
        }
    } else {
        fault(ErrorKind::UnknownMarker, at)
    }
}

/// Reads the items of a list from `at` up to and with the closing `e`.
///
/// Every value spans at least one byte (`lemma_value_sound` in
/// [`laws`](crate::laws) proves it), so the test on `next` always holds; it
/// is there to make plain that reading comes to an end.
pub open spec fn parse_items(b: Seq<u8>, at: int, depth: nat, strict: bool) -> Parsed<Seq<Tree>>
    decreases 2 * depth + 1, b.len() - at,
{
    if !(0 <= at < b.len()) {
        fault(ErrorKind::TruncatedInput, b.len() as int)
    } else if b[at] == END_MARK {
        Ok((Seq::empty(), at + 1))
    } else {
        match parse_value(b, at, depth, strict) {
            Err(f) => Err(f),
            Ok((item, next)) => if at < next <= b.len() {
                match parse_items(b, next, depth, strict) {
                    Err(f) => Err(f),
                    Ok((rest, end)) => Ok((seq![item] + rest, end)),
                }
            } else {
                fault(ErrorKind::TruncatedInput, b.len() as int)
            },
        }
    }
}

/// Reads the entries of a dictionary from `at` up to and with the closing
/// `e`; `seen` holds the keys of the entries before `at`.
///
/// Where an entry should start, `i`, `l` or `d` fails with `InvalidKeyType`,
/// and a byte that starts no value with `UnknownMarker`. A key that
/// [`key_allowed`] refuses fails with `KeyOrderViolation`. Each of the three
/// is reported at the start of the key.
///
/// Every value spans at least one byte (`lemma_value_sound` in
/// [`laws`](crate::laws) proves it), so the test on `next` always holds; it
/// is there to make plain that reading comes to an end.
pub open spec fn parse_entries(
    b: Seq<u8>,
    at: int,
    depth: nat,
    strict: bool,
    seen: Seq<Seq<u8>>,
) -> Parsed<Seq<(Seq<u8>, Tree)>>
    decreases 2 * depth + 1, b.len() - at,
{
    if !(0 <= at < b.len()) {
        fault(ErrorKind::TruncatedInput, b.len() as int)
    } else if b[at] == END_MARK {
        Ok((Seq::empty(), at + 1))
    } else if b[at] == INTEGER_MARK || b[at] == LIST_MARK || b[at] == DICTIONARY_MARK {
        fault(ErrorKind::InvalidKeyType, at)
    } else if !(is_digit(b[at]) || b[at] == SEPARATOR) {
        fault(ErrorKind::UnknownMarker, at)
    } else {
        match parse_byte_string(b, at) {
            Err(f) => Err(f),
            Ok((key, middle)) => if !key_allowed(seen, key, strict) {
                fault(ErrorKind::KeyOrderViolation, at)
            } else {
                match parse_value(b, middle, depth, strict) {
                    Err(f) => Err(f),
                    Ok((value, next)) => if at < next <= b.len() {
                        match parse_entries(b, next, depth, strict, seen.push(key)) {
                            Err(f) => Err(f),
                            Ok((rest, end)) => Ok((seq![(key, value)] + rest, end)),
                        }
                    } else {
                        fault(ErrorKind::TruncatedInput, b.len() as int)
                    },
                }
            },
        }
    }
}

} // verus!
