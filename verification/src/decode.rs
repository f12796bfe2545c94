//! The decoder: from bytes to a value, the number of bytes it spans, or the
//! failure and its offset.

use crate::decimal::{byte_is_digit, lemma_digit_run, read_number, scan_digits};
use crate::error::{DecodeError, ErrorKind};
use crate::grammar::{
    fault, key_allowed, lemma_key_follows, parse_byte_string, parse_entries, parse_integer,
    parse_items, parse_value, Parsed,
};
use crate::laws::lemma_value_permissive;
use crate::marks::{
    DICTIONARY_MARK, END_MARK, INTEGER_MARK, LIST_MARK, MINUS, SEPARATOR, ZERO,
};
use crate::order::{bytes_equal, bytes_less, strictly_increasing};
use crate::value::{keys_of, lemma_pairs_of, pairs_of, trees_of, well_formed, Kind, Tree};
use vstd::prelude::*;
use vstd::slice::{slice_subrange, slice_to_vec};
use vstd::string::StringSliceAdditionalSpecFns;

verus! {

/// How deeply containers may be nested unless the caller says otherwise.
pub const DEFAULT_MAX_DEPTH: usize = 64;

/// The choices a caller has when decoding.
#[derive(Clone, Copy, Debug, PartialEq, Eq, Structural)]
pub struct Options {
    /// In strict mode the keys of a dictionary have to come in increasing
    /// byte-lexicographic order; in permissive mode they may come in any
    /// order, and [`Data::canonical`] tells whether they came in order. A
    /// repeated key is refused in both.
    pub strict: bool,
    /// How deeply containers may be nested. With 0 only a byte string or an
    /// integer decodes.
    pub max_depth: usize,
    /// Whether bytes behind the root value are a failure. Where they are not,
    /// the caller learns from the number of bytes consumed that there are
    /// some.
    pub reject_trailing: bool,
}

impl Options {
    /// The options of [`Options::new`]: strict mode, the default nesting
    /// limit, trailing bytes accepted.
    pub open spec fn standard() -> Options {
        Options { strict: true, max_depth: DEFAULT_MAX_DEPTH, reject_trailing: false }
    }

    /// Strict mode, the default nesting limit, trailing bytes accepted.
    pub fn new() -> (o: Options)
        ensures
            o == Options::standard(),
    {
        Options { strict: true, max_depth: DEFAULT_MAX_DEPTH, reject_trailing: false }
    }
}

impl Default for Options {
    /// The options of [`Options::new`].
    fn default() -> (o: Options)
        ensures
            o == Options::standard(),
    {
        Options::new()
    }
}

/// A decoded value, the number of bytes that it spans in the input, and
/// whether these bytes are in canonical form.
#[derive(Debug)]
pub struct Data {
    /// The value that was read.
    pub value: Kind,
    /// The number of bytes from the offset at which decoding began to the
    /// end of the value.
    pub consumed: usize,
    /// Whether strict mode reads the value too. It is false only where
    /// permissive mode has read a dictionary whose keys are out of order: the
    /// caller may take it as a warning.
    pub canonical: bool,
}

/// The failure of `kind` at `offset`.
fn failure<T>(kind: ErrorKind, offset: usize) -> (r: Result<T, DecodeError>)
    ensures
        r == Err::<T, DecodeError>(DecodeError { kind, offset }),
{
    Err(DecodeError { kind, offset })
}

/// Reads a byte string at `at`: the bytes, and the offset behind them.
pub fn decode_byte_string(bytes: &[u8], at: usize) -> (r: Result<(Vec<u8>, usize), DecodeError>)
    ensures
        match r {
            Ok((payload, end)) => parse_byte_string(bytes@, at as int) matches Ok(read) && read == (
                payload@,
                end as int,
            ) && at < end <= bytes.len(),
            Err(e) => parse_byte_string(bytes@, at as int) matches Err(f) && f == e@,
        },
{
    let len = bytes.len();
    if at >= len {
        return failure(ErrorKind::TruncatedInput, len);
    }
    let stop = scan_digits(bytes, at);
    proof {
        lemma_digit_run(bytes@, at as int);
    }
    if stop == at {
        return failure(ErrorKind::MalformedLength, at);
    }
    if stop - at > 1 && bytes[at] == ZERO {
        return failure(ErrorKind::MalformedLength, at);
    }
    if stop >= len {
        return failure(ErrorKind::TruncatedInput, len);
    }
    if bytes[stop] != SEPARATOR {
        return failure(ErrorKind::MalformedLength, stop);
    }
    let room: usize = len - stop - 1;
    match read_number(bytes, at, stop, room as u64) {
        None => failure(ErrorKind::TruncatedInput, len),
        Some(length) => {
            let start: usize = stop + 1;
            let end: usize = start + length as usize;
            let payload = slice_to_vec(slice_subrange(bytes, start, end));
            Ok((payload, end))
        },
    }
}

/// Reads an integer at `at`: the number, and the offset behind its `e`.
pub fn decode_integer(bytes: &[u8], at: usize) -> (r: Result<(i64, usize), DecodeError>)
    ensures
        match r {
            Ok((number, end)) => parse_integer(bytes@, at as int) matches Ok(read) && read == (
                number as int,
                end as int,
            ) && at < end <= bytes.len(),
            Err(e) => parse_integer(bytes@, at as int) matches Err(f) && f == e@,
        },
{
    let len = bytes.len();
    if at >= len {
        return failure(ErrorKind::TruncatedInput, len);
    }
    if bytes[at] != INTEGER_MARK {
        return failure(ErrorKind::MalformedInteger, at);
    }
    let negative = at + 1 < len && bytes[at + 1] == MINUS;
    let first: usize = if negative {
        at + 2
    } else {
        at + 1
    };
    let stop = scan_digits(bytes, first);
    proof {
        lemma_digit_run(bytes@, first as int);
    }
    if stop == first {
        if first >= len {
            return failure(ErrorKind::TruncatedInput, len);
        }
        return failure(ErrorKind::MalformedInteger, first);
    }
    if stop - first > 1 && bytes[first] == ZERO {
        return failure(ErrorKind::MalformedInteger, at + 1);
    }
    if stop >= len {
        return failure(ErrorKind::TruncatedInput, len);
    }
    if bytes[stop] != END_MARK {
        return failure(ErrorKind::MalformedInteger, stop);
    }
    let limit: u64 = if negative {
        9223372036854775808
    } else {
        9223372036854775807
    };
    match read_number(bytes, first, stop, limit) {
        None => failure(ErrorKind::MalformedInteger, at + 1),
        Some(magnitude) => {
            if negative {
                if magnitude == 0 {
                    failure(ErrorKind::MalformedInteger, at + 1)
                } else {
                    let number: i64 = -((magnitude - 1) as i64) - 1;
                    Ok((number, stop + 1))
                }
            } else {
                Ok((magnitude as i64, stop + 1))
            }
        },
    }
}

/// `front`, and behind it what reading on gave.
pub open spec fn after<T>(front: Seq<T>, rest: Parsed<Seq<T>>) -> Parsed<Seq<T>> {
    match rest {
        Ok((tail, end)) => Ok((front + tail, end)),
        Err(f) => Err(f),
    }
}

/// Whether `key` may follow the keys of `entries` in one dictionary.
fn key_may_follow(entries: &Vec<(Vec<u8>, Kind)>, key: &Vec<u8>, strict: bool) -> (ok: bool)
    ensures
        ok == key_allowed(keys_of(pairs_of(entries@)), key@, strict),
{
    let ghost keys = keys_of(pairs_of(entries@));
    proof {
        lemma_pairs_of(entries@);
    }
    if strict {
        if entries.len() == 0 {
            true
        } else {
            bytes_less(entries[entries.len() - 1].0.as_slice(), key.as_slice())
        }
    } else {
        let mut n: usize = 0;
        while n < entries.len()
            invariant
                n <= entries.len(),
                !strict,
                keys == keys_of(pairs_of(entries@)),
                keys.len() == entries.len(),
                forall|i: int| 0 <= i < entries.len() ==> #[trigger] keys[i] == entries@[i].0@,
                forall|i: int| 0 <= i < n ==> #[trigger] keys[i] != key@,
            decreases entries.len() - n,
        {
            if bytes_equal(entries[n].0.as_slice(), key.as_slice()) {
                assert(keys[n as int] == key@);
                return false;
            }
            n += 1;
        }
        true
    }
}

/// Reads one value at `at`, with containers nested at most `depth` deep: the
/// value, and the offset behind it.
pub fn decode_value(bytes: &[u8], at: usize, depth: usize, strict: bool) -> (r: Result<
    (Kind, usize),
    DecodeError,
>)
    ensures
        match r {
            Ok((value, end)) => parse_value(bytes@, at as int, depth as nat, strict) matches Ok(
                read,
            ) && read == (value@, end as int) && at < end <= bytes.len() && well_formed(value),
            Err(e) => parse_value(bytes@, at as int, depth as nat, strict) matches Err(f) && f
                == e@,
        },
{
    match read_value(bytes, at, depth, strict) {
        Ok((value, end, _)) => Ok((value, end)),
        Err(e) => Err(e),
    }
}

/// Reads one value at `at`, as [`decode_value`] does, and tells besides
/// whether strict mode reads a value there.
fn read_value(bytes: &[u8], at: usize, depth: usize, strict: bool) -> (r: Result<
    (Kind, usize, bool),
    DecodeError,
>)
    ensures
        match r {
            Ok((value, end, canonical)) => parse_value(
                bytes@,
                at as int,
                depth as nat,
                strict,
            ) matches Ok(read) && read == (value@, end as int) && at < end <= bytes.len()
                && well_formed(value) && canonical == (parse_value(
                bytes@,
                at as int,
                depth as nat,
                true,
            ) is Ok),
            Err(e) => parse_value(bytes@, at as int, depth as nat, strict) matches Err(f) && f
                == e@,
        },
    decreases depth, 0nat,
{
    let len = bytes.len();
    if at >= len {
        return failure(ErrorKind::TruncatedInput, len);
    }
    let mark = bytes[at];
    if byte_is_digit(mark) || mark == SEPARATOR {
        match decode_byte_string(bytes, at) {
            Ok((payload, end)) => Ok((Kind::ByteString(payload), end, true)),
            Err(e) => Err(e),
        }
    } else if mark == INTEGER_MARK {
        match decode_integer(bytes, at) {
            Ok((number, end)) => Ok((Kind::Integer(number), end, true)),
            Err(e) => Err(e),
        }
    } else if mark == LIST_MARK {
        if depth == 0 {
            failure(ErrorKind::NestingTooDeep, at)
        } else {
            match read_items(bytes, at + 1, depth - 1, strict) {
                Ok((items, end, canonical)) => Ok((Kind::List(items), end, canonical)),
                Err(e) => Err(e),
            }
        }
    } else if mark == DICTIONARY_MARK {
        if depth == 0 {
            failure(ErrorKind::NestingTooDeep, at)
        } else {
            match read_entries(bytes, at + 1, depth - 1, strict) {
                Ok((entries, end, canonical)) => Ok((Kind::Dictionary(entries), end, canonical)),
                Err(e) => Err(e),
            }
        }
    } else {
        failure(ErrorKind::UnknownMarker, at)
    }
}

/// Reads the items of a list from `at` up to and with the closing `e`, and
/// tells whether strict mode reads them too.
fn read_items(bytes: &[u8], at: usize, depth: usize, strict: bool) -> (r: Result<
    (Vec<Kind>, usize, bool),
    DecodeError,
>)
    requires
        at <= bytes.len(),
    ensures
        match r {
            Ok((items, end, canonical)) => parse_items(
                bytes@,
                at as int,
                depth as nat,
                strict,
            ) matches Ok(read) && read == (trees_of(items@), end as int) && at < end
                <= bytes.len() && (forall|i: int|
                0 <= i < items.len() ==> well_formed(#[trigger] items@[i])) && canonical == (
            parse_items(bytes@, at as int, depth as nat, true) is Ok),
            Err(e) => parse_items(bytes@, at as int, depth as nat, strict) matches Err(f) && f
                == e@,
        },
    decreases depth, 1nat,
{
    let len = bytes.len();
    let mut items: Vec<Kind> = Vec::new();
    let mut pos: usize = at;
    let mut canonical = true;
    let ghost whole = parse_items(bytes@, at as int, depth as nat, strict);
    let ghost whole_strict = parse_items(bytes@, at as int, depth as nat, true);
    proof {
        match whole {
            Ok((tail, end)) => {
                assert(trees_of(items@) + tail =~= tail);
            },
            Err(f) => {},
        }
        match whole_strict {
            Ok((tail, end)) => {
                assert(trees_of(items@) + tail =~= tail);
            },
            Err(f) => {},
        }
    }
    while pos < len
        invariant
            at <= pos <= len,
            len == bytes.len(),
            whole == parse_items(bytes@, at as int, depth as nat, strict),
            whole == after(trees_of(items@), parse_items(bytes@, pos as int, depth as nat, strict)),
            whole_strict == parse_items(bytes@, at as int, depth as nat, true),
            canonical ==> whole_strict == after(
                trees_of(items@),
                parse_items(bytes@, pos as int, depth as nat, true),
            ),
            !canonical ==> whole_strict is Err,
            forall|i: int| 0 <= i < items.len() ==> well_formed(#[trigger] items@[i]),
        decreases len - pos,
    {
        if bytes[pos] == END_MARK {
            proof {
                assert(trees_of(items@) + Seq::<Tree>::empty() =~= trees_of(items@));
            }
            return Ok((items, pos + 1, canonical));
        }
        match read_value(bytes, pos, depth, strict) {
            Err(e) => {
                return Err(e);
            },
            Ok((item, next, item_canonical)) => {
                proof {
                    let front = trees_of(items@);
                    let grown = items@.push(item);
                    assert(grown.drop_last() =~= items@);
                    assert(trees_of(grown) == front.push(item@));
                    match parse_items(bytes@, next as int, depth as nat, strict) {
                        Ok((tail, end)) => {
                            assert(front + (seq![item@] + tail) =~= front.push(item@) + tail);
                        },
                        Err(f) => {},
                    }
                    if item_canonical {
                        lemma_value_permissive(bytes@, pos as int, depth as nat);
                        match parse_items(bytes@, next as int, depth as nat, true) {
                            Ok((tail, end)) => {
                                assert(front + (seq![item@] + tail) =~= front.push(item@) + tail);
                            },
                            Err(f) => {},
                        }
                    }
                }
                items.push(item);
                pos = next;
                canonical = canonical && item_canonical;
            },
        }
    }
    failure(ErrorKind::TruncatedInput, len)
}

/// Reads the entries of a dictionary from `at` up to and with the closing
/// `e`, and tells whether strict mode reads them too.
fn read_entries(bytes: &[u8], at: usize, depth: usize, strict: bool) -> (r: Result<
    (Vec<(Vec<u8>, Kind)>, usize, bool),
    DecodeError,
>)
    requires
        at <= bytes.len(),
    ensures
        match r {
            Ok((entries, end, canonical)) => parse_entries(
                bytes@,
                at as int,
                depth as nat,
                strict,
                Seq::empty(),
            ) matches Ok(read) && read == (pairs_of(entries@), end as int) && at < end
                <= bytes.len() && well_formed(Kind::Dictionary(entries)) && canonical == (
            parse_entries(bytes@, at as int, depth as nat, true, Seq::empty()) is Ok),
            Err(e) => parse_entries(bytes@, at as int, depth as nat, strict, Seq::empty()) matches Err(
                f,
            ) && f == e@,
        },
    decreases depth, 1nat,
{
    let len = bytes.len();
    let mut entries: Vec<(Vec<u8>, Kind)> = Vec::new();
    let mut pos: usize = at;
    let mut canonical = true;
    let ghost whole = parse_entries(bytes@, at as int, depth as nat, strict, Seq::empty());
    let ghost whole_strict = parse_entries(bytes@, at as int, depth as nat, true, Seq::empty());
    proof {
        assert(keys_of(pairs_of(entries@)) =~= Seq::<Seq<u8>>::empty());
        match whole {
            Ok((tail, end)) => {
                assert(pairs_of(entries@) + tail =~= tail);
            },
            Err(f) => {},
        }
        match whole_strict {
            Ok((tail, end)) => {
                assert(pairs_of(entries@) + tail =~= tail);
            },
            Err(f) => {},
        }
    }
    while pos < len
        invariant
            at <= pos <= len,
            len == bytes.len(),
            whole == parse_entries(bytes@, at as int, depth as nat, strict, Seq::empty()),
            whole == after(
                pairs_of(entries@),
                parse_entries(
                    bytes@,
                    pos as int,
                    depth as nat,
                    strict,
                    keys_of(pairs_of(entries@)),
                ),
            ),
            whole_strict == parse_entries(bytes@, at as int, depth as nat, true, Seq::empty()),
            canonical ==> whole_strict == after(
                pairs_of(entries@),
                parse_entries(bytes@, pos as int, depth as nat, true, keys_of(pairs_of(entries@))),
            ),
            canonical ==> strictly_increasing(keys_of(pairs_of(entries@))),
            strict ==> canonical,
            !canonical ==> whole_strict is Err,
            keys_of(pairs_of(entries@)).no_duplicates(),
            forall|i: int| 0 <= i < entries.len() ==> well_formed((#[trigger] entries@[i]).1),
        decreases len - pos,
    {
        let ghost pairs = pairs_of(entries@);
        let ghost seen = keys_of(pairs);
        let mark = bytes[pos];
        if mark == END_MARK {
            proof {
                assert(pairs + Seq::<(Seq<u8>, Tree)>::empty() =~= pairs);
            }
            return Ok((entries, pos + 1, canonical));
        }
        if mark == INTEGER_MARK || mark == LIST_MARK || mark == DICTIONARY_MARK {
            return failure(ErrorKind::InvalidKeyType, pos);
        }
        if !(byte_is_digit(mark) || mark == SEPARATOR) {
            return failure(ErrorKind::UnknownMarker, pos);
        }
        let (key, middle) = match decode_byte_string(bytes, pos) {
            Err(e) => {
                return Err(e);
            },
            Ok(found) => found,
        };
        if !key_may_follow(&entries, &key, strict) {
            return failure(ErrorKind::KeyOrderViolation, pos);
        }
        let in_order = strict || key_may_follow(&entries, &key, true);
        match read_value(bytes, middle, depth, strict) {
            Err(e) => {
                return Err(e);
            },
            Ok((value, next, value_canonical)) => {
                proof {
                    let grown = entries@.push((key, value));
                    let pair = (key@, value@);
                    assert(grown.drop_last() =~= entries@);
                    assert(pairs_of(grown) == pairs.push(pair));
                    assert(keys_of(pairs_of(grown)) =~= seen.push(key@));
                    match parse_entries(
                        bytes@,
                        next as int,
                        depth as nat,
                        strict,
                        seen.push(key@),
                    ) {
                        Ok((tail, end)) => {
                            assert(pairs + (seq![pair] + tail) =~= pairs.push(pair) + tail);
                        },
                        Err(f) => {},
                    }
                    lemma_key_follows(seen, key@, strict);
                    if canonical && in_order && value_canonical {
                        lemma_value_permissive(bytes@, middle as int, depth as nat);
                        lemma_key_follows(seen, key@, true);
                        match parse_entries(
                            bytes@,
                            next as int,
                            depth as nat,
                            true,
                            seen.push(key@),
                        ) {
                            Ok((tail, end)) => {
                                assert(pairs + (seq![pair] + tail) =~= pairs.push(pair) + tail);
                            },
                            Err(f) => {},
                        }
                    }
                }
                entries.push((key, value));
                pos = next;
                canonical = canonical && in_order && value_canonical;
            },
        }
    }
    failure(ErrorKind::TruncatedInput, len)
}

/// What decoding the value at `at` gives under `options`: what the grammar
/// reads there, with containers nested at most `options.max_depth` deep; and
/// where `options.reject_trailing` is set and bytes are left behind the
/// value, the failure `TrailingData` at the first of them.
pub open spec fn decoded(b: Seq<u8>, at: int, options: Options) -> Parsed<Tree> {
    match parse_value(b, at, options.max_depth as nat, options.strict) {
        Err(f) => Err(f),
        Ok((tree, end)) => if options.reject_trailing && end < b.len() {
            fault(ErrorKind::TrailingData, end)
        } else {
            Ok((tree, end))
        },
    }
}

/// Whether strict mode reads a value at `at`, under the nesting limit of
/// `options`.
pub open spec fn in_strict_mode(b: Seq<u8>, at: int, options: Options) -> bool {
    parse_value(b, at, options.max_depth as nat, true) is Ok
}

/// A decoding call's result as the grammar would state it: the content of
/// the value and the offset just behind it, or the failure.
pub open spec fn outcome(r: Result<Data, DecodeError>, offset: int) -> Parsed<Tree> {
    match r {
        Ok(data) => Ok((data.value@, offset + data.consumed)),
        Err(e) => Err(e@),
    }
}

/// Decodes the value that starts at `offset` in `bytes`.
///
/// Succeeds exactly where [`decoded`] does, with the value it gives and the
/// number of bytes from `offset` to the end of the value; else fails with the
/// failure it gives. No dictionary of a decoded value holds a key twice.
pub fn decode_at(bytes: &[u8], offset: usize, options: &Options) -> (r: Result<Data, DecodeError>)
    ensures
        outcome(r, offset as int) == decoded(bytes@, offset as int, *options),
        r matches Ok(data) ==> well_formed(data.value) && 0 < data.consumed && offset
            + data.consumed <= bytes.len() && data.canonical == in_strict_mode(
            bytes@,
            offset as int,
            *options,
        ),
{
    match read_value(bytes, offset, options.max_depth, options.strict) {
        Err(e) => Err(e),
        Ok((value, end, canonical)) => {
            if options.reject_trailing && end < bytes.len() {
                failure(ErrorKind::TrailingData, end)
            } else {
                Ok(Data { value, consumed: end - offset, canonical })
            }
        },
    }
}

/// Decodes the value at the start of `bytes` under `options`.
pub fn decode_with(bytes: &[u8], options: &Options) -> (r: Result<Data, DecodeError>)
    ensures
        outcome(r, 0) == decoded(bytes@, 0, *options),
        r matches Ok(data) ==> well_formed(data.value) && 0 < data.consumed <= bytes.len()
            && data.canonical == in_strict_mode(bytes@, 0, *options),
{
    decode_at(bytes, 0, options)
}

/// Decodes the value at the start of `bytes` in strict mode, with the default
/// nesting limit. Bytes behind the value are no failure: the number of bytes
/// consumed tells the caller where the value ends.
pub fn decode(bytes: &[u8]) -> (r: Result<Data, DecodeError>)
    ensures
        outcome(r, 0) == decoded(bytes@, 0, Options::standard()),
        r matches Ok(data) ==> well_formed(data.value) && 0 < data.consumed <= bytes.len()
            && data.canonical,
{
    let options = Options::new();
    decode_at(bytes, 0, &options)
}

impl Data {
    /// Decodes the value at the start of the text `s`, taken as its bytes, as
    /// [`decode`] does.
    pub fn from_str(s: &str) -> (r: Result<Data, DecodeError>)
        ensures
            outcome(r, 0) == decoded(s.spec_bytes(), 0, Options::standard()),
            r matches Ok(data) ==> well_formed(data.value) && 0 < data.consumed
                <= s.spec_bytes().len() && data.canonical,
    {
        decode(s.as_bytes())
    }
}

} // verus!
