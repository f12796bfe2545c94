//! What holds between the encoder and the decoder: decoding an encoding gives
//! the value back, and strict decoding accepts canonical encodings only.

use crate::decimal::{
    decimal, digit_run, is_digit, lemma_decimal, lemma_decimal_of_value, lemma_digit_run,
    lemma_digit_run_is,
};
use crate::decode::{decoded, in_strict_mode, Options};
use crate::encode::{
    byte_string_text, encoding, entries_text, entry_value_text, integer_text, items_text,
    number_text,
};
use crate::grammar::{
    key_allowed, lemma_key_follows, parse_byte_string, parse_entries, parse_integer, parse_items,
    parse_value, read_to,
};
use crate::marks::{DICTIONARY_MARK, END_MARK, INTEGER_MARK, LIST_MARK, MINUS, SEPARATOR};
use crate::order::{
    lemma_increasing_no_duplicates, lemma_sorted_keys, lemma_sorted_keys_of_increasing,
    sorted_keys, strictly_increasing,
};
use crate::value::{
    keys_of, lemma_map_of_pairs, lemma_map_of_pairs_index, lemma_representable, map_of_pairs,
    representable, within_depth, Kind, Tree,
};
use vstd::prelude::*;

verus! {

/// The bytes `x` stand in `b` from offset `at` on.
pub open spec fn occurs(b: Seq<u8>, at: int, x: Seq<u8>) -> bool {
    &&& 0 <= at
    &&& at + x.len() <= b.len()
    &&& b.subrange(at, at + x.len()) == x
}

/// `x` followed by `y` stands at `at` exactly where `x` stands at `at` and `y`
/// right behind it.
pub proof fn lemma_occurs_concat(b: Seq<u8>, at: int, x: Seq<u8>, y: Seq<u8>)
    ensures
        occurs(b, at, x + y) <==> occurs(b, at, x) && occurs(b, at + x.len(), y),
{
    let mid = at + x.len();
    let end = mid + y.len();
    if occurs(b, at, x + y) {
        assert(b.subrange(at, mid) =~= x) by {
            assert forall|i: int| 0 <= i < x.len() implies b.subrange(at, mid)[i] == x[i] by {
                assert(b.subrange(at, end)[i] == (x + y)[i]);
            }
        }
        assert(b.subrange(mid, end) =~= y) by {
            assert forall|i: int| 0 <= i < y.len() implies b.subrange(mid, end)[i] == y[i] by {
                assert(b.subrange(at, end)[x.len() + i] == (x + y)[x.len() + i]);
            }
        }
    }
    if occurs(b, at, x) && occurs(b, mid, y) {
        assert(b.subrange(at, end) =~= x + y) by {
            assert forall|i: int| 0 <= i < x.len() + y.len() implies b.subrange(at, end)[i] == (x
                + y)[i] by {
                if i < x.len() {
                    assert(b.subrange(at, mid)[i] == x[i]);
                } else {
                    assert(b.subrange(mid, end)[i - x.len()] == y[i - x.len()]);
                }
            }
        }
    }
}

/// A single byte stands at `at` exactly where `b` has it there.
pub proof fn lemma_occurs_byte(b: Seq<u8>, at: int, c: u8)
    ensures
        occurs(b, at, seq![c]) <==> 0 <= at < b.len() && b[at] == c,
{
    if occurs(b, at, seq![c]) {
        assert(b.subrange(at, at + 1)[0] == seq![c][0]);
    }
    if 0 <= at < b.len() && b[at] == c {
        assert(b.subrange(at, at + 1) =~= seq![c]);
    }
}

/// What is read as a byte string is written as one: the bytes that were read
/// are the byte string's encoding.
pub proof fn lemma_byte_string_sound(b: Seq<u8>, at: int)
    ensures
        parse_byte_string(b, at) matches Ok((bytes, end)) ==> at < end && occurs(
            b,
            at,
            byte_string_text(bytes),
        ) && end == at + byte_string_text(bytes).len(),
{
    if let Ok((bytes, end)) = parse_byte_string(b, at) {
        let stop = digit_run(b, at);
        let digits = b.subrange(at, stop);
        lemma_digit_run(b, at);
        lemma_decimal_of_value(digits);
        assert(b.subrange(at, end) =~= digits + seq![SEPARATOR] + bytes);
    }
}

/// A byte string's encoding is read as that byte string.
pub proof fn lemma_byte_string_complete(b: Seq<u8>, at: int, bytes: Seq<u8>)
    requires
        occurs(b, at, byte_string_text(bytes)),
    ensures
        parse_byte_string(b, at) == read_to(bytes, at + byte_string_text(bytes).len()),
        is_digit(b[at]),
{
    let digits = decimal(bytes.len());
    lemma_decimal(bytes.len());
    lemma_occurs_concat(b, at, digits + seq![SEPARATOR], bytes);
    lemma_occurs_concat(b, at, digits, seq![SEPARATOR]);
    let stop = at + digits.len();
    lemma_occurs_byte(b, stop, SEPARATOR);
    lemma_digit_run_is(b, at, stop);
}

/// What is read as an integer is written as one, and fits in 64 bits.
pub proof fn lemma_integer_sound(b: Seq<u8>, at: int)
    ensures
        parse_integer(b, at) matches Ok((number, end)) ==> at < end && i64::MIN <= number
            <= i64::MAX && occurs(b, at, integer_text(number)) && end == at + integer_text(
            number,
        ).len(),
{
    if let Ok((number, end)) = parse_integer(b, at) {
        let negative = at + 1 < b.len() && b[at + 1] == MINUS;
        let first = if negative {
            at + 2
        } else {
            at + 1
        };
        let stop = digit_run(b, first);
        let digits = b.subrange(first, stop);
        lemma_digit_run(b, first);
        lemma_decimal_of_value(digits);
        if negative {
            assert(b.subrange(at, end) =~= seq![INTEGER_MARK] + (seq![MINUS] + digits) + seq![
                END_MARK,
            ]);
        } else {
            assert(b.subrange(at, end) =~= seq![INTEGER_MARK] + digits + seq![END_MARK]);
        }
    }
}

/// An integer's encoding is read as that integer.
pub proof fn lemma_integer_complete(b: Seq<u8>, at: int, number: int)
    requires
        i64::MIN <= number <= i64::MAX,
        occurs(b, at, integer_text(number)),
    ensures
        parse_integer(b, at) == read_to(number, at + integer_text(number).len()),
        b[at] == INTEGER_MARK,
{
    let text = number_text(number);
    lemma_occurs_concat(b, at, seq![INTEGER_MARK] + text, seq![END_MARK]);
    lemma_occurs_concat(b, at, seq![INTEGER_MARK], text);
    lemma_occurs_byte(b, at, INTEGER_MARK);
    lemma_occurs_byte(b, at + 1 + text.len(), END_MARK);
    if number < 0 {
        let digits = decimal((-number) as nat);
        lemma_decimal((-number) as nat);
        lemma_occurs_concat(b, at + 1, seq![MINUS], digits);
        lemma_occurs_byte(b, at + 1, MINUS);
        lemma_digit_run_is(b, at + 2, at + 2 + digits.len());
    } else {
        let digits = decimal(number as nat);
        lemma_decimal(number as nat);
        lemma_digit_run_is(b, at + 1, at + 1 + digits.len());
    }
}

/// The encodings of the pairs' keys and values, pair after pair.
pub open spec fn pairs_text(pairs: Seq<(Seq<u8>, Tree)>) -> Seq<u8>
    decreases pairs.len(),
{
    if pairs.len() == 0 {
        Seq::empty()
    } else {
        byte_string_text(pairs[0].0) + encoding(pairs[0].1) + pairs_text(pairs.drop_first())
    }
}

/// Where a mapping has for each pair's key the pair's value, writing its
/// entries by the pairs' keys writes the pairs.
pub proof fn lemma_entries_text_of_pairs(pairs: Seq<(Seq<u8>, Tree)>, m: Map<Seq<u8>, Tree>)
    requires
        m.dom().finite(),
        forall|i: int|
            0 <= i < pairs.len() ==> m.dom().contains((#[trigger] pairs[i]).0) && m[pairs[i].0]
                == pairs[i].1,
    ensures
        entries_text(keys_of(pairs), m) == pairs_text(pairs),
    decreases pairs.len(),
{
    let keys = keys_of(pairs);
    if pairs.len() > 0 {
        let rest = pairs.drop_first();
        assert(keys.drop_first() =~= keys_of(rest));
        lemma_entries_text_of_pairs(rest, m);
        assert(entry_value_text(keys[0], m) == encoding(pairs[0].1));
    }
}

/// What the content of a dictionary owes to the pairs that were read for it.
proof fn lemma_dictionary_of_pairs(pairs: Seq<(Seq<u8>, Tree)>, depth: nat, strict: bool)
    requires
        keys_of(pairs).no_duplicates(),
        strict ==> strictly_increasing(keys_of(pairs)),
        forall|i: int|
            0 <= i < pairs.len() ==> representable((#[trigger] pairs[i]).1) && within_depth(
                pairs[i].1,
                depth,
            ),
    ensures
        representable(Tree::Dictionary(map_of_pairs(pairs))),
        within_depth(Tree::Dictionary(map_of_pairs(pairs)), depth + 1),
        strict ==> encoding(Tree::Dictionary(map_of_pairs(pairs))) == seq![DICTIONARY_MARK]
            + pairs_text(pairs) + seq![END_MARK],
{
    let m = map_of_pairs(pairs);
    let keys = keys_of(pairs);
    lemma_map_of_pairs(pairs);
    assert forall|i: int| 0 <= i < pairs.len() implies m.dom().contains((#[trigger] pairs[i]).0)
        && m[pairs[i].0] == pairs[i].1 by {
        lemma_map_of_pairs_index(pairs, i);
    }
    assert forall|k: Seq<u8>| m.dom().contains(k) implies representable(#[trigger] m[k])
        && within_depth(m[k], depth) by {
        assert(keys.contains(k));
        let i = choose|i: int| 0 <= i < keys.len() && keys[i] == k;
        assert(pairs[i].0 == k);
    }
    if strict {
        lemma_sorted_keys_of_increasing(keys);
        lemma_entries_text_of_pairs(pairs, m);
    }
}

/// What strict decoding reads is a canonical encoding, and what any decoding
/// reads is at least one byte long, fits in memory and keeps to the depth.
pub proof fn lemma_value_sound(b: Seq<u8>, at: int, depth: nat, strict: bool)
    ensures
        parse_value(b, at, depth, strict) matches Ok((tree, end)) ==> {
            &&& 0 <= at < end <= b.len()
            &&& representable(tree)
            &&& within_depth(tree, depth)
            &&& strict ==> occurs(b, at, encoding(tree)) && end == at + encoding(tree).len()
        },
    decreases 2 * depth, 0nat,
{
    if let Ok((tree, end)) = parse_value(b, at, depth, strict) {
        if is_digit(b[at]) || b[at] == SEPARATOR {
            lemma_byte_string_sound(b, at);
        } else if b[at] == INTEGER_MARK {
            lemma_integer_sound(b, at);
        } else if b[at] == LIST_MARK {
            let inner = (depth - 1) as nat;
            lemma_items_sound(b, at + 1, inner, strict);
            let items = tree->List_0;
            if strict {
                lemma_occurs_byte(b, at, LIST_MARK);
                lemma_occurs_concat(b, at, seq![LIST_MARK], items_text(items) + seq![END_MARK]);
                assert(seq![LIST_MARK] + (items_text(items) + seq![END_MARK]) =~= encoding(tree));
            }
        } else {
            let inner = (depth - 1) as nat;
            let seen = Seq::<Seq<u8>>::empty();
            lemma_entries_sound(b, at + 1, inner, strict, seen);
            let pairs = parse_entries(b, at + 1, inner, strict, seen)->Ok_0.0;
            lemma_dictionary_of_pairs(pairs, inner, strict);
            if strict {
                lemma_occurs_byte(b, at, DICTIONARY_MARK);
                lemma_occurs_concat(
                    b,
                    at,
                    seq![DICTIONARY_MARK],
                    pairs_text(pairs) + seq![END_MARK],
                );
                assert(seq![DICTIONARY_MARK] + (pairs_text(pairs) + seq![END_MARK]) =~= encoding(
                    tree,
                ));
            }
        }
    }
}

/// [`lemma_value_sound`], for the items of a list.
pub proof fn lemma_items_sound(b: Seq<u8>, at: int, depth: nat, strict: bool)
    ensures
        parse_items(b, at, depth, strict) matches Ok((items, end)) ==> {
            &&& 0 <= at < end <= b.len()
            &&& forall|i: int|
                0 <= i < items.len() ==> representable(#[trigger] items[i]) && within_depth(
                    items[i],
                    depth,
                )
            &&& strict ==> occurs(b, at, items_text(items) + seq![END_MARK]) && end == at
                + items_text(items).len() + 1
        },
    decreases 2 * depth + 1, b.len() - at,
{
    if let Ok((items, end)) = parse_items(b, at, depth, strict) {
        if b[at] == END_MARK {
            lemma_occurs_byte(b, at, END_MARK);
        } else {
            lemma_value_sound(b, at, depth, strict);
            let (item, next) = parse_value(b, at, depth, strict)->Ok_0;
            lemma_items_sound(b, next, depth, strict);
            let (rest, _) = parse_items(b, next, depth, strict)->Ok_0;
            if strict {
                assert(items.drop_first() =~= rest);
                lemma_occurs_concat(b, at, encoding(item), items_text(rest) + seq![END_MARK]);
                assert(encoding(item) + (items_text(rest) + seq![END_MARK]) =~= items_text(items)
                    + seq![END_MARK]);
            }
        }
    }
}

/// [`lemma_value_sound`], for the entries of a dictionary: the keys read
/// continue `seen` without a repeat, and in strict mode in increasing order.
pub proof fn lemma_entries_sound(
    b: Seq<u8>,
    at: int,
    depth: nat,
    strict: bool,
    seen: Seq<Seq<u8>>,
)
    requires
        seen.no_duplicates(),
        strict ==> strictly_increasing(seen),
    ensures
        parse_entries(b, at, depth, strict, seen) matches Ok((pairs, end)) ==> {
            &&& 0 <= at < end <= b.len()
            &&& (seen + keys_of(pairs)).no_duplicates()
            &&& strict ==> strictly_increasing(seen + keys_of(pairs))
            &&& forall|i: int|
                0 <= i < pairs.len() ==> representable((#[trigger] pairs[i]).1) && within_depth(
                    pairs[i].1,
                    depth,
                )
            &&& strict ==> occurs(b, at, pairs_text(pairs) + seq![END_MARK]) && end == at
                + pairs_text(pairs).len() + 1
        },
    decreases 2 * depth + 1, b.len() - at,
{
    if let Ok((pairs, end)) = parse_entries(b, at, depth, strict, seen) {
        if b[at] == END_MARK {
            lemma_occurs_byte(b, at, END_MARK);
        } else {
            lemma_byte_string_sound(b, at);
            let (key, middle) = parse_byte_string(b, at)->Ok_0;
            lemma_value_sound(b, middle, depth, strict);
            let (value, next) = parse_value(b, middle, depth, strict)->Ok_0;
            let grown = seen.push(key);
            lemma_key_follows(seen, key, strict);
            lemma_entries_sound(b, next, depth, strict, grown);
            let (rest, _) = parse_entries(b, next, depth, strict, grown)->Ok_0;
            assert(grown + keys_of(rest) =~= seen + keys_of(pairs));
            if strict {
                assert(pairs.drop_first() =~= rest);
                let tail = pairs_text(rest) + seq![END_MARK];
                lemma_occurs_concat(b, middle, encoding(value), tail);
                lemma_occurs_concat(b, at, byte_string_text(key), encoding(value) + tail);
                assert(byte_string_text(key) + (encoding(value) + tail) =~= pairs_text(pairs)
                    + seq![END_MARK]);
            }
        }
    }
}

/// An encoding is never empty, and its first byte tells the shape: a digit
/// for a byte string, `i`, `l` or `d` for the others.
pub proof fn lemma_first_byte(tree: Tree)
    ensures
        encoding(tree).len() > 0,
        match tree {
            Tree::ByteString(_) => is_digit(encoding(tree)[0]),
            Tree::Integer(_) => encoding(tree)[0] == INTEGER_MARK,
            Tree::List(_) => encoding(tree)[0] == LIST_MARK,
            Tree::Dictionary(_) => encoding(tree)[0] == DICTIONARY_MARK,
        },
{
    match tree {
        Tree::ByteString(bytes) => {
            lemma_decimal(bytes.len());
            let digits = decimal(bytes.len());
            assert(is_digit(digits[0]));
            assert(encoding(tree)[0] == digits[0]);
        },
        _ => {},
    }
}

/// The pairs of `keys` with the values that `m` has for them.
pub open spec fn pairs_for(keys: Seq<Seq<u8>>, m: Map<Seq<u8>, Tree>) -> Seq<(Seq<u8>, Tree)> {
    Seq::new(keys.len(), |i: int| (keys[i], m[keys[i]]))
}

/// The pairs of a mapping's keys, each key once, stand for the mapping.
pub proof fn lemma_map_of_pairs_for(keys: Seq<Seq<u8>>, m: Map<Seq<u8>, Tree>)
    requires
        keys.no_duplicates(),
        keys.to_set() == m.dom(),
    ensures
        map_of_pairs(pairs_for(keys, m)) == m,
{
    let pairs = pairs_for(keys, m);
    let made = map_of_pairs(pairs);
    assert(keys_of(pairs) =~= keys);
    lemma_map_of_pairs(pairs);
    assert forall|k: Seq<u8>| #[trigger] made.dom().contains(k) implies made[k] == m[k] by {
        let i = choose|i: int| 0 <= i < keys.len() && keys[i] == k;
        lemma_map_of_pairs_index(pairs, i);
    }
}

/// The encoding of a value that fits in memory and keeps to the depth is read
/// as that value, in either mode, wherever it stands.
pub proof fn lemma_value_complete(tree: Tree, b: Seq<u8>, at: int, depth: nat, strict: bool)
    requires
        representable(tree),
        within_depth(tree, depth),
        occurs(b, at, encoding(tree)),
    ensures
        parse_value(b, at, depth, strict) == read_to(tree, at + encoding(tree).len()),
    decreases tree, 0nat,
{
    assert(b[at] == encoding(tree)[0]);
    match tree {
        Tree::ByteString(bytes) => {
            lemma_byte_string_complete(b, at, bytes);
        },
        Tree::Integer(number) => {
            lemma_integer_complete(b, at, number);
        },
        Tree::List(items) => {
            let inner = (depth - 1) as nat;
            let body = items_text(items) + seq![END_MARK];
            assert(encoding(tree) =~= seq![LIST_MARK] + body);
            lemma_occurs_concat(b, at, seq![LIST_MARK], body);
            lemma_items_complete(items, b, at + 1, inner, strict);
        },
        Tree::Dictionary(m) => {
            let inner = (depth - 1) as nat;
            let keys = sorted_keys(m.dom());
            lemma_sorted_keys(m.dom());
            lemma_increasing_no_duplicates(keys);
            let body = entries_text(keys, m) + seq![END_MARK];
            assert(encoding(tree) =~= seq![DICTIONARY_MARK] + body);
            lemma_occurs_concat(b, at, seq![DICTIONARY_MARK], body);
            assert(keys.skip(0) =~= keys);
            assert(keys.take(0) =~= Seq::<Seq<u8>>::empty());
            lemma_entries_complete(keys, 0, m, b, at + 1, inner, strict);
            lemma_map_of_pairs_for(keys, m);
        },
    }
}

/// [`lemma_value_complete`], for the items of a list.
pub proof fn lemma_items_complete(items: Seq<Tree>, b: Seq<u8>, at: int, depth: nat, strict: bool)
    requires
        forall|i: int|
            0 <= i < items.len() ==> representable(#[trigger] items[i]) && within_depth(
                items[i],
                depth,
            ),
        occurs(b, at, items_text(items) + seq![END_MARK]),
    ensures
        parse_items(b, at, depth, strict) == read_to(items, at + items_text(items).len() + 1),
    decreases items, 1nat,
{
    if items.len() == 0 {
        lemma_occurs_byte(b, at, END_MARK);
        assert(items =~= Seq::<Tree>::empty());
    } else {
        let item = items[0];
        let rest = items.drop_first();
        let tail = items_text(rest) + seq![END_MARK];
        assert(items_text(items) + seq![END_MARK] =~= encoding(item) + tail);
        lemma_occurs_concat(b, at, encoding(item), tail);
        lemma_value_complete(item, b, at, depth, strict);
        lemma_items_complete(rest, b, at + encoding(item).len(), depth, strict);
        assert(seq![item] + rest =~= items);
    }
}

/// [`lemma_value_complete`], for the entries of a dictionary from the key at
/// index `from` on, the keys before it having been read.
pub proof fn lemma_entries_complete(
    keys: Seq<Seq<u8>>,
    from: int,
    m: Map<Seq<u8>, Tree>,
    b: Seq<u8>,
    at: int,
    depth: nat,
    strict: bool,
)
    requires
        m.dom().finite(),
        strictly_increasing(keys),
        keys.to_set() == m.dom(),
        forall|k: Seq<u8>|
            m.dom().contains(k) ==> representable(#[trigger] m[k]) && within_depth(m[k], depth),
        0 <= from <= keys.len(),
        occurs(b, at, entries_text(keys.skip(from), m) + seq![END_MARK]),
    ensures
        parse_entries(b, at, depth, strict, keys.take(from)) == read_to(
            pairs_for(keys.skip(from), m),
            at + entries_text(keys.skip(from), m).len() + 1,
        ),
    decreases m, keys.len() - from,
{
    let left = keys.skip(from);
    let seen = keys.take(from);
    if from == keys.len() {
        assert(left =~= Seq::<Seq<u8>>::empty());
        assert(entries_text(left, m) + seq![END_MARK] =~= seq![END_MARK]);
        lemma_occurs_byte(b, at, END_MARK);
        assert(pairs_for(left, m) =~= Seq::<(Seq<u8>, Tree)>::empty());
    } else {
        let key = keys[from];
        assert(left[0] == key);
        assert(left.drop_first() =~= keys.skip(from + 1));
        assert(keys.contains(key));
        assert(m.dom().contains(key));
        let value = m[key];
        let tail = entries_text(keys.skip(from + 1), m) + seq![END_MARK];
        assert(entry_value_text(key, m) == encoding(value));
        assert(entries_text(left, m) + seq![END_MARK] =~= byte_string_text(key) + (encoding(value)
            + tail));
        lemma_occurs_concat(b, at, byte_string_text(key), encoding(value) + tail);
        let middle = at + byte_string_text(key).len();
        lemma_occurs_concat(b, middle, encoding(value), tail);
        lemma_byte_string_complete(b, at, key);
        lemma_increasing_no_duplicates(keys);
        assert(key_allowed(seen, key, strict)) by {
            if strict {
                if from > 0 {
                    assert(seen.last() == keys[from - 1]);
                }
            } else {
                if seen.contains(key) {
                    let i = choose|i: int| 0 <= i < seen.len() && seen[i] == key;
                    assert(keys[i] == keys[from]);
                }
            }
        }
        lemma_value_complete(value, b, middle, depth, strict);
        lemma_first_byte(value);
        assert(seen.push(key) =~= keys.take(from + 1));
        lemma_entries_complete(keys, from + 1, m, b, middle + encoding(value).len(), depth, strict);
        assert(seq![(key, value)] + pairs_for(keys.skip(from + 1), m) =~= pairs_for(left, m));
    }
}

/// What strict mode reads, permissive mode reads as the same value.
pub proof fn lemma_value_permissive(b: Seq<u8>, at: int, depth: nat)
    ensures
        parse_value(b, at, depth, true) is Ok ==> parse_value(b, at, depth, false) == parse_value(
            b,
            at,
            depth,
            true,
        ),
    decreases 2 * depth, 0nat,
{
    if parse_value(b, at, depth, true) is Ok {
        if b[at] == LIST_MARK {
            lemma_items_permissive(b, at + 1, (depth - 1) as nat);
        } else if b[at] == DICTIONARY_MARK {
            lemma_entries_permissive(b, at + 1, (depth - 1) as nat, Seq::empty());
        }
    }
}

/// [`lemma_value_permissive`], for the items of a list.
pub proof fn lemma_items_permissive(b: Seq<u8>, at: int, depth: nat)
    ensures
        parse_items(b, at, depth, true) is Ok ==> parse_items(b, at, depth, false) == parse_items(
            b,
            at,
            depth,
            true,
        ),
    decreases 2 * depth + 1, b.len() - at,
{
    if parse_items(b, at, depth, true) is Ok && b[at] != END_MARK {
        lemma_value_permissive(b, at, depth);
        let (_, next) = parse_value(b, at, depth, true)->Ok_0;
        lemma_items_permissive(b, next, depth);
    }
}

/// [`lemma_value_permissive`], for the entries of a dictionary behind keys in
/// increasing order.
pub proof fn lemma_entries_permissive(b: Seq<u8>, at: int, depth: nat, seen: Seq<Seq<u8>>)
    requires
        strictly_increasing(seen),
    ensures
        parse_entries(b, at, depth, true, seen) is Ok ==> parse_entries(b, at, depth, false, seen)
            == parse_entries(b, at, depth, true, seen),
    decreases 2 * depth + 1, b.len() - at,
{
    if parse_entries(b, at, depth, true, seen) is Ok && b[at] != END_MARK {
        let (key, middle) = parse_byte_string(b, at)->Ok_0;
        lemma_increasing_no_duplicates(seen);
        lemma_key_follows(seen, key, true);
        let grown = seen.push(key);
        if seen.contains(key) {
            let i = choose|i: int| 0 <= i < seen.len() && seen[i] == key;
            assert(grown[i] == grown[seen.len() as int]);
        }
        lemma_value_permissive(b, middle, depth);
        let (_, next) = parse_value(b, middle, depth, true)->Ok_0;
        lemma_entries_permissive(b, next, depth, grown);
    }
}

/// `b` is the canonical encoding of a value whose containers are nested at
/// most `depth` deep.
pub open spec fn canonical(b: Seq<u8>, depth: nat) -> bool {
    exists|tree: Tree| representable(tree) && within_depth(tree, depth) && encoding(tree) == b
}

/// Round trip: decoding the encoding of a value gives the value back and
/// consumes the whole encoding. This holds in strict and in permissive mode,
/// whether trailing bytes are refused or not, for every value whose containers
/// are nested no deeper than the options allow.
pub proof fn law_round_trip(tree: Tree, options: Options)
    requires
        representable(tree),
        within_depth(tree, options.max_depth as nat),
    ensures
        decoded(encoding(tree), 0, options) == read_to(tree, encoding(tree).len() as int),
{
    let b = encoding(tree);
    assert(b.subrange(0, b.len() as int) =~= b);
    lemma_value_complete(tree, b, 0, options.max_depth as nat, options.strict);
}

/// Round trip, for a value in memory: decoding what the encoder writes for
/// `value` gives a value of the same content.
pub proof fn law_round_trip_of_value(value: Kind, options: Options)
    requires
        within_depth(value@, options.max_depth as nat),
    ensures
        decoded(encoding(value@), 0, options) == read_to(value@, encoding(value@).len() as int),
{
    lemma_representable(value);
    law_round_trip(value@, options);
}

/// Strict decoding accepts canonical encodings only: the bytes that it
/// consumed are the encoding of the value that it returns.
pub proof fn law_strict_decoding_is_canonical(b: Seq<u8>, at: int, options: Options)
    requires
        options.strict,
    ensures
        decoded(b, at, options) matches Ok((tree, end)) ==> 0 <= at < end <= b.len()
            && b.subrange(at, end) == encoding(tree) && canonical(
            b.subrange(at, end),
            options.max_depth as nat,
        ),
{
    lemma_value_sound(b, at, options.max_depth as nat, options.strict);
}

/// Canonical idempotence: a canonical byte sequence decodes, as a whole, to a
/// value whose encoding is that byte sequence again.
pub proof fn law_canonical_idempotence(b: Seq<u8>, options: Options)
    requires
        canonical(b, options.max_depth as nat),
    ensures
        decoded(b, 0, options) matches Ok((tree, end)) && end == b.len() && encoding(tree) == b,
{
    let tree = choose|tree: Tree|
        representable(tree) && within_depth(tree, options.max_depth as nat) && encoding(tree) == b;
    law_round_trip(tree, options);
}

/// Permissive mode extends strict mode: what decodes in strict mode decodes
/// in permissive mode to the same value, with the same number of bytes
/// consumed.
pub proof fn law_permissive_extends_strict(b: Seq<u8>, at: int, options: Options)
    requires
        options.strict,
    ensures
        decoded(b, at, options) is Ok ==> decoded(
            b,
            at,
            Options { strict: false, ..options },
        ) == decoded(b, at, options),
{
    lemma_value_permissive(b, at, options.max_depth as nat);
}

/// What was read is in canonical form exactly where strict mode reads it too:
/// in either mode, strict mode reads a value where decoding has read one if
/// and only if the bytes consumed are the encoding of the value read.
pub proof fn law_strict_mode_reads_the_canonical(b: Seq<u8>, at: int, options: Options)
    ensures
        decoded(b, at, options) matches Ok((tree, end)) ==> (in_strict_mode(b, at, options) <==> 0
            <= at <= end <= b.len() && b.subrange(at, end) == encoding(tree)),
{
    let depth = options.max_depth as nat;
    if let Ok((tree, end)) = decoded(b, at, options) {
        lemma_value_sound(b, at, depth, options.strict);
        if in_strict_mode(b, at, options) {
            lemma_value_permissive(b, at, depth);
            lemma_value_sound(b, at, depth, true);
        }
        if b.subrange(at, end) == encoding(tree) {
            lemma_value_complete(tree, b, at, depth, true);
        }
    }
}

} // verus!
