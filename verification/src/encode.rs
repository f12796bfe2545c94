//! The canonical encoding of a value, and the encoder that writes it.

use crate::decimal::{decimal, push_decimal};
use crate::key_order::{is_key_order, key_order, picked_keys};
use crate::marks::{DICTIONARY_MARK, END_MARK, INTEGER_MARK, LIST_MARK, MINUS, SEPARATOR};
use crate::order::{lemma_sorted_keys_of_increasing, sorted_keys};
use crate::value::{map_of, tree_of, trees_of, Kind, Tree};
use vstd::prelude::*;

verus! {

/// A byte string is written as its length in decimal, `:`, and its bytes.
pub open spec fn byte_string_text(s: Seq<u8>) -> Seq<u8> {
    decimal(s.len()) + seq![SEPARATOR] + s
}

/// A number is written in decimal, with `-` in front if it is negative.
pub open spec fn number_text(i: int) -> Seq<u8> {
    if i < 0 {
        seq![MINUS] + decimal((-i) as nat)
    } else {
        decimal(i as nat)
    }
}

/// An integer is written as `i`, the number, and `e`.
pub open spec fn integer_text(i: int) -> Seq<u8> {
    seq![INTEGER_MARK] + number_text(i) + seq![END_MARK]
}

/// The canonical encoding of `t`. A list is `l`, its items' encodings in
/// order, and `e`. A dictionary is `d`, for each key in increasing order the
/// key as a byte string and the encoding of its value, and `e`.
pub open spec fn encoding(t: Tree) -> Seq<u8>
    decreases t, 0nat,
{
    match t {
        Tree::ByteString(s) => byte_string_text(s),
        Tree::Integer(i) => integer_text(i),
        Tree::List(items) => seq![LIST_MARK] + items_text(items) + seq![END_MARK],
        Tree::Dictionary(m) => seq![DICTIONARY_MARK] + entries_text(sorted_keys(m.dom()), m)
            + seq![END_MARK],
    }
}

/// The encodings of `items`, one after the other.
pub open spec fn items_text(items: Seq<Tree>) -> Seq<u8>
    decreases items, items.len(),
{
    if items.len() == 0 {
        Seq::empty()
    } else {
        encoding(items[0]) + items_text(items.drop_first())
    }
}

/// For each of `keys` in turn, the key as a byte string and the encoding of
/// the value that `m` has for it.
pub open spec fn entries_text(keys: Seq<Seq<u8>>, m: Map<Seq<u8>, Tree>) -> Seq<u8>
    decreases m, keys.len(),
{
    if keys.len() == 0 {
        Seq::empty()
    } else {
        byte_string_text(keys[0]) + entry_value_text(keys[0], m) + entries_text(
            keys.drop_first(),
            m,
        )
    }
}

/// The encoding of the value that `m` has for `key`; empty where it has none.
pub open spec fn entry_value_text(key: Seq<u8>, m: Map<Seq<u8>, Tree>) -> Seq<u8>
    decreases m, 0nat,
{
    if m.dom().finite() && m.dom().contains(key) {
        encoding(m[key])
    } else {
        Seq::empty()
    }
}

/// Writing one more item after `items` appends its encoding.
pub proof fn lemma_items_text_push(items: Seq<Tree>, x: Tree)
    ensures
        items_text(items.push(x)) == items_text(items) + encoding(x),
    decreases items.len(),
{
    let all = items.push(x);
    if items.len() == 0 {
        assert(all.drop_first() =~= Seq::<Tree>::empty());
        assert(items_text(Seq::<Tree>::empty()) =~= Seq::<u8>::empty());
    } else {
        lemma_items_text_push(items.drop_first(), x);
        assert(all.drop_first() =~= items.drop_first().push(x));
    }
}

/// Writing one more entry after those of `keys` appends the key and the
/// encoding of its value.
pub proof fn lemma_entries_text_push(keys: Seq<Seq<u8>>, key: Seq<u8>, m: Map<Seq<u8>, Tree>)
    ensures
        entries_text(keys.push(key), m) == entries_text(keys, m) + byte_string_text(key)
            + entry_value_text(key, m),
    decreases keys.len(),
{
    let all = keys.push(key);
    if keys.len() == 0 {
        assert(all.drop_first() =~= Seq::<Seq<u8>>::empty());
        assert(entries_text(Seq::<Seq<u8>>::empty(), m) =~= Seq::<u8>::empty());
    } else {
        lemma_entries_text_push(keys.drop_first(), key, m);
        assert(all.drop_first() =~= keys.drop_first().push(key));
    }
}

/// Appends to `out` a byte string: its length, `:`, its bytes.
pub fn encode_byte_string(bytes: &[u8], out: &mut Vec<u8>)
    ensures
        final(out)@ == old(out)@ + byte_string_text(bytes@),
{
    push_decimal(out, bytes.len() as u64);
    out.push(SEPARATOR);
    out.extend_from_slice(bytes);
}

/// Appends to `out` an integer: `i`, the number in decimal, `e`.
pub fn encode_integer(i: i64, out: &mut Vec<u8>)
    ensures
        final(out)@ == old(out)@ + integer_text(i as int),
{
    out.push(INTEGER_MARK);
    if i < 0 {
        out.push(MINUS);
        let magnitude: u64 = ((-(i + 1)) as u64) + 1;
        push_decimal(out, magnitude);
    } else {
        push_decimal(out, i as u64);
    }
    out.push(END_MARK);
}

/// The canonical encoding of `value`.
///
/// Never fails. The keys of a dictionary are written in increasing order,
/// whatever the order of its entries in memory.
pub fn encode(value: &Kind) -> (out: Vec<u8>)
    ensures
        out@ == encoding(value@),
{
    let mut out: Vec<u8> = Vec::new();
    encode_into(value, &mut out);
    out
}

/// Appends the canonical encoding of `value` to `out`.
pub fn encode_into(value: &Kind, out: &mut Vec<u8>)
    ensures
        final(out)@ == old(out)@ + encoding(value@),
    decreases value,
{
    match value {
        Kind::ByteString(bytes) => {
            encode_byte_string(bytes.as_slice(), out);
        },
        Kind::Integer(i) => {
            encode_integer(*i, out);
        },
        Kind::List(items) => {
            out.push(LIST_MARK);
            let mut n: usize = 0;
            while n < items.len()
                invariant
                    n <= items.len(),
                    *value == Kind::List(*items),
                    out@ == old(out)@ + seq![LIST_MARK] + items_text(trees_of(items@.take(n as int))),
                decreases items.len() - n,
            {
                proof {
                    let before = items@.take(n as int);
                    let after = items@.take(n + 1);
                    assert(after.drop_last() =~= before);
                    lemma_items_text_push(trees_of(before), tree_of(items@[n as int]));
                }
                assert(decreases_to!(*value => value->List_0));
                encode_into(&items[n], out);
                n += 1;
            }
            assert(items@.take(n as int) =~= items@);
            out.push(END_MARK);
        },
        Kind::Dictionary(entries) => {
            let order = key_order(entries);
            let ghost m = map_of(entries@);
            let ghost keys = picked_keys(entries@, order@);
            out.push(DICTIONARY_MARK);
            let mut n: usize = 0;
            while n < order.len()
                invariant
                    n <= order.len(),
                    *value == Kind::Dictionary(*entries),
                    m == map_of(entries@),
                    keys == picked_keys(entries@, order@),
                    is_key_order(entries@, order@),
                    out@ == old(out)@ + seq![DICTIONARY_MARK] + entries_text(keys.take(n as int), m),
                decreases order.len() - n,
            {
                let at = order[n];
                let entry = &entries[at];
                proof {
                    assert(keys[n as int] == entry.0@);
                    assert(keys.take(n + 1) =~= keys.take(n as int).push(entry.0@));
                    lemma_entries_text_push(keys.take(n as int), entry.0@, m);
                }
                encode_byte_string(entry.0.as_slice(), out);
                assert(decreases_to!(*value => value->Dictionary_0));
                encode_into(&entry.1, out);
                n += 1;
            }
            proof {
                assert(keys.take(n as int) =~= keys);
                lemma_sorted_keys_of_increasing(keys);
            }
            out.push(END_MARK);
        },
    }
}

} // verus!
