//! A value as a JSON tree, for display: byte strings become text, integers
//! numbers, lists arrays and dictionaries objects.

use crate::decode::{decode, decoded, Options};
use crate::error::DecodeError;
use crate::key_order::{is_key_order, key_order, picked_keys};
use crate::order::{lemma_sorted_keys_of_increasing, sorted_keys};
use crate::value::{map_of, tree_of, trees_of, Kind, Tree};
use vstd::prelude::*;
use vstd::string::StringSliceAdditionalSpecFns;
use vstd::utf8::{decode_utf8, valid_utf8};

verus! {

/// `serde_json::Value`, a JSON tree. Nothing of its inside is visible here.
#[verifier::external_type_specification]
#[verifier::external_body]
pub struct ExJsonValue(serde_json::Value);

/// The text that `String::from_utf8_lossy` makes of `bytes`.
pub uninterp spec fn lossy_text(bytes: Seq<u8>) -> Seq<char>;

/// The JSON string that holds `text`: `serde_json::Value::String`.
pub uninterp spec fn json_string(text: Seq<char>) -> serde_json::Value;

/// The JSON number `number`: what `serde_json::Value::from` makes of an `i64`.
pub uninterp spec fn json_number(number: int) -> serde_json::Value;

/// The JSON array of `items`: `serde_json::Value::Array`.
pub uninterp spec fn json_array(items: Seq<serde_json::Value>) -> serde_json::Value;

/// The JSON object that results when `members` are put, in their order, into
/// an empty `serde_json::Map`: `serde_json::Value::Object`.
pub uninterp spec fn json_object(
    members: Seq<(Seq<char>, serde_json::Value)>,
) -> serde_json::Value;

/// Calls `String::from_utf8_lossy`. The text is a function of the bytes, and
/// where the bytes are valid UTF-8 it is the text that they encode.
#[verifier::external_body]
fn text_of_bytes(bytes: &[u8]) -> (text: String)
    ensures
        text@ == lossy_text(bytes@),
        valid_utf8(bytes@) ==> text@ == decode_utf8(bytes@),
{
    String::from_utf8_lossy(bytes).into_owned()
}

/// Builds `serde_json::Value::String`. The result is a function of the text.
#[verifier::external_body]
fn string_to_json(text: String) -> (json: serde_json::Value)
    ensures
        json == json_string(text@),
{
    serde_json::Value::String(text)
}

/// Calls `serde_json::Value::from` on an `i64`. The result is a function of
/// the number.
#[verifier::external_body]
fn number_to_json(number: i64) -> (json: serde_json::Value)
    ensures
        json == json_number(number as int),
{
    serde_json::Value::from(number)
}

/// Builds `serde_json::Value::Array`. The result is a function of the items.
#[verifier::external_body]
fn array_to_json(items: Vec<serde_json::Value>) -> (json: serde_json::Value)
    ensures
        json == json_array(items@),
{
    serde_json::Value::Array(items)
}

/// The members of an object as mathematical values: each key by its
/// characters.
pub open spec fn members_view(members: Seq<(String, serde_json::Value)>) -> Seq<
    (Seq<char>, serde_json::Value),
> {
    Seq::new(members.len(), |i: int| (members[i].0@, members[i].1))
}

/// Calls `serde_json::Map::from_iter` and builds
/// `serde_json::Value::Object` of the map. The result is a function of the
/// members in their order.
#[verifier::external_body]
fn object_to_json(members: Vec<(String, serde_json::Value)>) -> (json: serde_json::Value)
    ensures
        json == json_object(members_view(members@)),
{
    serde_json::Value::Object(serde_json::Map::from_iter(members))
}

/// The JSON tree of a value: a byte string becomes the string of its text,
/// an integer a number, a list the array of its items' trees, a dictionary the
/// object of its entries, taken in increasing order of their keys, each key
/// as text.
pub open spec fn json_of(tree: Tree) -> serde_json::Value
    decreases tree, 0nat,
{
    match tree {
        Tree::ByteString(bytes) => json_string(lossy_text(bytes)),
        Tree::Integer(number) => json_number(number),
        Tree::List(items) => json_array(jsons_of(items)),
        Tree::Dictionary(m) => json_object(members_of(sorted_keys(m.dom()), m)),
    }
}

/// The JSON trees of `items`, in order.
pub open spec fn jsons_of(items: Seq<Tree>) -> Seq<serde_json::Value>
    decreases items, items.len(),
{
    if items.len() == 0 {
        Seq::empty()
    } else {
        jsons_of(items.drop_last()).push(json_of(items.last()))
    }
}

/// For each of `keys` in turn, the key as text and the JSON tree of the value
/// that `m` has for it.
pub open spec fn members_of(keys: Seq<Seq<u8>>, m: Map<Seq<u8>, Tree>) -> Seq<
    (Seq<char>, serde_json::Value),
>
    decreases m, keys.len(),
{
    if keys.len() == 0 {
        Seq::empty()
    } else {
        members_of(keys.drop_last(), m).push((lossy_text(keys.last()), member_json(keys.last(), m)))
    }
}

/// The JSON tree of the value that `m` has for `key`.
pub open spec fn member_json(key: Seq<u8>, m: Map<Seq<u8>, Tree>) -> serde_json::Value
    decreases m, 0nat,
{
    if m.dom().finite() && m.dom().contains(key) {
        json_of(m[key])
    } else {
        json_string(Seq::empty())
    }
}

/// The JSON tree of `value`.
pub fn to_json(value: &Kind) -> (json: serde_json::Value)
    ensures
        json == json_of(value@),
    decreases value,
{
    match value {
        Kind::ByteString(bytes) => string_to_json(text_of_bytes(bytes.as_slice())),
        Kind::Integer(number) => number_to_json(*number),
        Kind::List(items) => {
            let mut made: Vec<serde_json::Value> = Vec::new();
            let mut n: usize = 0;
            while n < items.len()
                invariant
                    n <= items.len(),
                    *value == Kind::List(*items),
                    made@ == jsons_of(trees_of(items@.take(n as int))),
                decreases items.len() - n,
            {
                proof {
                    let before = items@.take(n as int);
                    let after = items@.take(n + 1);
                    assert(after.drop_last() =~= before);
                    assert(trees_of(after).drop_last() =~= trees_of(before));
                    assert(decreases_to!(*value => value->List_0));
                }
                let item = to_json(&items[n]);
                made.push(item);
                n += 1;
            }
            assert(items@.take(n as int) =~= items@);
            array_to_json(made)
        },
        Kind::Dictionary(entries) => {
            let order = key_order(entries);
            let ghost m = map_of(entries@);
            let ghost keys = picked_keys(entries@, order@);
            let mut made: Vec<(String, serde_json::Value)> = Vec::new();
            let mut n: usize = 0;
            while n < order.len()
                invariant
                    n <= order.len(),
                    *value == Kind::Dictionary(*entries),
                    m == map_of(entries@),
                    keys == picked_keys(entries@, order@),
                    is_key_order(entries@, order@),
                    members_view(made@) == members_of(keys.take(n as int), m),
                decreases order.len() - n,
            {
                let at = order[n];
                let entry = &entries[at];
                proof {
                    assert(keys[n as int] == entry.0@);
                    assert(member_json(entry.0@, m) == json_of(tree_of(entry.1)));
                    assert(keys.take(n + 1).drop_last() =~= keys.take(n as int));
                    assert(decreases_to!(*value => value->Dictionary_0));
                }
                let name = text_of_bytes(entry.0.as_slice());
                let member = to_json(&entry.1);
                made.push((name, member));
                n += 1;
            }
            proof {
                assert(keys.take(n as int) =~= keys);
                lemma_sorted_keys_of_increasing(keys);
            }
            object_to_json(made)
        },
    }
}

/// Decodes the value at the start of the text `encoded_value`, as [`decode`]
/// does, and gives its JSON tree.
pub fn decode_bencoded_value(encoded_value: &str) -> (r: Result<serde_json::Value, DecodeError>)
    ensures
        match decoded(encoded_value.spec_bytes(), 0, Options::standard()) {
            Ok((tree, end)) => r matches Ok(json) && json == json_of(tree),
            Err(f) => r matches Err(e) && e@ == f,
        },
{
    match decode(encoded_value.as_bytes()) {
        Ok(data) => Ok(to_json(&data.value)),
        Err(e) => Err(e),
    }
}

} // verus!
