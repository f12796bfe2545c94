//! The value model: the four shapes a bencoded datum can take.

use crate::error::ErrorKind;
use crate::order::bytes_equal;
use vstd::prelude::*;

verus! {

/// A bencode value as stored in memory.
///
/// A dictionary keeps its entries in the order in which they were put in. Its
/// content is a mapping from keys to values; should a key occur more than
/// once, its last entry is the one that counts.
#[derive(Debug)]
pub enum Kind {
    /// Arbitrary bytes, not necessarily text.
    ByteString(Vec<u8>),
    /// A signed 64-bit integer.
    Integer(i64),
    /// Values in order.
    List(Vec<Kind>),
    /// Entries of key and value.
    Dictionary(Vec<(Vec<u8>, Kind)>),
}

/// The mathematical content of a [`Kind`].
pub enum Tree {
    ByteString(Seq<u8>),
    Integer(int),
    List(Seq<Tree>),
    Dictionary(Map<Seq<u8>, Tree>),
}

/// The content of one value.
pub open spec fn tree_of(v: Kind) -> Tree
    decreases v,
{
    match v {
        Kind::ByteString(b) => Tree::ByteString(b@),
        Kind::Integer(i) => Tree::Integer(i as int),
        Kind::List(items) => Tree::List(trees_of(items@)),
        Kind::Dictionary(entries) => Tree::Dictionary(map_of_pairs(pairs_of(entries@))),
    }
}

/// The contents of a list's items, in order.
pub open spec fn trees_of(items: Seq<Kind>) -> Seq<Tree>
    decreases items,
{
    if items.len() == 0 {
        Seq::empty()
    } else {
        trees_of(items.drop_last()).push(tree_of(items.last()))
    }
}

/// A dictionary's entries as pairs of key and content, in stored order.
pub open spec fn pairs_of(entries: Seq<(Vec<u8>, Kind)>) -> Seq<(Seq<u8>, Tree)>
    decreases entries,
{
    if entries.len() == 0 {
        Seq::empty()
    } else {
        pairs_of(entries.drop_last()).push((entries.last().0@, tree_of(entries.last().1)))
    }
}

/// The mapping that a sequence of pairs stands for: a later pair replaces an
/// earlier one with the same key.
pub open spec fn map_of_pairs(pairs: Seq<(Seq<u8>, Tree)>) -> Map<Seq<u8>, Tree>
    decreases pairs.len(),
{
    if pairs.len() == 0 {
        Map::empty()
    } else {
        map_of_pairs(pairs.drop_last()).insert(pairs.last().0, pairs.last().1)
    }
}

/// The mapping that a dictionary's entries stand for.
pub open spec fn map_of(entries: Seq<(Vec<u8>, Kind)>) -> Map<Seq<u8>, Tree> {
    map_of_pairs(pairs_of(entries))
}

/// The keys of `pairs`, in order.
pub open spec fn keys_of(pairs: Seq<(Seq<u8>, Tree)>) -> Seq<Seq<u8>> {
    Seq::new(pairs.len(), |i: int| pairs[i].0)
}

impl View for Kind {
    type V = Tree;

    open spec fn view(&self) -> Tree {
        tree_of(*self)
    }
}

/// A tree that a value in memory can have: its integers fit in 64 bits and its
/// dictionaries are finite.
pub open spec fn representable(t: Tree) -> bool
    decreases t,
{
    match t {
        Tree::ByteString(b) => true,
        Tree::Integer(i) => i64::MIN <= i <= i64::MAX,
        Tree::List(items) => forall|i: int| 0 <= i < items.len() ==> representable(#[trigger] items[i]),
        Tree::Dictionary(m) => m.dom().finite() && forall|k: Seq<u8>|
            m.dom().contains(k) ==> representable(#[trigger] m[k]),
    }
}

/// Containers are nested in `t` at most `depth` deep: a byte string or an
/// integer fits any depth, a container fits if `depth` is positive and each of
/// its members fits `depth - 1`.
pub open spec fn within_depth(t: Tree, depth: nat) -> bool
    decreases t,
{
    match t {
        Tree::ByteString(b) => true,
        Tree::Integer(i) => true,
        Tree::List(items) => depth > 0 && forall|i: int|
            0 <= i < items.len() ==> within_depth(#[trigger] items[i], (depth - 1) as nat),
        Tree::Dictionary(m) => depth > 0 && forall|k: Seq<u8>|
            m.dom().finite() && m.dom().contains(k) ==> within_depth(
                #[trigger] m[k],
                (depth - 1) as nat,
            ),
    }
}

/// No key occurs twice in any dictionary of `v`.
pub open spec fn well_formed(v: Kind) -> bool
    decreases v,
{
    match v {
        Kind::ByteString(b) => true,
        Kind::Integer(i) => true,
        Kind::List(items) => forall|i: int|
            0 <= i < items@.len() ==> well_formed(#[trigger] items@[i]),
        Kind::Dictionary(entries) => {
            &&& keys_of(pairs_of(entries@)).no_duplicates()
            &&& forall|i: int| 0 <= i < entries@.len() ==> well_formed((#[trigger] entries@[i]).1)
        },
    }
}

/// The pairs of a dictionary are as many as its entries, and each is its
/// entry's key and content.
pub proof fn lemma_pairs_of(entries: Seq<(Vec<u8>, Kind)>)
    ensures
        pairs_of(entries).len() == entries.len(),
        forall|i: int|
            0 <= i < entries.len() ==> #[trigger] pairs_of(entries)[i] == (
                entries[i].0@,
                tree_of(entries[i].1),
            ),
    decreases entries.len(),
{
    if entries.len() > 0 {
        lemma_pairs_of(entries.drop_last());
    }
}

/// The items of a list are as many in content as in memory, and each content
/// is that of its item.
pub proof fn lemma_trees_of(items: Seq<Kind>)
    ensures
        trees_of(items).len() == items.len(),
        forall|i: int| 0 <= i < items.len() ==> #[trigger] trees_of(items)[i] == tree_of(items[i]),
    decreases items.len(),
{
    if items.len() > 0 {
        lemma_trees_of(items.drop_last());
    }
}

/// The last entry of a dictionary sets its key's value in the mapping of the
/// entries before it.
pub proof fn lemma_map_of_last(entries: Seq<(Vec<u8>, Kind)>)
    requires
        entries.len() > 0,
    ensures
        map_of(entries) == map_of(entries.drop_last()).insert(
            entries.last().0@,
            tree_of(entries.last().1),
        ),
{
    let pairs = pairs_of(entries);
    assert(pairs.drop_last() =~= pairs_of(entries.drop_last()));
}

/// The mapping of pairs is finite, and its keys are the keys of the pairs.
pub proof fn lemma_map_of_pairs(pairs: Seq<(Seq<u8>, Tree)>)
    ensures
        map_of_pairs(pairs).dom().finite(),
        map_of_pairs(pairs).dom() == keys_of(pairs).to_set(),
    decreases pairs.len(),
{
    if !(pairs.len() == 0) {
        let front = pairs.drop_last();
        lemma_map_of_pairs(front);
        assert forall|k: Seq<u8>| map_of_pairs(pairs).dom().contains(k) == keys_of(
            pairs,
        ).to_set().contains(k) by {
            if keys_of(pairs).contains(k) {
                let i = choose|i: int| 0 <= i < pairs.len() && keys_of(pairs)[i] == k;
                if i < front.len() {
                    assert(keys_of(front)[i] == k);
                }
            }
            if keys_of(front).contains(k) {
                let i = choose|i: int| 0 <= i < front.len() && keys_of(front)[i] == k;
                assert(keys_of(pairs)[i] == k);
            }
            if k == pairs.last().0 {
                assert(keys_of(pairs)[pairs.len() - 1] == k);
            }
        }
    }
}

/// Where no key occurs twice, the mapping gives each key the value that its
/// pair holds.
pub proof fn lemma_map_of_pairs_index(pairs: Seq<(Seq<u8>, Tree)>, i: int)
    requires
        keys_of(pairs).no_duplicates(),
        0 <= i < pairs.len(),
    ensures
        map_of_pairs(pairs).dom().contains(pairs[i].0),
        map_of_pairs(pairs)[pairs[i].0] == pairs[i].1,
    decreases pairs.len(),
{
    let front = pairs.drop_last();
    if i < pairs.len() - 1 {
        assert forall|a: int, b: int|
            0 <= a < front.len() && 0 <= b < front.len() && a != b implies keys_of(front)[a]
            != keys_of(front)[b] by {
            assert(keys_of(pairs)[a] != keys_of(pairs)[b]);
        }
        lemma_map_of_pairs_index(front, i);
        assert(keys_of(pairs)[i] != keys_of(pairs)[pairs.len() - 1]);
    }
}

/// `i` is the index of the last entry of `entries` whose key is `key`.
pub open spec fn is_last_with_key(entries: Seq<(Vec<u8>, Kind)>, key: Seq<u8>, i: int) -> bool {
    &&& 0 <= i < entries.len()
    &&& entries[i].0@ == key
    &&& forall|j: int| i < j < entries.len() ==> (#[trigger] entries[j]).0@ != key
}

/// The last entry with a key gives the key its value in the mapping.
pub proof fn lemma_map_of_present(entries: Seq<(Vec<u8>, Kind)>, key: Seq<u8>, i: int)
    requires
        is_last_with_key(entries, key, i),
    ensures
        map_of(entries).dom().contains(key),
        map_of(entries)[key] == tree_of(entries[i].1),
    decreases entries.len(),
{
    lemma_map_of_last(entries);
    if i < entries.len() - 1 {
        let front = entries.drop_last();
        lemma_map_of_present(front, key, i);
    }
}

/// A key that no entry has is no key of the mapping.
pub proof fn lemma_map_of_absent(entries: Seq<(Vec<u8>, Kind)>, key: Seq<u8>)
    requires
        forall|j: int| 0 <= j < entries.len() ==> (#[trigger] entries[j]).0@ != key,
    ensures
        !map_of(entries).dom().contains(key),
    decreases entries.len(),
{
    if entries.len() > 0 {
        lemma_map_of_last(entries);
        let front = entries.drop_last();
        lemma_map_of_absent(front, key);
    }
}

/// The key of any entry is a key of the mapping.
pub proof fn lemma_key_is_present(entries: Seq<(Vec<u8>, Kind)>, i: int)
    requires
        0 <= i < entries.len(),
    ensures
        map_of(entries).dom().contains(entries[i].0@),
    decreases entries.len(),
{
    lemma_map_of_last(entries);
    if i < entries.len() - 1 {
        lemma_key_is_present(entries.drop_last(), i);
    }
}

/// Every key of the mapping is the key of some entry, and so of a last one.
pub proof fn lemma_map_of_key(entries: Seq<(Vec<u8>, Kind)>, key: Seq<u8>) -> (i: int)
    requires
        map_of(entries).dom().contains(key),
    ensures
        is_last_with_key(entries, key, i),
    decreases entries.len(),
{
    if entries.len() == 0 {
        0
    } else {
        lemma_map_of_last(entries);
        if entries.last().0@ == key {
            entries.len() - 1
        } else {
            let front = entries.drop_last();
            let i = lemma_map_of_key(front, key);
            assert forall|j: int| i < j < entries.len() implies (#[trigger] entries[j]).0@
                != key by {
                if j < front.len() {
                    assert(front[j].0@ != key);
                }
            }
            i
        }
    }
}

/// The index of the last entry of `entries` whose key is `key`, if there is
/// one.
pub fn find_entry(entries: &Vec<(Vec<u8>, Kind)>, key: &[u8]) -> (r: Option<usize>)
    ensures
        match r {
            Some(i) => is_last_with_key(entries@, key@, i as int),
            None => forall|j: int| 0 <= j < entries.len() ==> (#[trigger] entries@[j]).0@ != key@,
        },
{
    let mut n: usize = entries.len();
    while n > 0
        invariant
            n <= entries.len(),
            forall|j: int| n <= j < entries.len() ==> (#[trigger] entries@[j]).0@ != key@,
        decreases n,
    {
        n -= 1;
        if bytes_equal(entries[n].0.as_slice(), key) {
            return Some(n);
        }
    }
    None
}

/// Whether no two of `entries` have the same key.
pub fn keys_are_distinct(entries: &Vec<(Vec<u8>, Kind)>) -> (r: bool)
    ensures
        r == keys_of(pairs_of(entries@)).no_duplicates(),
{
    let ghost keys = keys_of(pairs_of(entries@));
    proof {
        lemma_pairs_of(entries@);
    }
    let mut n: usize = 0;
    while n < entries.len()
        invariant
            n <= entries.len(),
            keys == keys_of(pairs_of(entries@)),
            keys.len() == entries.len(),
            forall|i: int| 0 <= i < entries.len() ==> #[trigger] keys[i] == entries@[i].0@,
            forall|i: int, j: int| 0 <= i < n && i < j < entries.len() ==> keys[i] != keys[j],
        decreases entries.len() - n,
    {
        let found = find_entry(entries, entries[n].0.as_slice());
        let is_last = match found {
            Some(i) => i == n,
            None => false,
        };
        if !is_last {
            proof {
                match found {
                    Some(i) => {
                        assert(keys[n as int] == keys[i as int]);
                    },
                    None => {
                        assert(entries@[n as int].0@ == keys[n as int]);
                    },
                }
            }
            return false;
        }
        n += 1;
    }
    assert forall|i: int, j: int| 0 <= i < keys.len() && 0 <= j < keys.len() && i != j implies keys[i]
        != keys[j] by {
        if i < j {
            assert(keys[i] != keys[j]);
        } else {
            assert(keys[j] != keys[i]);
        }
    }
    true
}

impl Kind {
    /// The byte string that holds `bytes`.
    pub fn byte_string(bytes: Vec<u8>) -> (v: Kind)
        ensures
            v == Kind::ByteString(bytes),
            v@ == Tree::ByteString(bytes@),
            well_formed(v),
    {
        Kind::ByteString(bytes)
    }

    /// The integer `number`.
    pub fn integer(number: i64) -> (v: Kind)
        ensures
            v == Kind::Integer(number),
            v@ == Tree::Integer(number as int),
            well_formed(v),
    {
        Kind::Integer(number)
    }

    /// The list of `items`, in their order.
    pub fn list(items: Vec<Kind>) -> (v: Kind)
        ensures
            v == Kind::List(items),
            v@ == Tree::List(trees_of(items@)),
            well_formed(v) == forall|i: int| 0 <= i < items.len() ==> well_formed(#[trigger] items@[i]),
    {
        Kind::List(items)
    }

    /// The dictionary of `entries`; fails with `KeyOrderViolation` where two
    /// of them have the same key.
    pub fn dictionary(entries: Vec<(Vec<u8>, Kind)>) -> (r: Result<Kind, ErrorKind>)
        ensures
            match r {
                Ok(v) => v == Kind::Dictionary(entries) && v@ == Tree::Dictionary(map_of(entries@))
                    && keys_of(pairs_of(entries@)).no_duplicates() && well_formed(v) == forall|
                    i: int,
                | 0 <= i < entries.len() ==> well_formed((#[trigger] entries@[i]).1),
                Err(e) => e == ErrorKind::KeyOrderViolation && !keys_of(
                    pairs_of(entries@),
                ).no_duplicates(),
            },
    {
        if keys_are_distinct(&entries) {
            Ok(Kind::Dictionary(entries))
        } else {
            Err(ErrorKind::KeyOrderViolation)
        }
    }

    /// The bytes of a byte string; fails with `TypeMismatch` on any other
    /// shape.
    pub fn as_byte_string(&self) -> (r: Result<&Vec<u8>, ErrorKind>)
        ensures
            match r {
                Ok(bytes) => *self == Kind::ByteString(*bytes),
                Err(e) => e == ErrorKind::TypeMismatch && !(self is ByteString),
            },
    {
        match self {
            Kind::ByteString(bytes) => Ok(bytes),
            _ => Err(ErrorKind::TypeMismatch),
        }
    }

    /// The number of an integer; fails with `TypeMismatch` on any other
    /// shape.
    pub fn as_integer(&self) -> (r: Result<i64, ErrorKind>)
        ensures
            match r {
                Ok(number) => *self == Kind::Integer(number),
                Err(e) => e == ErrorKind::TypeMismatch && !(self is Integer),
            },
    {
        match self {
            Kind::Integer(number) => Ok(*number),
            _ => Err(ErrorKind::TypeMismatch),
        }
    }

    /// The items of a list; fails with `TypeMismatch` on any other shape.
    pub fn as_list(&self) -> (r: Result<&Vec<Kind>, ErrorKind>)
        ensures
            match r {
                Ok(items) => *self == Kind::List(*items),
                Err(e) => e == ErrorKind::TypeMismatch && !(self is List),
            },
    {
        match self {
            Kind::List(items) => Ok(items),
            _ => Err(ErrorKind::TypeMismatch),
        }
    }

    /// The entries of a dictionary, in stored order; fails with
    /// `TypeMismatch` on any other shape.
    pub fn as_dictionary(&self) -> (r: Result<&Vec<(Vec<u8>, Kind)>, ErrorKind>)
        ensures
            match r {
                Ok(entries) => *self == Kind::Dictionary(*entries),
                Err(e) => e == ErrorKind::TypeMismatch && !(self is Dictionary),
            },
    {
        match self {
            Kind::Dictionary(entries) => Ok(entries),
            _ => Err(ErrorKind::TypeMismatch),
        }
    }

    /// The value that a dictionary has for `key`, if it has one; fails with
    /// `TypeMismatch` on any other shape.
    pub fn get(&self, key: &[u8]) -> (r: Result<Option<&Kind>, ErrorKind>)
        ensures
            match r {
                Ok(Some(value)) => self@ matches Tree::Dictionary(m) && m.dom().contains(key@)
                    && m[key@] == value@,
                Ok(None) => self@ matches Tree::Dictionary(m) && !m.dom().contains(key@),
                Err(e) => e == ErrorKind::TypeMismatch && !(self is Dictionary),
            },
    {
        match self {
            Kind::Dictionary(entries) => {
                match find_entry(entries, key) {
                    Some(i) => {
                        proof {
                            lemma_map_of_present(entries@, key@, i as int);
                        }
                        Ok(Some(&entries[i].1))
                    },
                    None => {
                        proof {
                            lemma_map_of_absent(entries@, key@);
                        }
                        Ok(None)
                    },
                }
            },
            _ => Err(ErrorKind::TypeMismatch),
        }
    }
}

/// The content of a value in memory is representable.
pub proof fn lemma_representable(v: Kind)
    ensures
        representable(v@),
    decreases v,
{
    match v {
        Kind::ByteString(_) => {},
        Kind::Integer(_) => {},
        Kind::List(items) => {
            lemma_trees_of(items@);
            assert forall|i: int| 0 <= i < items@.len() implies representable(
                #[trigger] trees_of(items@)[i],
            ) by {
                lemma_representable(items@[i]);
            }
        },
        Kind::Dictionary(entries) => {
            let m = map_of(entries@);
            lemma_map_of_pairs(pairs_of(entries@));
            assert forall|k: Seq<u8>| m.dom().contains(k) implies representable(#[trigger] m[k]) by {
                let i = lemma_map_of_key(entries@, k);
                lemma_map_of_present(entries@, k, i);
                lemma_representable(entries@[i].1);
            }
        },
    }
}

/// Whether no key occurs twice in any dictionary of `value`.
pub fn is_well_formed(value: &Kind) -> (r: bool)
    ensures
        r == well_formed(*value),
    decreases value,
{
    match value {
        Kind::ByteString(_) => true,
        Kind::Integer(_) => true,
        Kind::List(items) => {
            let mut n: usize = 0;
            while n < items.len()
                invariant
                    n <= items.len(),
                    *value == Kind::List(*items),
                    forall|i: int| 0 <= i < n ==> well_formed(#[trigger] items@[i]),
                decreases items.len() - n,
            {
                proof {
                    assert(decreases_to!(*value => value->List_0));
                }
                if !is_well_formed(&items[n]) {
                    return false;
                }
                n += 1;
            }
            true
        },
        Kind::Dictionary(entries) => {
            if !keys_are_distinct(entries) {
                return false;
            }
            let mut n: usize = 0;
            while n < entries.len()
                invariant
                    n <= entries.len(),
                    *value == Kind::Dictionary(*entries),
                    keys_of(pairs_of(entries@)).no_duplicates(),
                    forall|i: int| 0 <= i < n ==> well_formed((#[trigger] entries@[i]).1),
                decreases entries.len() - n,
            {
                proof {
                    assert(decreases_to!(*value => value->Dictionary_0));
                }
                if !is_well_formed(&entries[n].1) {
                    return false;
                }
                n += 1;
            }
            true
        },
    }
}

/// A copy of `bytes`.
fn copy_bytes(bytes: &Vec<u8>) -> (copy: Vec<u8>)
    ensures
        copy@ == bytes@,
{
    vstd::slice::slice_to_vec(bytes.as_slice())
}

/// A copy of `value`: with the same content, and well formed where `value`
/// is.
pub fn duplicate(value: &Kind) -> (copy: Kind)
    ensures
        copy@ == value@,
        well_formed(copy) == well_formed(*value),
    decreases value,
{
    match value {
        Kind::ByteString(bytes) => Kind::ByteString(copy_bytes(bytes)),
        Kind::Integer(number) => Kind::Integer(*number),
        Kind::List(items) => {
            let mut made: Vec<Kind> = Vec::new();
            let mut n: usize = 0;
            while n < items.len()
                invariant
                    n <= items.len(),
                    *value == Kind::List(*items),
                    trees_of(made@) == trees_of(items@.take(n as int)),
                    made.len() == n,
                    forall|i: int|
                        #![trigger made@[i]]
                        #![trigger items@[i]]
                        0 <= i < n ==> well_formed(made@[i]) == well_formed(items@[i]),
                decreases items.len() - n,
            {
                proof {
                    assert(items@.take(n + 1).drop_last() =~= items@.take(n as int));
                    assert(decreases_to!(*value => value->List_0));
                }
                let ghost before = made@;
                let item = duplicate(&items[n]);
                made.push(item);
                assert(made@.drop_last() =~= before);
                n += 1;
            }
            assert(items@.take(n as int) =~= items@);
            Kind::List(made)
        },
        Kind::Dictionary(entries) => {
            let mut made: Vec<(Vec<u8>, Kind)> = Vec::new();
            let mut n: usize = 0;
            while n < entries.len()
                invariant
                    n <= entries.len(),
                    *value == Kind::Dictionary(*entries),
                    pairs_of(made@) == pairs_of(entries@.take(n as int)),
                    made.len() == n,
                    forall|i: int|
                        #![trigger made@[i]]
                        #![trigger entries@[i]]
                        0 <= i < n ==> well_formed(made@[i].1) == well_formed(entries@[i].1),
                decreases entries.len() - n,
            {
                proof {
                    assert(entries@.take(n + 1).drop_last() =~= entries@.take(n as int));
                    assert(decreases_to!(*value => value->Dictionary_0));
                }
                let ghost before = made@;
                let key = copy_bytes(&entries[n].0);
                let member = duplicate(&entries[n].1);
                made.push((key, member));
                assert(made@.drop_last() =~= before);
                n += 1;
            }
            assert(entries@.take(n as int) =~= entries@);
            Kind::Dictionary(made)
        },
    }
}

impl Clone for Kind {
    /// A copy, as [`duplicate`] makes it.
    fn clone(&self) -> (copy: Kind)
        ensures
            copy@ == self@,
            well_formed(copy) == well_formed(*self),
    {
        duplicate(self)
    }
}

} // verus!
