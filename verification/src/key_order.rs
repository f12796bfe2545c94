//! The order in which the entries of a dictionary are written: by increasing
//! key, each key once.

use crate::order::{
    bytes_equal, bytes_less, lemma_increasing_no_duplicates, lemma_lex_connected,
    lemma_lex_irreflexive, lemma_lex_transitive, lex_lt, strictly_increasing,
};
use crate::value::{lemma_map_of_last, map_of, tree_of, Kind};
use vstd::prelude::*;

verus! {

/// The keys of the entries that `order` picks, in the order of `order`.
pub open spec fn picked_keys(entries: Seq<(Vec<u8>, Kind)>, order: Seq<usize>) -> Seq<Seq<u8>> {
    Seq::new(order.len(), |j: int| entries[order[j] as int].0@)
}

/// `order` lists each key of the dictionary once, in increasing order of the
/// keys, by the index of the entry that gives the key its value.
pub open spec fn is_key_order(entries: Seq<(Vec<u8>, Kind)>, order: Seq<usize>) -> bool {
    &&& forall|j: int| 0 <= j < order.len() ==> #[trigger] order[j] < entries.len()
    &&& strictly_increasing(picked_keys(entries, order))
    &&& picked_keys(entries, order).to_set() == map_of(entries).dom()
    &&& forall|j: int|
        0 <= j < order.len() ==> map_of(entries)[#[trigger] picked_keys(entries, order)[j]]
            == tree_of(entries[order[j] as int].1)
}

/// Where `key` belongs among the keys that `order` picks: every key from the
/// returned position on comes after `key`, and the one before it does not.
fn find_slot(entries: &Vec<(Vec<u8>, Kind)>, order: &Vec<usize>, key: &Vec<u8>) -> (slot: usize)
    requires
        forall|j: int| 0 <= j < order.len() ==> #[trigger] order[j] < entries.len(),
        strictly_increasing(picked_keys(entries@, order@)),
    ensures
        slot <= order.len(),
        forall|j: int|
            slot <= j < order.len() ==> lex_lt(key@, #[trigger] picked_keys(entries@, order@)[j]),
        forall|j: int|
            0 <= j < slot ==> !lex_lt(key@, #[trigger] picked_keys(entries@, order@)[j]),
{
    let ghost keys = picked_keys(entries@, order@);
    let mut slot: usize = order.len();
    while slot > 0 && bytes_less(key.as_slice(), entries[order[slot - 1]].0.as_slice())
        invariant
            slot <= order.len(),
            keys == picked_keys(entries@, order@),
            forall|j: int| 0 <= j < order.len() ==> #[trigger] order[j] < entries.len(),
            forall|j: int| slot <= j < order.len() ==> lex_lt(key@, #[trigger] keys[j]),
        decreases slot,
    {
        slot -= 1;
    }
    proof {
        if slot > 0 {
            assert forall|j: int| 0 <= j < slot implies !lex_lt(key@, #[trigger] keys[j]) by {
                if j < slot - 1 && lex_lt(key@, keys[j]) {
                    lemma_lex_transitive(key@, keys[j], keys[slot - 1]);
                }
            }
        }
    }
    slot
}

/// Taking one more entry into account when its key is already listed: the
/// entry's index replaces the one listed for that key.
proof fn lemma_key_order_replace(
    entries: Seq<(Vec<u8>, Kind)>,
    order: Seq<usize>,
    slot: int,
    last: usize,
)
    requires
        entries.len() == last + 1,
        is_key_order(entries.drop_last(), order),
        0 <= slot < order.len(),
        picked_keys(entries.drop_last(), order)[slot] == entries.last().0@,
    ensures
        is_key_order(entries, order.update(slot, last)),
{
    let front = entries.drop_last();
    let key = entries.last().0@;
    let old_keys = picked_keys(front, order);
    let new_order = order.update(slot, last);
    let new_keys = picked_keys(entries, new_order);
    lemma_map_of_last(entries);
    assert(new_keys =~= old_keys) by {
        assert forall|j: int| 0 <= j < order.len() implies new_keys[j] == old_keys[j] by {
            assert(order[j] < front.len());
            if j != slot {
                assert(entries[order[j] as int] == front[order[j] as int]);
            }
        }
    }
    assert(old_keys.contains(key)) by {
        assert(old_keys[slot] == key);
    }
    assert(map_of(entries).dom() =~= map_of(front).dom());
    lemma_increasing_no_duplicates(old_keys);
    assert forall|j: int| 0 <= j < new_order.len() implies map_of(entries)[#[trigger] new_keys[j]]
        == tree_of(entries[new_order[j] as int].1) by {
        assert(order[j] < front.len());
        if j != slot {
            assert(old_keys[j] != old_keys[slot]);
            assert(entries[order[j] as int] == front[order[j] as int]);
            assert(map_of(front)[old_keys[j]] == tree_of(front[order[j] as int].1));
        }
    }
    assert forall|j: int| 0 <= j < new_order.len() implies #[trigger] new_order[j]
        < entries.len() by {
        assert(order[j] < front.len());
    }
}

/// Taking one more entry into account when its key is new: the entry's index
/// goes where the key belongs in the order.
proof fn lemma_key_order_insert(
    entries: Seq<(Vec<u8>, Kind)>,
    order: Seq<usize>,
    slot: int,
    last: usize,
)
    requires
        entries.len() == last + 1,
        is_key_order(entries.drop_last(), order),
        0 <= slot <= order.len(),
        forall|j: int|
            slot <= j < order.len() ==> lex_lt(
                entries.last().0@,
                #[trigger] picked_keys(entries.drop_last(), order)[j],
            ),
        forall|j: int|
            0 <= j < slot ==> lex_lt(
                #[trigger] picked_keys(entries.drop_last(), order)[j],
                entries.last().0@,
            ),
    ensures
        is_key_order(entries, order.insert(slot, last)),
{
    let front = entries.drop_last();
    let key = entries.last().0@;
    let old_keys = picked_keys(front, order);
    let new_order = order.insert(slot, last);
    let new_keys = picked_keys(entries, new_order);
    lemma_map_of_last(entries);
    assert(new_keys =~= old_keys.insert(slot, key)) by {
        assert forall|j: int| 0 <= j < new_order.len() implies new_keys[j] == old_keys.insert(
            slot,
            key,
        )[j] by {
            if j < slot {
                assert(order[j] < front.len());
                assert(entries[order[j] as int] == front[order[j] as int]);
            } else if j > slot {
                assert(order[j - 1] < front.len());
                assert(entries[order[j - 1] as int] == front[order[j - 1] as int]);
            }
        }
    }
    assert forall|a: int, b: int| 0 <= a < b < new_keys.len() implies lex_lt(
        #[trigger] new_keys[a],
        #[trigger] new_keys[b],
    ) by {
        if b < slot {
            assert(lex_lt(old_keys[a], old_keys[b]));
        } else if b == slot {
            assert(lex_lt(old_keys[a], key));
        } else if a < slot {
            assert(lex_lt(old_keys[a], key));
            assert(lex_lt(key, old_keys[b - 1]));
            lemma_lex_transitive(old_keys[a], key, old_keys[b - 1]);
        } else if a == slot {
            assert(lex_lt(key, old_keys[b - 1]));
        } else {
            assert(lex_lt(old_keys[a - 1], old_keys[b - 1]));
        }
    }
    assert forall|k: Seq<u8>| new_keys.to_set().contains(k) == map_of(entries).dom().contains(
        k,
    ) by {
        if new_keys.contains(k) {
            let j = choose|j: int| 0 <= j < new_keys.len() && new_keys[j] == k;
            if j < slot {
                assert(old_keys[j] == k);
                assert(old_keys.contains(k));
                assert(old_keys.to_set().contains(k));
            } else if j > slot {
                assert(old_keys[j - 1] == k);
                assert(old_keys.contains(k));
                assert(old_keys.to_set().contains(k));
            }
        }
        if map_of(entries).dom().contains(k) {
            if k == key {
                assert(new_keys[slot] == k);
            } else {
                assert(old_keys.to_set().contains(k));
                assert(old_keys.contains(k));
                let j = choose|j: int| 0 <= j < old_keys.len() && old_keys[j] == k;
                if j < slot {
                    assert(new_keys[j] == k);
                } else {
                    assert(new_keys[j + 1] == k);
                }
            }
        }
    }
    assert(new_keys.to_set() =~= map_of(entries).dom());
    assert forall|j: int| 0 <= j < new_order.len() implies map_of(entries)[#[trigger] new_keys[j]]
        == tree_of(entries[new_order[j] as int].1) by {
        if j < slot {
            assert(order[j] < front.len());
            assert(entries[order[j] as int] == front[order[j] as int]);
            assert(lex_lt(old_keys[j], key));
            lemma_lex_irreflexive(key);
            assert(map_of(front)[old_keys[j]] == tree_of(front[order[j] as int].1));
        } else if j > slot {
            assert(order[j - 1] < front.len());
            assert(entries[order[j - 1] as int] == front[order[j - 1] as int]);
            assert(lex_lt(key, old_keys[j - 1]));
            lemma_lex_irreflexive(key);
            assert(map_of(front)[old_keys[j - 1]] == tree_of(front[order[j - 1] as int].1));
        }
    }
    assert forall|j: int| 0 <= j < new_order.len() implies #[trigger] new_order[j]
        < entries.len() by {
        if j < slot {
            assert(order[j] < front.len());
        } else if j > slot {
            assert(order[j - 1] < front.len());
        }
    }
}

/// The order in which a dictionary's entries are written: for each key once,
/// in increasing order of the keys, the index of an entry that holds the
/// key's value.
pub fn key_order(entries: &Vec<(Vec<u8>, Kind)>) -> (order: Vec<usize>)
    ensures
        is_key_order(entries@, order@),
{
    let mut order: Vec<usize> = Vec::new();
    let mut n: usize = 0;
    assert(picked_keys(entries@.take(0), order@).to_set() =~= map_of(entries@.take(0)).dom());
    while n < entries.len()
        invariant
            n <= entries.len(),
            is_key_order(entries@.take(n as int), order@),
        decreases entries.len() - n,
    {
        let ghost seen = entries@.take(n as int);
        let ghost next = entries@.take(n + 1);
        let ghost keys = picked_keys(seen, order@);
        assert(next.drop_last() =~= seen);
        assert(picked_keys(entries@, order@) =~= keys);
        let key = &entries[n].0;
        let slot = find_slot(entries, &order, key);
        if slot > 0 && bytes_equal(key.as_slice(), entries[order[slot - 1]].0.as_slice()) {
            proof {
                lemma_key_order_replace(next, order@, slot - 1, n);
            }
            order.set(slot - 1, n);
        } else {
            proof {
                assert forall|j: int| 0 <= j < slot implies lex_lt(#[trigger] keys[j], key@) by {
                    lemma_lex_connected(keys[slot - 1], key@);
                    if j < slot - 1 {
                        lemma_lex_transitive(keys[j], keys[slot - 1], key@);
                    }
                }
                lemma_key_order_insert(next, order@, slot as int, n);
            }
            order.insert(slot, n);
        }
        n += 1;
    }
    assert(entries@.take(n as int) =~= entries@);
    order
}

} // verus!
