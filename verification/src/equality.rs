//! Equality of values: by content, whatever the order in which a dictionary
//! stores its entries.

use crate::order::bytes_equal;
use crate::value::{
    find_entry, is_last_with_key, lemma_key_is_present, lemma_map_of_absent, lemma_map_of_key,
    lemma_map_of_present, lemma_trees_of, map_of, tree_of, trees_of, Kind,
};
use vstd::prelude::*;
use vstd::std_specs::cmp::PartialEqSpecImpl;

verus! {

/// Whether `a` and `b` have the same content: the same shape, and the same
/// bytes, the same number, equal items in the same order, or the same keys
/// with equal values.
pub fn same(a: &Kind, b: &Kind) -> (r: bool)
    ensures
        r == (a@ == b@),
    decreases a,
{
    match a {
        Kind::ByteString(x) => match b {
            Kind::ByteString(y) => bytes_equal(x.as_slice(), y.as_slice()),
            _ => false,
        },
        Kind::Integer(x) => match b {
            Kind::Integer(y) => *x == *y,
            _ => false,
        },
        Kind::List(xs) => match b {
            Kind::List(ys) => {
                proof {
                    lemma_trees_of(xs@);
                    lemma_trees_of(ys@);
                }
                if xs.len() != ys.len() {
                    return false;
                }
                let mut n: usize = 0;
                while n < xs.len()
                    invariant
                        n <= xs.len(),
                        xs.len() == ys.len(),
                        *a == Kind::List(*xs),
                        *b == Kind::List(*ys),
                        trees_of(xs@).len() == xs.len(),
                        trees_of(ys@).len() == ys.len(),
                        forall|i: int|
                            0 <= i < xs.len() ==> #[trigger] trees_of(xs@)[i] == tree_of(xs@[i]),
                        forall|i: int|
                            0 <= i < ys.len() ==> #[trigger] trees_of(ys@)[i] == tree_of(ys@[i]),
                        forall|i: int| 0 <= i < n ==> tree_of(#[trigger] xs@[i]) == tree_of(ys@[i]),
                    decreases xs.len() - n,
                {
                    assert(decreases_to!(*a => a->List_0));
                    assert(decreases_to!(*xs => xs[n as int]));
                    if !same(&xs[n], &ys[n]) {
                        assert(trees_of(xs@)[n as int] != trees_of(ys@)[n as int]);
                        return false;
                    }
                    n += 1;
                }
                assert(trees_of(xs@) =~= trees_of(ys@));
                true
            },
            _ => false,
        },
        Kind::Dictionary(xs) => match b {
            Kind::Dictionary(ys) => {
                let ghost ma = map_of(xs@);
                let ghost mb = map_of(ys@);
                let mut n: usize = 0;
                while n < xs.len()
                    invariant
                        n <= xs.len(),
                        *a == Kind::Dictionary(*xs),
                        *b == Kind::Dictionary(*ys),
                        ma == map_of(xs@),
                        mb == map_of(ys@),
                        forall|i: int|
                            0 <= i < n && is_last_with_key(xs@, (#[trigger] xs@[i]).0@, i)
                                ==> ma.dom().contains(xs@[i].0@) && mb.dom().contains(
                                xs@[i].0@,
                            ) && mb[xs@[i].0@] == ma[xs@[i].0@],
                    decreases xs.len() - n,
                {
                    let key = xs[n].0.as_slice();
                    let found = find_entry(xs, key);
                    let is_last = match found {
                        Some(i) => i == n,
                        None => false,
                    };
                    if is_last {
                        proof {
                            lemma_map_of_present(xs@, key@, n as int);
                        }
                        match find_entry(ys, key) {
                            None => {
                                proof {
                                    lemma_map_of_absent(ys@, key@);
                                    assert(ma.dom().contains(key@));
                                    assert(!mb.dom().contains(key@));
                                }
                                return false;
                            },
                            Some(j) => {
                                proof {
                                    lemma_map_of_present(ys@, key@, j as int);
                                }
                                assert(decreases_to!(*a => a->Dictionary_0));
                                assert(decreases_to!(*xs => xs[n as int]));
                                assert(decreases_to!(xs[n as int] => xs[n as int].1));
                                if !same(&xs[n].1, &ys[j].1) {
                                    assert(ma[key@] != mb[key@]);
                                    return false;
                                }
                            },
                        }
                    } else {
                        proof {
                            match found {
                                Some(i) => {},
                                None => {
                                    assert(xs@[n as int].0@ == key@);
                                },
                            }
                        }
                    }
                    n += 1;
                }
                let mut k: usize = 0;
                while k < ys.len()
                    invariant
                        k <= ys.len(),
                        *a == Kind::Dictionary(*xs),
                        *b == Kind::Dictionary(*ys),
                        ma == map_of(xs@),
                        mb == map_of(ys@),
                        forall|i: int|
                            0 <= i < xs.len() && is_last_with_key(xs@, (#[trigger] xs@[i]).0@, i)
                                ==> ma.dom().contains(xs@[i].0@) && mb.dom().contains(
                                xs@[i].0@,
                            ) && mb[xs@[i].0@] == ma[xs@[i].0@],
                        forall|i: int| 0 <= i < k ==> ma.dom().contains((#[trigger] ys@[i]).0@),
                    decreases ys.len() - k,
                {
                    let key = ys[k].0.as_slice();
                    match find_entry(xs, key) {
                        None => {
                            proof {
                                lemma_map_of_absent(xs@, key@);
                                assert(mb.dom().contains(key@)) by {
                                    lemma_key_is_present(ys@, k as int);
                                }
                            }
                            return false;
                        },
                        Some(i) => {
                            proof {
                                lemma_map_of_present(xs@, key@, i as int);
                            }
                        },
                    }
                    k += 1;
                }
                proof {
                    assert forall|key: Seq<u8>| #[trigger]
                        ma.dom().contains(key) implies mb.dom().contains(key) && ma[key]
                        == mb[key] by {
                        let i = lemma_map_of_key(xs@, key);
                        assert(xs@[i].0@ == key);
                        assert(is_last_with_key(xs@, xs@[i].0@, i));
                        assert(mb.dom().contains(xs@[i].0@));
                    }
                    assert forall|key: Seq<u8>| #[trigger]
                        mb.dom().contains(key) implies ma.dom().contains(key) by {
                        let j = lemma_map_of_key(ys@, key);
                        assert(ma.dom().contains(ys@[j].0@));
                    }
                    assert(ma.dom() =~= mb.dom());
                    assert(ma =~= mb);
                }
                true
            },
            _ => false,
        },
    }
}

impl PartialEq for Kind {
    /// Whether the two values have the same content, as [`same`] finds.
    fn eq(&self, other: &Kind) -> (r: bool) {
        same(self, other)
    }
}

impl PartialEqSpecImpl for Kind {
    /// `==` on values means what [`PartialEqSpecImpl::eq_spec`] says.
    open spec fn obeys_eq_spec() -> bool {
        true
    }

    /// Two values are equal where their contents are.
    open spec fn eq_spec(&self, other: &Kind) -> bool {
        self@ == other@
    }
}

} // verus!
