//! Byte-lexicographic order, the order of dictionary keys.

use vstd::prelude::*;

verus! {

/// `a` comes strictly before `b`: at the first index where they differ `a` has
/// the smaller byte, or `a` is a proper prefix of `b`.
pub open spec fn lex_lt(a: Seq<u8>, b: Seq<u8>) -> bool
    decreases a.len(),
{
    if b.len() == 0 {
        false
    } else if a.len() == 0 {
        true
    } else if a[0] != b[0] {
        a[0] < b[0]
    } else {
        lex_lt(a.drop_first(), b.drop_first())
    }
}

/// Each key comes strictly before every later one.
pub open spec fn strictly_increasing(keys: Seq<Seq<u8>>) -> bool {
    forall|i: int, j: int| 0 <= i < j < keys.len() ==> lex_lt(#[trigger] keys[i], #[trigger] keys[j])
}

/// The keys of `s` in increasing order.
pub open spec fn sorted_keys(s: Set<Seq<u8>>) -> Seq<Seq<u8>> {
    choose|keys: Seq<Seq<u8>>| strictly_increasing(keys) && keys.to_set() == s
}

/// No byte string comes before itself.
pub proof fn lemma_lex_irreflexive(a: Seq<u8>)
    ensures
        !lex_lt(a, a),
    decreases a.len(),
{
    if a.len() > 0 {
        lemma_lex_irreflexive(a.drop_first());
    }
}

/// Of two byte strings at most one comes before the other.
pub proof fn lemma_lex_asymmetric(a: Seq<u8>, b: Seq<u8>)
    requires
        lex_lt(a, b),
    ensures
        !lex_lt(b, a),
    decreases a.len(),
{
    if a.len() > 0 && b.len() > 0 && a[0] == b[0] {
        lemma_lex_asymmetric(a.drop_first(), b.drop_first());
    }
}

/// What comes before a byte string comes before all that it comes before.
pub proof fn lemma_lex_transitive(a: Seq<u8>, b: Seq<u8>, c: Seq<u8>)
    requires
        lex_lt(a, b),
        lex_lt(b, c),
    ensures
        lex_lt(a, c),
    decreases a.len(),
{
    if a.len() > 0 && b.len() > 0 && c.len() > 0 && a[0] == b[0] && b[0] == c[0] {
        lemma_lex_transitive(a.drop_first(), b.drop_first(), c.drop_first());
    }
}

/// Of two different byte strings one comes before the other.
pub proof fn lemma_lex_connected(a: Seq<u8>, b: Seq<u8>)
    ensures
        a == b || lex_lt(a, b) || lex_lt(b, a),
    decreases a.len(),
{
    if a.len() > 0 && b.len() > 0 && a[0] == b[0] {
        lemma_lex_connected(a.drop_first(), b.drop_first());
        if a.drop_first() == b.drop_first() {
            assert(a =~= seq![a[0]] + a.drop_first());
        }
    }
}

/// Comparing from index `n` on decides the order of two strings that agree
/// before it.
pub proof fn lemma_lex_skip(a: Seq<u8>, b: Seq<u8>, n: int)
    requires
        0 <= n <= a.len(),
        n <= b.len(),
        a.subrange(0, n) == b.subrange(0, n),
    ensures
        lex_lt(a, b) == lex_lt(a.skip(n), b.skip(n)),
    decreases n,
{
    if n == 0 {
        assert(a.skip(0) =~= a);
        assert(b.skip(0) =~= b);
    } else {
        assert(a[0] == a.subrange(0, n)[0]);
        let a1 = a.drop_first();
        let b1 = b.drop_first();
        assert(a1.subrange(0, n - 1) =~= a.subrange(0, n).drop_first());
        assert(b1.subrange(0, n - 1) =~= b.subrange(0, n).drop_first());
        lemma_lex_skip(a1, b1, n - 1);
        assert(a1.skip(n - 1) =~= a.skip(n));
        assert(b1.skip(n - 1) =~= b.skip(n));
    }
}

/// Two increasing sequences with the same elements are the same sequence.
pub proof fn lemma_increasing_unique(p: Seq<Seq<u8>>, q: Seq<Seq<u8>>)
    requires
        strictly_increasing(p),
        strictly_increasing(q),
        p.to_set() == q.to_set(),
    ensures
        p == q,
    decreases p.len(),
{
    if p.len() == 0 {
        if q.len() > 0 {
            assert(q.to_set().contains(q[0]));
        }
    } else {
        assert(p.to_set().contains(p[0]));
        let j = choose|j: int| 0 <= j < q.len() && q[j] == p[0];
        assert(q.to_set().contains(q[0]));
        let i = choose|i: int| 0 <= i < p.len() && p[i] == q[0];
        if i > 0 && j > 0 {
            lemma_lex_asymmetric(p[0], p[i]);
        }
        let p_rest = p.drop_first();
        let q_rest = q.drop_first();
        assert forall|x: Seq<u8>| p_rest.to_set().contains(x) == q_rest.to_set().contains(x) by {
            if p_rest.contains(x) {
                assert(q.to_set().contains(x));
                let m = choose|m: int| 0 <= m < q.len() && q[m] == x;
                if m == 0 {
                    lemma_lex_irreflexive(x);
                }
                assert(q_rest[m - 1] == x);
            }
            if q_rest.contains(x) {
                assert(p.to_set().contains(x));
                let m = choose|m: int| 0 <= m < p.len() && p[m] == x;
                if m == 0 {
                    lemma_lex_irreflexive(x);
                }
                assert(p_rest[m - 1] == x);
            }
        }
        assert(p_rest.to_set() =~= q_rest.to_set());
        lemma_increasing_unique(p_rest, q_rest);
        assert(p =~= seq![p[0]] + p_rest);
    }
}

/// An increasing sequence is the sorted form of the set of its elements.
pub proof fn lemma_sorted_keys_of_increasing(keys: Seq<Seq<u8>>)
    requires
        strictly_increasing(keys),
    ensures
        sorted_keys(keys.to_set()) == keys,
{
    let found = sorted_keys(keys.to_set());
    lemma_increasing_unique(found, keys);
}

/// An increasing sequence that holds `x` and the elements of `keys`.
proof fn lemma_place_key(keys: Seq<Seq<u8>>, x: Seq<u8>) -> (r: Seq<Seq<u8>>)
    requires
        strictly_increasing(keys),
        !keys.contains(x),
    ensures
        strictly_increasing(r),
        r.to_set() == keys.to_set().insert(x),
    decreases keys.len(),
{
    if keys.len() == 0 {
        let r = seq![x];
        assert(r[0] == x);
        r
    } else if lex_lt(keys.last(), x) {
        let r = keys.push(x);
        assert forall|i: int, j: int| 0 <= i < j < r.len() implies lex_lt(
            #[trigger] r[i],
            #[trigger] r[j],
        ) by {
            if j == keys.len() && i < keys.len() - 1 {
                lemma_lex_transitive(keys[i], keys.last(), x);
            }
        }
        assert forall|y: Seq<u8>| r.to_set().contains(y) == keys.to_set().insert(x).contains(
            y,
        ) by {
            if keys.contains(y) {
                let k = choose|k: int| 0 <= k < keys.len() && keys[k] == y;
                assert(r[k] == y);
            }
            if y == x {
                assert(r[keys.len() as int] == x);
            }
        }
        r
    } else {
        let last = keys.last();
        let front = keys.drop_last();
        lemma_lex_connected(last, x);
        let inner = lemma_place_key(front, x);
        let r = inner.push(last);
        assert forall|i: int, j: int| 0 <= i < j < r.len() implies lex_lt(
            #[trigger] r[i],
            #[trigger] r[j],
        ) by {
            if j == inner.len() {
                assert(inner.to_set().contains(inner[i]));
            }
        }
        assert forall|y: Seq<u8>| r.to_set().contains(y) == keys.to_set().insert(x).contains(
            y,
        ) by {
            if r.contains(y) {
                let k = choose|k: int| 0 <= k < r.len() && r[k] == y;
                if k < inner.len() {
                    assert(inner.to_set().contains(y));
                }
            }
            if keys.contains(y) {
                let k = choose|k: int| 0 <= k < keys.len() && keys[k] == y;
                if k < front.len() {
                    assert(front[k] == y);
                    assert(inner.to_set().contains(y));
                    let m = choose|m: int| 0 <= m < inner.len() && inner[m] == y;
                    assert(r[m] == y);
                } else {
                    assert(r[inner.len() as int] == y);
                }
            }
            if y == x {
                assert(inner.to_set().contains(x));
                let m = choose|m: int| 0 <= m < inner.len() && inner[m] == x;
                assert(r[m] == x);
            }
        }
        r
    }
}

/// Every finite set of keys has a sorted form: increasing, with exactly the
/// set's elements.
pub proof fn lemma_sorted_keys(s: Set<Seq<u8>>)
    requires
        s.finite(),
    ensures
        strictly_increasing(sorted_keys(s)),
        sorted_keys(s).to_set() == s,
        sorted_keys(s).len() == s.len(),
    decreases s.len(),
{
    if s.len() == 0 {
        let keys = Seq::<Seq<u8>>::empty();
        assert(keys.to_set() =~= s);
    } else {
        let x = s.choose();
        let rest = s.remove(x);
        lemma_sorted_keys(rest);
        let keys = lemma_place_key(sorted_keys(rest), x);
    }
    let keys = sorted_keys(s);
    lemma_increasing_no_duplicates(keys);
    keys.unique_seq_to_set();
}

/// An increasing sequence holds no key twice.
pub proof fn lemma_increasing_no_duplicates(keys: Seq<Seq<u8>>)
    requires
        strictly_increasing(keys),
    ensures
        keys.no_duplicates(),
{
    assert forall|i: int, j: int| 0 <= i < keys.len() && 0 <= j < keys.len() && i != j implies keys[i]
        != keys[j] by {
        lemma_lex_irreflexive(keys[i]);
    }
}

/// Whether `a` comes strictly before `b` in byte-lexicographic order.
pub fn bytes_less(a: &[u8], b: &[u8]) -> (r: bool)
    ensures
        r == lex_lt(a@, b@),
{
    let mut i: usize = 0;
    while i < a.len() && i < b.len()
        invariant
            i <= a.len(),
            i <= b.len(),
            a@.subrange(0, i as int) == b@.subrange(0, i as int),
        decreases a.len() - i,
    {
        if a[i] != b[i] {
            proof {
                lemma_lex_skip(a@, b@, i as int);
            }
            return a[i] < b[i];
        }
        i += 1;
    }
    proof {
        lemma_lex_skip(a@, b@, i as int);
    }
    i < b.len()
}

/// Whether `a` and `b` hold the same bytes.
pub fn bytes_equal(a: &[u8], b: &[u8]) -> (r: bool)
    ensures
        r == (a@ == b@),
{
    if a.len() != b.len() {
        return false;
    }
    let mut i: usize = 0;
    while i < a.len()
        invariant
            i <= a.len(),
            a.len() == b.len(),
            a@.subrange(0, i as int) == b@.subrange(0, i as int),
        decreases a.len() - i,
    {
        if a[i] != b[i] {
            return false;
        }
        i += 1;
    }
    assert(a@ =~= a@.subrange(0, i as int));
    assert(b@ =~= b@.subrange(0, i as int));
    true
}

} // verus!
