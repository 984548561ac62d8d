//! Stable ordering of sequences by an integer key: the insertion order that
//! the analyzers use to report errors by position.
use vstd::prelude::*;

verus! {

/// `s` with `e` inserted after the last element whose key is at most the key of `e`,
/// scanning from the back.
pub open spec fn insert_by<T>(s: Seq<T>, e: T, key: spec_fn(T) -> int) -> Seq<T>
    decreases s.len(),
{
    if s.len() == 0 {
        seq![e]
    } else if key(s.last()) <= key(e) {
        s.push(e)
    } else {
        insert_by(s.drop_last(), e, key).push(s.last())
    }
}

/// The stable sort of `s` by `key`: elements with equal keys keep their order.
pub open spec fn sort_by<T>(s: Seq<T>, key: spec_fn(T) -> int) -> Seq<T>
    decreases s.len(),
{
    if s.len() == 0 {
        s
    } else {
        insert_by(sort_by(s.drop_last(), key), s.last(), key)
    }
}

/// `s` with `e` inserted after the last element `x` with `le(x, e)`,
/// scanning from the back.
pub open spec fn insert_le<T>(s: Seq<T>, e: T, le: spec_fn(T, T) -> bool) -> Seq<T>
    decreases s.len(),
{
    if s.len() == 0 {
        seq![e]
    } else if le(s.last(), e) {
        s.push(e)
    } else {
        insert_le(s.drop_last(), e, le).push(s.last())
    }
}

/// The stable sort of `s` under the order `le`: elements that neither
/// precedes keep their order.
pub open spec fn sort_le<T>(s: Seq<T>, le: spec_fn(T, T) -> bool) -> Seq<T>
    decreases s.len(),
{
    if s.len() == 0 {
        s
    } else {
        insert_le(sort_le(s.drop_last(), le), s.last(), le)
    }
}

pub open spec fn sorted_by<T>(s: Seq<T>, key: spec_fn(T) -> int) -> bool {
    forall|i: int, j: int| 0 <= i < j < s.len() ==> key(#[trigger] s[i]) <= key(#[trigger] s[j])
}

/// Inserting scans from the back: `e` lands at `p` when the elements from `p`
/// on have larger keys and the one before `p`, if any, does not.
pub proof fn lemma_insert_at<T>(s: Seq<T>, e: T, key: spec_fn(T) -> int, p: int)
    requires
        0 <= p <= s.len(),
        forall|k: int| p <= k < s.len() ==> key(#[trigger] s[k]) > key(e),
        p == 0 || key(s[p - 1]) <= key(e),
    ensures
        insert_by(s, e, key) == s.take(p).push(e) + s.skip(p),
    decreases s.len(),
{
    if s.len() == 0 {
        assert(s.take(p).push(e) + s.skip(p) =~= seq![e]);
    } else if key(s.last()) <= key(e) {
        assert(p == s.len());
        assert(s.take(p).push(e) + s.skip(p) =~= s.push(e));
    } else {
        lemma_insert_at(s.drop_last(), e, key, p);
        assert(s.drop_last().take(p).push(e) + s.drop_last().skip(p) + seq![s.last()]
            =~= s.take(p).push(e) + s.skip(p));
    }
}

/// As [`lemma_insert_at`], for insertion under an order `le`.
pub proof fn lemma_insert_le_at<T>(s: Seq<T>, e: T, le: spec_fn(T, T) -> bool, p: int)
    requires
        0 <= p <= s.len(),
        forall|k: int| p <= k < s.len() ==> !le(#[trigger] s[k], e),
        p == 0 || le(s[p - 1], e),
    ensures
        insert_le(s, e, le) == s.take(p).push(e) + s.skip(p),
    decreases s.len(),
{
    if s.len() == 0 {
        assert(s.take(p).push(e) + s.skip(p) =~= seq![e]);
    } else if le(s.last(), e) {
        assert(p == s.len());
        assert(s.take(p).push(e) + s.skip(p) =~= s.push(e));
    } else {
        lemma_insert_le_at(s.drop_last(), e, le, p);
        assert(s.drop_last().take(p).push(e) + s.drop_last().skip(p) + seq![s.last()]
            =~= s.take(p).push(e) + s.skip(p));
    }
}

proof fn lemma_insert_keeps_sorted<T>(s: Seq<T>, e: T, key: spec_fn(T) -> int)
    requires
        sorted_by(s, key),
    ensures
        sorted_by(insert_by(s, e, key), key),
        insert_by(s, e, key).len() == s.len() + 1,
        insert_by(s, e, key).to_multiset() == s.to_multiset().insert(e),
        forall|k: int| 0 <= k < insert_by(s, e, key).len() ==>
            key(#[trigger] insert_by(s, e, key)[k]) <= key(e) || key(insert_by(s, e, key)[k])
                <= key(s.last()),
    decreases s.len(),
{
    broadcast use vstd::seq_lib::group_to_multiset_ensures;
    if s.len() == 0 {
        assert(seq![e] =~= Seq::<T>::empty().push(e));
    } else if key(s.last()) <= key(e) {
    } else {
        let r = insert_by(s.drop_last(), e, key);
        lemma_insert_keeps_sorted(s.drop_last(), e, key);
        assert(s.drop_last().push(s.last()) =~= s);
        let out = r.push(s.last());
        assert forall|i: int, j: int| 0 <= i < j < out.len() implies key(#[trigger] out[i]) <= key(#[trigger] out[j]) by {
            if j == out.len() - 1 {
                if s.drop_last().len() > 0 {
                    assert(key(s.drop_last().last()) <= key(s.last()));
                }
            }
        }
    }
}

/// The stable sort orders by key and is a permutation of its input.
pub proof fn lemma_sort_by_sorted<T>(s: Seq<T>, key: spec_fn(T) -> int)
    ensures
        sorted_by(sort_by(s, key), key),
        sort_by(s, key).len() == s.len(),
        sort_by(s, key).to_multiset() == s.to_multiset(),
    decreases s.len(),
{
    broadcast use vstd::seq_lib::group_to_multiset_ensures;
    if s.len() > 0 {
        lemma_sort_by_sorted(s.drop_last(), key);
        lemma_insert_keeps_sorted(sort_by(s.drop_last(), key), s.last(), key);
        assert(s.drop_last().push(s.last()) =~= s);
    }
}

proof fn lemma_insert_le_members<T>(s: Seq<T>, e: T, le: spec_fn(T, T) -> bool)
    ensures
        insert_le(s, e, le).len() == s.len() + 1,
        forall|k: int| 0 <= k < insert_le(s, e, le).len() ==>
            #[trigger] insert_le(s, e, le)[k] == e || s.contains(insert_le(s, e, le)[k]),
    decreases s.len(),
{
    if s.len() > 0 && !le(s.last(), e) {
        lemma_insert_le_members(s.drop_last(), e, le);
        let r = insert_le(s, e, le);
        assert forall|k: int| 0 <= k < r.len() implies #[trigger] r[k] == e || s.contains(r[k]) by {
            if k < r.len() - 1 {
                let prev = insert_le(s.drop_last(), e, le);
                assert(r[k] == prev[k]);
                if r[k] != e {
                    let w = choose|w: int| 0 <= w < s.drop_last().len() && s.drop_last()[w] == prev[k];
                    assert(s[w] == r[k]);
                }
            } else {
                assert(s[s.len() - 1] == r[k]);
            }
        }
    } else if s.len() > 0 {
        let r = insert_le(s, e, le);
        assert forall|k: int| 0 <= k < r.len() implies #[trigger] r[k] == e || s.contains(r[k]) by {
            if k < s.len() {
                assert(s[k] == r[k]);
            }
        }
    }
}

/// Sorting under `le` only reorders: every element of the result is one of `s`.
pub proof fn lemma_sort_le_members<T>(s: Seq<T>, le: spec_fn(T, T) -> bool)
    ensures
        sort_le(s, le).len() == s.len(),
        forall|k: int| 0 <= k < sort_le(s, le).len() ==> s.contains(#[trigger] sort_le(s, le)[k]),
    decreases s.len(),
{
    if s.len() > 0 {
        let prev = sort_le(s.drop_last(), le);
        lemma_sort_le_members(s.drop_last(), le);
        lemma_insert_le_members(prev, s.last(), le);
        let r = sort_le(s, le);
        assert forall|k: int| 0 <= k < r.len() implies s.contains(#[trigger] r[k]) by {
            if r[k] == s.last() {
                assert(s[s.len() - 1] == r[k]);
            } else {
                let w = choose|w: int| 0 <= w < prev.len() && prev[w] == r[k];
                let v = choose|v: int| 0 <= v < s.drop_last().len() && s.drop_last()[v] == prev[w];
                assert(s[v] == r[k]);
            }
        }
    }
}

proof fn lemma_insert_le_multiset<T>(s: Seq<T>, e: T, le: spec_fn(T, T) -> bool)
    ensures
        insert_le(s, e, le).to_multiset() == s.to_multiset().insert(e),
    decreases s.len(),
{
    broadcast use vstd::seq_lib::group_to_multiset_ensures;
    if s.len() == 0 {
        assert(seq![e] =~= Seq::<T>::empty().push(e));
    } else if !le(s.last(), e) {
        lemma_insert_le_multiset(s.drop_last(), e, le);
        assert(s.drop_last().push(s.last()) =~= s);
        assert(insert_le(s, e, le).to_multiset() =~= s.to_multiset().insert(e));
    }
}

/// Sorting under `le` is a permutation of its input.
pub proof fn lemma_sort_le_multiset<T>(s: Seq<T>, le: spec_fn(T, T) -> bool)
    ensures
        sort_le(s, le).to_multiset() == s.to_multiset(),
    decreases s.len(),
{
    broadcast use vstd::seq_lib::group_to_multiset_ensures;
    if s.len() > 0 {
        lemma_sort_le_multiset(s.drop_last(), le);
        lemma_insert_le_multiset(sort_le(s.drop_last(), le), s.last(), le);
        assert(s.drop_last().push(s.last()) =~= s);
    }
}

} // verus!
