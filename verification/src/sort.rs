//! Stable sorting of keyed items, as `sort_by` on a key gives it.
use vstd::prelude::*;

verus! {

/// Where an item with key `k` goes in `s`: after the leading items whose keys
/// are at most `k`. In a sorted `s` that is after every item of key `k` or less.
pub open spec fn insert_pos<T>(s: Seq<(i64, T)>, k: i64) -> nat
    decreases s.len(),
{
    if s.len() == 0 {
        0
    } else if s[0].0 <= k {
        1 + insert_pos(s.drop_first(), k)
    } else {
        0
    }
}

/// `s` with `x` inserted at its place.
pub open spec fn sorted_insert<T>(s: Seq<(i64, T)>, x: (i64, T)) -> Seq<(i64, T)> {
    s.insert(insert_pos(s, x.0) as int, x)
}

/// `s` stably sorted by key: each item is inserted, in order, after every
/// item already placed whose key is at most its own.
pub open spec fn sort_by_key<T>(s: Seq<(i64, T)>) -> Seq<(i64, T)>
    decreases s.len(),
{
    if s.len() == 0 {
        s
    } else {
        sorted_insert(sort_by_key(s.drop_last()), s.last())
    }
}

/// Whether the keys of `s` never decrease.
pub open spec fn keys_sorted<T>(s: Seq<(i64, T)>) -> bool {
    forall|i: int, j: int| 0 <= i <= j < s.len() ==> s[i].0 <= s[j].0
}

proof fn lemma_insert_pos_bound<T>(s: Seq<(i64, T)>, k: i64)
    ensures
        insert_pos(s, k) <= s.len(),
        forall|i: int| 0 <= i < insert_pos(s, k) ==> s[i].0 <= k,
        insert_pos(s, k) < s.len() ==> s[insert_pos(s, k) as int].0 > k,
    decreases s.len(),
{
    if s.len() > 0 {
        lemma_insert_pos_bound(s.drop_first(), k);
        if s[0].0 <= k {
            assert forall|i: int| 0 <= i < insert_pos(s, k) implies s[i].0 <= k by {
                if i > 0 {
                    assert(s[i] == s.drop_first()[i - 1]);
                }
            }
        }
    }
}

/// Inserting at its place keeps a sorted sequence sorted.
proof fn lemma_sorted_insert<T>(s: Seq<(i64, T)>, x: (i64, T))
    requires
        keys_sorted(s),
    ensures
        keys_sorted(sorted_insert(s, x)),
        sorted_insert(s, x).to_multiset() == s.to_multiset().insert(x),
{
    broadcast use vstd::seq_lib::group_to_multiset_ensures;
    lemma_insert_pos_bound(s, x.0);
    let p = insert_pos(s, x.0) as int;
    let r = sorted_insert(s, x);
    s.insert_ensures(p, x);
    assert forall|i: int, j: int| 0 <= i <= j < r.len() implies r[i].0 <= r[j].0 by {
        if j < p {
        } else if j == p {
            if i < p {
            }
        } else if i < p {
            assert(r[j] == s[j - 1]);
        } else if i == p {
            assert(r[j] == s[j - 1]);
            assert(s[p].0 > x.0);
        } else {
            assert(r[j] == s[j - 1]);
            assert(r[i] == s[i - 1]);
        }
    }
}

/// Sorting by key gives a sorted permutation of the items.
pub proof fn lemma_sort_by_key<T>(s: Seq<(i64, T)>)
    ensures
        keys_sorted(sort_by_key(s)),
        sort_by_key(s).to_multiset() == s.to_multiset(),
        sort_by_key(s).len() == s.len(),
    decreases s.len(),
{
    broadcast use vstd::seq_lib::group_to_multiset_ensures;
    if s.len() > 0 {
        lemma_sort_by_key(s.drop_last());
        lemma_sorted_insert(sort_by_key(s.drop_last()), s.last());
        assert(s.drop_last().push(s.last()) == s);
        assert(sort_by_key(s).to_multiset().len() == s.to_multiset().len());
    }
}

/// The items of `s` without their keys.
pub open spec fn items<T>(s: Seq<(i64, T)>) -> Seq<T> {
    s.map_values(|p: (i64, T)| p.1)
}

/// Sorting by key moves the items about and loses or adds none.
pub proof fn lemma_sort_by_key_items<T>(s: Seq<(i64, T)>)
    ensures
        items(sort_by_key(s)).to_multiset() == items(s).to_multiset(),
    decreases s.len(),
{
    broadcast use vstd::seq_lib::group_to_multiset_ensures;
    broadcast use vstd::seq_lib::to_multiset_insert;
    if s.len() > 0 {
        let r = sort_by_key(s.drop_last());
        let x = s.last();
        lemma_sort_by_key_items(s.drop_last());
        lemma_insert_pos_bound(r, x.0);
        let p = insert_pos(r, x.0) as int;
        assert(items(sort_by_key(s)) =~= items(r).insert(p, x.1));
        assert(items(s) =~= items(s.drop_last()).push(x.1));
    }
}

/// Sorts `v` stably by key.
pub fn stable_sort<T: Copy>(v: &Vec<(i64, T)>) -> (res: Vec<(i64, T)>)
    ensures
        res@ == sort_by_key(v@),
{
    let mut out: Vec<(i64, T)> = Vec::new();
    let mut i: usize = 0;
    while i < v.len()
        invariant
            i <= v.len(),
            out@ == sort_by_key(v@.take(i as int)),
        decreases v.len() - i,
    {
        let x = v[i];
        let k = x.0;
        let mut j: usize = 0;
        assert(out@.skip(0) == out@);
        while j < out.len() && out[j].0 <= k
            invariant
                j <= out.len(),
                insert_pos(out@, k) == j + insert_pos(out@.skip(j as int), k),
            decreases out.len() - j,
        {
            assert(out@.skip(j as int).drop_first() == out@.skip(j + 1));
            j = j + 1;
        }
        assert(v@.take(i + 1).drop_last() == v@.take(i as int));
        assert(v@.take(i + 1).last() == x);
        out.insert(j, x);
        i = i + 1;
    }
    assert(v@.take(v@.len() as int) == v@);
    out
}

} // verus!
