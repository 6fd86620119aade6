//! The length of the longest strictly increasing run of numbers that can be
//! picked out of a sequence, keeping their order.
use vstd::prelude::*;

verus! {

/// Whether the positions `idx` pick a strictly increasing run out of `s`:
/// each lies in `s`, and from one to a later one both the positions and
/// the values at them increase.
pub open spec fn is_increasing_pick(s: Seq<i32>, idx: Seq<int>) -> bool {
    &&& forall|k: int| 0 <= k < idx.len() ==> 0 <= #[trigger] idx[k] < s.len()
    &&& forall|k: int, l: int|
        0 <= k < l < idx.len() ==> #[trigger] idx[k] < #[trigger] idx[l] && s[idx[k]] < s[idx[l]]
}

/// Whether `idx` is an increasing pick out of `s` that starts at `i`.
pub open spec fn pick_from(s: Seq<i32>, idx: Seq<int>, i: int) -> bool {
    is_increasing_pick(s, idx) && idx.len() >= 1 && idx[0] == i
}

/// Whether `r` is the length of the longest increasing pick out of `s`:
/// some pick has `r` numbers and none has more.
pub open spec fn is_longest_len(s: Seq<i32>, r: int) -> bool {
    &&& exists|idx: Seq<int>| #[trigger] is_increasing_pick(s, idx) && idx.len() == r
    &&& forall|idx: Seq<int>| #[trigger] is_increasing_pick(s, idx) ==> idx.len() <= r
}

/// A pick whose positions lie from `lo` on has no more numbers than there
/// are positions from `lo` to the end.
proof fn lemma_pick_bound(s: Seq<i32>, idx: Seq<int>, lo: int)
    requires
        is_increasing_pick(s, idx),
        lo <= s.len(),
        forall|k: int| 0 <= k < idx.len() ==> lo <= #[trigger] idx[k],
    ensures
        idx.len() <= s.len() - lo,
    decreases idx.len(),
{
    if idx.len() > 0 {
        let rest = idx.drop_first();
        assert forall|k: int| 0 <= k < rest.len() implies idx[0] + 1 <= #[trigger] rest[k] by {
            assert(rest[k] == idx[k + 1]);
            assert(idx[0] < idx[k + 1]);
        }
        assert forall|k: int, l: int| 0 <= k < l < rest.len() implies #[trigger] rest[k] < #[trigger] rest[l]
            && s[rest[k]] < s[rest[l]] by {
            assert(rest[k] == idx[k + 1] && rest[l] == idx[l + 1]);
        }
        assert(lo <= idx[0] < s.len());
        lemma_pick_bound(s, rest, idx[0] + 1);
    }
}

/// No increasing pick out of `s` has more numbers than `s` has.
pub proof fn lemma_pick_len(s: Seq<i32>, idx: Seq<int>)
    requires
        is_increasing_pick(s, idx),
    ensures
        idx.len() <= s.len(),
{
    lemma_pick_bound(s, idx, 0);
}

/// A pick that starts at `i`, continued by one that starts later at a
/// larger number, is a pick that starts at `i`.
proof fn lemma_pick_prepend(s: Seq<i32>, i: int, rest: Seq<int>)
    requires
        0 <= i < s.len(),
        pick_from(s, rest, rest[0]),
        i < rest[0],
        s[i] < s[rest[0]],
    ensures
        pick_from(s, seq![i] + rest, i),
        (seq![i] + rest).len() == rest.len() + 1,
{
    let p = seq![i] + rest;
    assert forall|k: int| 0 <= k < p.len() implies 0 <= #[trigger] p[k] < s.len() by {
        if k > 0 {
            assert(p[k] == rest[k - 1]);
        }
    }
    assert forall|k: int, l: int| 0 <= k < l < p.len() implies #[trigger] p[k] < #[trigger] p[l] && s[p[k]] < s[p[l]] by {
        assert(p[l] == rest[l - 1]);
        if k == 0 {
            if l > 1 {
                assert(rest[0] < rest[l - 1] && s[rest[0]] < s[rest[l - 1]]);
            }
        } else {
            assert(p[k] == rest[k - 1]);
        }
    }
}

/// A pick from `i` of two numbers or more goes on with a pick from its
/// second position, which is later and holds a larger number.
proof fn lemma_pick_tail(s: Seq<i32>, idx: Seq<int>, i: int)
    requires
        pick_from(s, idx, i),
        idx.len() >= 2,
    ensures
        pick_from(s, idx.drop_first(), idx[1]),
        i < idx[1] < s.len(),
        s[i] < s[idx[1]],
{
    let rest = idx.drop_first();
    assert(idx[0] < idx[1] && s[idx[0]] < s[idx[1]]);
    assert forall|k: int| 0 <= k < rest.len() implies 0 <= #[trigger] rest[k] < s.len() by {
        assert(rest[k] == idx[k + 1]);
    }
    assert forall|k: int, l: int| 0 <= k < l < rest.len() implies #[trigger] rest[k] < #[trigger] rest[l]
        && s[rest[k]] < s[rest[l]] by {
        assert(rest[k] == idx[k + 1] && rest[l] == idx[l + 1]);
    }
}

/// The length of the longest strictly increasing run of numbers that can be
/// picked out of `data`, keeping their order. For each position, from the
/// last to the first, it works out the longest run that starts there: one
/// more than the longest that starts later at a larger number.
pub fn calculate_max_len(data: &[i32]) -> (res: i32)
    requires
        data@.len() >= 1,
        forall|idx: Seq<int>| #[trigger] is_increasing_pick(data@, idx) ==> idx.len() <= i32::MAX,
    ensures
        is_longest_len(data@, res as int),
{
    let ghost s = data@;
    let n = data.len();
    let mut runs: Vec<(i32, i32)> = Vec::new();
    let mut k: usize = 0;
    while k < n
        invariant
            k <= n,
            n == s.len(),
            s == data@,
            runs@.len() == k,
            forall|j: int| 0 <= j < k ==> (#[trigger] runs@[j]).0 == s[j] && runs@[j].1 == 1,
        decreases n - k,
    {
        runs.push((data[k], 1));
        k = k + 1;
    }
    // for each position, a longest pick that starts there
    let ghost mut picks: Seq<Seq<int>> = Seq::new(n as nat, |j: int| seq![j]);
    assert forall|j: int| 0 <= j < n implies pick_from(s, #[trigger] picks[j], j) by {
        assert(picks[j] == seq![j]);
    }
    let mut i: usize = n - 1;
    assert forall|idx: Seq<int>| #[trigger] pick_from(s, idx, (n - 1) as int) implies idx.len() <= runs@[n - 1].1 by {
        if idx.len() >= 2 {
            lemma_pick_tail(s, idx, (n - 1) as int);
        }
    }
    while i > 0
        invariant
            0 <= i < n,
            n == s.len(),
            s == data@,
            runs@.len() == n,
            picks.len() == n,
            forall|idx: Seq<int>| #[trigger] is_increasing_pick(s, idx) ==> idx.len() <= i32::MAX,
            forall|j: int| 0 <= j < n ==> (#[trigger] runs@[j]).0 == s[j],
            forall|j: int| 0 <= j < i ==> (#[trigger] runs@[j]).1 == 1,
            forall|j: int| 0 <= j < n ==> pick_from(s, #[trigger] picks[j], j) && picks[j].len() == runs@[j].1,
            forall|j: int, idx: Seq<int>| i <= j < n && #[trigger] pick_from(s, idx, j) ==> idx.len() <= runs@[j].1,
        decreases i,
    {
        i = i - 1;
        let curr_val = runs[i].0;
        let mut max_len: i32 = 0;
        let ghost mut best: int = -1;
        let mut k: usize = i;
        while k < n
            invariant
                i < n,
                i <= k <= n,
                n == s.len(),
                runs@.len() == n,
                picks.len() == n,
                curr_val == s[i as int],
                runs@[i as int].1 == 1,
                forall|j: int| 0 <= j < n ==> (#[trigger] runs@[j]).0 == s[j],
                forall|j: int| 0 <= j < n ==> pick_from(s, #[trigger] picks[j], j) && picks[j].len() == runs@[j].1,
                best == -1 ==> max_len == 0,
                best != -1 ==> i < best < k && s[best] > curr_val && runs@[best].1 == max_len,
                forall|j: int| i <= j < k && s[j] > curr_val ==> (#[trigger] runs@[j]).1 <= max_len,
            decreases n - k,
        {
            let (val, len) = runs[k];
            if val > curr_val && len > max_len {
                max_len = len;
                proof {
                    best = k as int;
                }
            }
            k = k + 1;
        }
        // the longest pick from `i`
        let ghost new_pick: Seq<int> = if best == -1 {
            seq![i as int]
        } else {
            seq![i as int] + picks[best]
        };
        proof {
            if best != -1 {
                lemma_pick_prepend(s, i as int, picks[best]);
            } else {
                assert(pick_from(s, new_pick, i as int));
            }
            assert(is_increasing_pick(s, new_pick));
            assert(new_pick.len() == 1 + max_len);
            assert forall|idx: Seq<int>| #[trigger] pick_from(s, idx, i as int) implies idx.len() <= 1 + max_len by {
                if idx.len() >= 2 {
                    lemma_pick_tail(s, idx, i as int);
                    assert(pick_from(s, idx.drop_first(), idx[1]));
                    assert(idx.drop_first().len() <= runs@[idx[1]].1);
                    assert(s[idx[1]] > curr_val);
                }
            }
        }
        let len_i = runs[i].1 + max_len;
        runs.set(i, (curr_val, len_i));
        proof {
            picks = picks.update(i as int, new_pick);
        }
    }
    // the longest of the runs from each position
    let mut max: i32 = 0;
    let ghost mut arg: int = -1;
    let mut k: usize = 0;
    while k < n
        invariant
            k <= n,
            n == s.len(),
            runs@.len() == n,
            picks.len() == n,
            forall|j: int| 0 <= j < n ==> pick_from(s, #[trigger] picks[j], j) && picks[j].len() == runs@[j].1,
            arg == -1 ==> max == 0 && k == 0,
            arg != -1 ==> 0 <= arg < k && runs@[arg].1 == max,
            forall|j: int| 0 <= j < k ==> (#[trigger] runs@[j]).1 <= max,
        decreases n - k,
    {
        let (_, len) = runs[k];
        assert(picks[k as int].len() >= 1);
        if len > max {
            max = len;
            proof {
                arg = k as int;
            }
        }
        k = k + 1;
    }
    proof {
        assert(is_increasing_pick(s, picks[arg]));
        assert forall|idx: Seq<int>| #[trigger] is_increasing_pick(s, idx) implies idx.len() <= max by {
            if idx.len() >= 1 {
                assert(0 <= idx[0] < n);
                assert(pick_from(s, idx, idx[0]));
                assert(idx.len() <= runs@[idx[0]].1);
            }
        }
    }
    max
}

} // verus!
