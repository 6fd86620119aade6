//! Why a joker joins the largest group of the other cards: put in place of
//! any card, the jokers make no stronger hand, and put in place of a card of
//! that group, they make a hand of just that kind. So jokers never make a
//! hand weaker than plain jacks would.
use vstd::prelude::*;
use crate::hands::{
    count_of, group_index, group_sizes, hand_kind, kind_of, lemma_group_index, lemma_hand, lemma_tally,
    lemma_top_two, sizes, tally, top_two, valid_hand, well_grouped,
};

verus! {

/// Whether the group `g` is counted: every group is, but that of `J` where
/// jokers are skipped.
pub open spec fn counted(g: (char, nat), skip: bool) -> bool {
    !(skip && g.0 == 'J')
}

/// Whether the card `c` is counted: every card is, but `J` where jokers are
/// skipped.
pub open spec fn counted_card(c: char, skip: bool) -> bool {
    !(skip && c == 'J')
}

/// The two largest sizes of the counted groups of `t`: no counted group is
/// larger than the first, which is the size of a counted group `m0` where
/// there is one; no other counted group is larger than the second, which is
/// 0 or the size of a counted group other than `m0`.
proof fn lemma_top_groups(t: Seq<(char, nat)>, skip: bool) -> (m0: int)
    requires
        well_grouped(t),
    ensures
        forall|m: int| 0 <= m < t.len() && counted(#[trigger] t[m], skip) ==> t[m].1 <= top_two(group_sizes(t, skip)).0,
        top_two(group_sizes(t, skip)).0 == 0 ==> forall|m: int| 0 <= m < t.len() ==> !counted(#[trigger] t[m], skip),
        top_two(group_sizes(t, skip)).0 > 0 ==> {
            &&& 0 <= m0 < t.len()
            &&& counted(t[m0], skip)
            &&& t[m0].1 == top_two(group_sizes(t, skip)).0
            &&& forall|m: int| 0 <= m < t.len() && m != m0 && counted(#[trigger] t[m], skip) ==> t[m].1 <= top_two(
                group_sizes(t, skip),
            ).1
            &&& top_two(group_sizes(t, skip)).1 == 0 || exists|m2: int|
                0 <= m2 < t.len() && m2 != m0 && counted(#[trigger] t[m2], skip) && t[m2].1 == top_two(
                    group_sizes(t, skip),
                ).1
        },
    decreases t.len(),
{
    if t.len() == 0 {
        0
    } else {
        let p = t.drop_last();
        let x = t.last();
        assert(well_grouped(p)) by {
            assert forall|k: int| 0 <= k < p.len() implies #[trigger] p[k].1 >= 1 by {
                assert(p[k] == t[k]);
            }
        }
        let pm = lemma_top_groups(p, skip);
        let (a, b) = top_two(group_sizes(p, skip));
        assert(x == t[t.len() - 1]);
        assert(x.1 >= 1);
        assert forall|m: int| 0 <= m < p.len() implies #[trigger] t[m] == p[m] by {}
        if !counted(x, skip) {
            assert(group_sizes(t, skip) == group_sizes(p, skip));
            if a > 0 {
                assert(t[pm] == p[pm]);
                if b > 0 {
                    let m2 = choose|m2: int| 0 <= m2 < p.len() && m2 != pm && counted(#[trigger] p[m2], skip) && p[m2].1 == b;
                    assert(t[m2] == p[m2]);
                }
            }
            pm
        } else {
            assert(group_sizes(t, skip) == group_sizes(p, skip).push(x.1));
            assert(group_sizes(p, skip).push(x.1).drop_last() == group_sizes(p, skip));
            let last = t.len() - 1;
            if x.1 >= a {
                if a > 0 {
                    assert(t[pm] == p[pm]);
                }
                last
            } else if x.1 >= b {
                assert(t[pm] == p[pm]);
                pm
            } else {
                assert(t[pm] == p[pm]);
                let m2 = choose|m2: int| 0 <= m2 < p.len() && m2 != pm && counted(#[trigger] p[m2], skip) && p[m2].1 == b;
                assert(t[m2] == p[m2]);
                pm
            }
        }
    }
}

/// The largest group of the counted cards of `x`.
pub open spec fn top_of(x: Seq<char>, skip: bool) -> nat {
    top_two(group_sizes(tally(x), skip)).0
}

/// The next largest group of the counted cards of `x`.
pub open spec fn second_of(x: Seq<char>, skip: bool) -> nat {
    top_two(group_sizes(tally(x), skip)).1
}

/// The two largest groups of the counted cards of `x`, as counts: no
/// counted card occurs more often than the first, which is the count of a
/// counted card `c0` where `x` holds one; no other counted card occurs more
/// often than the second, which is 0 or the count of a counted card other
/// than `c0`.
proof fn lemma_top_counts(x: Seq<char>, skip: bool) -> (c0: char)
    ensures
        forall|c: char| counted_card(c, skip) ==> #[trigger] count_of(x, c) <= top_of(x, skip),
        top_of(x, skip) == 0 ==> forall|c: char| counted_card(c, skip) ==> #[trigger] count_of(x, c) == 0,
        top_of(x, skip) > 0 ==> {
            &&& counted_card(c0, skip)
            &&& count_of(x, c0) == top_of(x, skip)
            &&& forall|c: char| counted_card(c, skip) && c != c0 ==> #[trigger] count_of(x, c) <= second_of(x, skip)
            &&& second_of(x, skip) == 0 || exists|c2: char|
                counted_card(c2, skip) && c2 != c0 && #[trigger] count_of(x, c2) == second_of(x, skip)
        },
{
    lemma_tally(x);
    let t = tally(x);
    assert(well_grouped(t));
    let m0 = lemma_top_groups(t, skip);
    let c0 = if top_of(x, skip) > 0 { t[m0].0 } else { 'A' };
    assert forall|c: char| counted_card(c, skip) && #[trigger] count_of(x, c) > 0 implies {
        &&& 0 <= group_index(t, c) < t.len()
        &&& t[group_index(t, c) as int].0 == c
        &&& t[group_index(t, c) as int].1 == count_of(x, c)
        &&& counted(t[group_index(t, c) as int], skip)
    } by {
        lemma_group_index(t, c);
    }
    if top_of(x, skip) > 0 && second_of(x, skip) > 0 {
        let m2 = choose|m2: int| 0 <= m2 < t.len() && m2 != m0 && counted(#[trigger] t[m2], skip) && t[m2].1 == second_of(x, skip);
        assert(t[m2].0 != c0);
        assert(count_of(x, t[m2].0) == second_of(x, skip));
    }
    c0
}

/// `cs` with each joker put in place of the card at the same place of `sub`.
pub open spec fn substitute(cs: Seq<char>, sub: Seq<char>) -> Seq<char> {
    Seq::new(cs.len(), |i: int| if cs[i] == 'J' { sub[i] } else { cs[i] })
}

/// How many jokers of `cs` the cards `sub` put in place of `c`.
pub open spec fn jokers_to(cs: Seq<char>, sub: Seq<char>, c: char) -> nat
    decreases cs.len(),
{
    if cs.len() == 0 {
        0
    } else {
        jokers_to(cs.drop_last(), sub, c) + if cs.last() == 'J' && sub[cs.len() - 1] == c { 1nat } else { 0nat }
    }
}

/// How often each card occurs once the jokers are put in place of other
/// cards: a card other than `J` as often as before and as often as jokers
/// go to it; `J` as often as jokers go to it. No more jokers go to a card,
/// or to two cards together, than there are.
proof fn lemma_substitute_counts(cs: Seq<char>, sub: Seq<char>)
    requires
        sub.len() >= cs.len(),
    ensures
        forall|c: char| c != 'J' ==> #[trigger] count_of(substitute(cs, sub), c) == count_of(cs, c) + jokers_to(cs, sub, c),
        count_of(substitute(cs, sub), 'J') == jokers_to(cs, sub, 'J'),
        forall|c: char| #[trigger] jokers_to(cs, sub, c) <= count_of(cs, 'J'),
        forall|c: char, d: char| c != d ==> #[trigger] jokers_to(cs, sub, c) + #[trigger] jokers_to(cs, sub, d) <= count_of(cs, 'J'),
    decreases cs.len(),
{
    if cs.len() > 0 {
        let p = cs.drop_last();
        lemma_substitute_counts(p, sub);
        let r = substitute(cs, sub);
        assert(r.drop_last() == substitute(p, sub));
        assert(r.last() == if cs.last() == 'J' { sub[cs.len() - 1] } else { cs.last() });
        assert forall|c: char| #[trigger] count_of(r, c) == count_of(substitute(p, sub), c) + if r.last() == c { 1nat } else { 0nat } by {}
        assert forall|c: char| #[trigger] jokers_to(cs, sub, c) == jokers_to(p, sub, c) + if cs.last() == 'J' && sub[cs.len() - 1] == c { 1nat } else { 0nat } by {}
        assert forall|c: char| #[trigger] count_of(cs, c) == count_of(p, c) + if cs.last() == c { 1nat } else { 0nat } by {}
        assert forall|c: char| c != 'J' implies #[trigger] count_of(r, c) == count_of(cs, c) + jokers_to(cs, sub, c) by {
            assert(count_of(substitute(p, sub), c) == count_of(p, c) + jokers_to(p, sub, c));
        }
        assert forall|c: char| #[trigger] jokers_to(cs, sub, c) <= count_of(cs, 'J') by {
            assert(jokers_to(p, sub, c) <= count_of(p, 'J'));
        }
        assert forall|c: char, d: char| c != d implies #[trigger] jokers_to(cs, sub, c) + #[trigger] jokers_to(cs, sub, d) <= count_of(cs, 'J') by {
            assert(jokers_to(p, sub, c) + jokers_to(p, sub, d) <= count_of(p, 'J'));
        }
    }
}

/// Where `sub` puts `d` everywhere, all jokers go to `d` and none elsewhere.
proof fn lemma_jokers_to_one(cs: Seq<char>, sub: Seq<char>, d: char)
    requires
        sub.len() >= cs.len(),
        forall|i: int| 0 <= i < sub.len() ==> #[trigger] sub[i] == d,
    ensures
        jokers_to(cs, sub, d) == count_of(cs, 'J'),
        forall|c: char| c != d ==> #[trigger] jokers_to(cs, sub, c) == 0,
    decreases cs.len(),
{
    if cs.len() > 0 {
        lemma_jokers_to_one(cs.drop_last(), sub, d);
        assert(sub[cs.len() - 1] == d);
        assert forall|c: char| c != d implies #[trigger] jokers_to(cs, sub, c) == 0 by {
            assert(jokers_to(cs.drop_last(), sub, c) == 0);
        }
    }
}

/// A card that occurs in `cs` stands at one of its places.
proof fn lemma_count_place(cs: Seq<char>, c: char)
    requires
        count_of(cs, c) > 0,
    ensures
        exists|i: int| 0 <= i < cs.len() && cs[i] == c,
    decreases cs.len(),
{
    if cs.last() == c {
        assert(cs[cs.len() - 1] == c);
    } else {
        lemma_count_place(cs.drop_last(), c);
        let i = choose|i: int| 0 <= i < cs.drop_last().len() && cs.drop_last()[i] == c;
        assert(cs[i] == c);
    }
}

/// Kinds grow with the largest group, and with the next largest where the
/// largest is the same.
proof fn lemma_kind_order(t1: nat, s1: nat, t2: nat, s2: nat)
    requires
        (t1 < t2 && t2 >= 2 && t1 < 5) || (t1 == t2 && s1 <= s2) || t2 >= 5 || t1 <= 1,
    ensures
        kind_of(t1, s1).rank() <= kind_of(t2, s2).rank(),
{
}

/// What the groups of a hand of five cards give: the largest group of the
/// cards other than `J` and the jokers make up at most five cards, and
/// where that group is empty, all five are jokers.
proof fn lemma_hand_groups(cs: Seq<char>)
    requires
        cs.len() == 5,
    ensures
        top_of(cs, true) + count_of(cs, 'J') <= 5,
        top_of(cs, true) == 0 ==> count_of(cs, 'J') == 5,
        top_of(cs, true) >= second_of(cs, true),
        top_of(cs, false) >= second_of(cs, false),
        hand_kind(cs, true) == kind_of(top_of(cs, true) + count_of(cs, 'J'), second_of(cs, true)),
        hand_kind(cs, false) == kind_of(top_of(cs, false), second_of(cs, false)),
{
    lemma_hand(cs);
    lemma_top_two(group_sizes(tally(cs), true));
    lemma_top_two(sizes(tally(cs)));
}

/// Put in place of any cards, the jokers of a hand make a hand whose kind,
/// with plain jacks, is no stronger than the kind of the hand with jokers.
pub proof fn lemma_jokers_no_better(cs: Seq<char>, sub: Seq<char>)
    requires
        cs.len() == 5,
        sub.len() == 5,
    ensures
        hand_kind(substitute(cs, sub), false).rank() <= hand_kind(cs, true).rank(),
{
    let r = substitute(cs, sub);
    let j = count_of(cs, 'J');
    lemma_hand_groups(cs);
    lemma_hand_groups(r);
    let c1 = lemma_top_counts(cs, true);
    let c0 = lemma_top_counts(r, false);
    lemma_substitute_counts(cs, sub);
    let a = top_of(cs, true);
    let b = second_of(cs, true);
    let t = top_of(r, false);
    let s = second_of(r, false);
    if t > 0 {
        if c0 == 'J' {
            assert(count_of(r, 'J') == jokers_to(cs, sub, 'J'));
            assert(jokers_to(cs, sub, 'J') <= j);
        } else {
            assert(count_of(r, c0) == count_of(cs, c0) + jokers_to(cs, sub, c0));
            assert(count_of(cs, c0) <= a);
            assert(jokers_to(cs, sub, c0) <= j);
        }
    }
    assert(t <= a + j);
    if t < a + j {
        lemma_kind_order(t, s, a + j, b);
    } else if a + j >= 5 {
        lemma_kind_order(t, s, a + j, b);
    } else {
        // all jokers went to `c0`, which has a largest group of the others
        assert(c0 != 'J') by {
            if c0 == 'J' {
                assert(count_of(r, 'J') == jokers_to(cs, sub, 'J'));
                assert(jokers_to(cs, sub, 'J') <= j);
            }
        }
        assert(count_of(r, c0) == count_of(cs, c0) + jokers_to(cs, sub, c0));
        assert(count_of(cs, c0) <= a);
        assert(jokers_to(cs, sub, c0) <= j);
        assert(count_of(cs, c0) == a && jokers_to(cs, sub, c0) == j);
        assert forall|d: char| d != c0 implies #[trigger] jokers_to(cs, sub, d) == 0 by {
            assert(jokers_to(cs, sub, d) + jokers_to(cs, sub, c0) <= j);
        }
        if s > 0 {
            let c2 = choose|c2: char| counted_card(c2, false) && c2 != c0 && #[trigger] count_of(r, c2) == s;
            if c2 == 'J' {
                assert(count_of(r, 'J') == jokers_to(cs, sub, 'J'));
                assert(jokers_to(cs, sub, 'J') == 0);
            }
            assert(c2 != 'J');
            assert(count_of(r, c2) == count_of(cs, c2) + jokers_to(cs, sub, c2));
            assert(jokers_to(cs, sub, c2) == 0);
            assert(a > 0);
            if c2 != c1 {
                assert(count_of(cs, c2) <= b);
            } else {
                assert(count_of(cs, c0) <= b);
                assert(count_of(cs, c2) <= a);
            }
        }
        assert(s <= b);
        lemma_kind_order(t, s, a + j, b);
    }
}

/// Put in place of a card of the largest group of the other cards (of any
/// card, where all five are jokers), the jokers of a hand make a hand whose
/// kind, with plain jacks, is that of the hand with jokers.
pub proof fn lemma_jokers_best(cs: Seq<char>)
    requires
        cs.len() == 5,
    ensures
        exists|sub: Seq<char>| {
            &&& sub.len() == 5
            &&& valid_hand(cs) ==> valid_hand(sub)
            &&& #[trigger] hand_kind(substitute(cs, sub), false) == hand_kind(cs, true)
        },
{
    let j = count_of(cs, 'J');
    lemma_hand_groups(cs);
    let c1 = lemma_top_counts(cs, true);
    let a = top_of(cs, true);
    let b = second_of(cs, true);
    let d = if a > 0 { c1 } else { 'A' };
    let sub = Seq::new(5, |i: int| d);
    let r = substitute(cs, sub);
    lemma_hand_groups(r);
    lemma_substitute_counts(cs, sub);
    lemma_jokers_to_one(cs, sub, d);
    let c0 = lemma_top_counts(r, false);
    let t = top_of(r, false);
    let s = second_of(r, false);
    assert(d != 'J');
    // the counts of `r`
    assert(count_of(r, d) == count_of(cs, d) + j);
    assert(count_of(r, 'J') == 0);
    assert forall|c: char| c != d && c != 'J' implies #[trigger] count_of(r, c) == count_of(cs, c) by {
        assert(jokers_to(cs, sub, c) == 0);
    }
    if a == 0 {
        assert(count_of(cs, 'A') == 0);
    }
    assert(count_of(r, d) == a + j);
    // the largest group of `r`
    assert(t >= a + j);
    assert(t >= 1);
    if c0 != d {
        assert(count_of(r, c0) == count_of(cs, c0));
        assert(count_of(cs, c0) <= a);
    }
    assert(t == a + j);
    // the next largest group of `r`
    if s > 0 {
        let c2 = choose|c2: char| counted_card(c2, false) && c2 != c0 && #[trigger] count_of(r, c2) == s;
        assert(c2 != 'J');
        if c0 == d {
            assert(count_of(r, c2) == count_of(cs, c2));
            assert(a > 0);
            assert(count_of(cs, c2) <= b);
        } else {
            assert(count_of(r, c0) == count_of(cs, c0));
            assert(count_of(cs, c0) <= a);
            assert(j == 0);
            assert(a > 0);
            assert(count_of(cs, c0) <= b);
            if c2 == d {
                assert(count_of(r, c2) == a);
            } else {
                assert(count_of(r, c2) == count_of(cs, c2));
                assert(count_of(cs, c2) <= a);
            }
        }
    }
    if b > 0 {
        let c2 = choose|c2: char| counted_card(c2, true) && c2 != c1 && #[trigger] count_of(cs, c2) == b;
        assert(a > 0);
        assert(count_of(r, c2) == b);
        if c2 == c0 {
            assert(b == a + j);
            assert(count_of(r, d) == a);
            assert(s >= count_of(r, d));
        } else {
            assert(s >= count_of(r, c2));
        }
    }
    assert(s == b);
    if valid_hand(cs) {
        if a > 0 {
            lemma_count_place(cs, c1);
            let i = choose|i: int| 0 <= i < cs.len() && cs[i] == c1;
            assert(crate::hands::is_card(cs[i]));
        }
        assert forall|i: int| 0 <= i < 5 implies crate::hands::is_card(#[trigger] sub[i]) by {}
    }
    assert(hand_kind(substitute(cs, sub), false) == hand_kind(cs, true));
}

/// Without a group of `J`, skipping jokers skips nothing.
proof fn lemma_no_joker_group(t: Seq<(char, nat)>)
    requires
        forall|m: int| 0 <= m < t.len() ==> (#[trigger] t[m]).0 != 'J',
    ensures
        group_sizes(t, true) == group_sizes(t, false),
    decreases t.len(),
{
    if t.len() > 0 {
        assert(t.last() == t[t.len() - 1]);
        lemma_no_joker_group(t.drop_last());
    }
}

/// Jokers never make a hand weaker than it is with plain jacks, and a hand
/// that holds a joker is at least one pair.
pub proof fn lemma_jokers_never_weaken(cs: Seq<char>)
    requires
        cs.len() == 5,
    ensures
        hand_kind(cs, true).rank() >= hand_kind(cs, false).rank(),
        count_of(cs, 'J') > 0 ==> hand_kind(cs, true).rank() >= 1,
{
    lemma_hand(cs);
    let t = tally(cs);
    let j = count_of(cs, 'J');
    let rest = group_sizes(t, true);
    lemma_top_two(rest);
    lemma_top_two(sizes(t));
    let a = top_two(rest).0;
    if j == 0 {
        assert forall|m: int| 0 <= m < t.len() implies (#[trigger] t[m]).0 != 'J' by {}
        lemma_no_joker_group(t);
    } else if a == 0 {
        assert(rest.len() == 0);
        assert(j == 5);
    } else {
        lemma_kind_order(top_two(sizes(t)).0, top_two(sizes(t)).1, a + j, top_two(rest).1);
    }
}

} // verus!
