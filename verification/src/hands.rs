//! What camel card hands are made of: the cards, their ranks, how many of
//! each card a hand holds, the kind of a hand, and its strength.
use std::cmp::Ordering;
use vstd::prelude::*;

verus! {

/// Whether `c` names a card: `2` to `9`, `T`, `J`, `Q`, `K` or `A`.
pub open spec fn is_card(c: char) -> bool {
    ('2' <= c && c <= '9') || c == 'T' || c == 'J' || c == 'Q' || c == 'K' || c == 'A'
}

/// The rank of a card where the joker `J` is the weakest card:
/// `J`, `2` to `9`, `T`, `Q`, `K`, `A` rank from 0 to 12.
pub open spec fn joker_rank(c: char) -> int {
    if c == 'J' {
        0
    } else if '2' <= c && c <= '9' {
        (c as int) - ('1' as int)
    } else if c == 'T' {
        9
    } else if c == 'Q' {
        10
    } else if c == 'K' {
        11
    } else {
        12
    }
}

/// The rank of a card where the jack `J` stands between `T` and `Q`:
/// `2` to `9`, `T`, `J`, `Q`, `K`, `A` rank from 0 to 12.
pub open spec fn plain_rank(c: char) -> int {
    if '2' <= c && c <= '9' {
        (c as int) - ('2' as int)
    } else if c == 'T' {
        8
    } else if c == 'J' {
        9
    } else if c == 'Q' {
        10
    } else if c == 'K' {
        11
    } else {
        12
    }
}

/// The cards from weakest to strongest where the joker `J` is the weakest.
pub open spec fn joker_order() -> Seq<char> {
    seq!['J', '2', '3', '4', '5', '6', '7', '8', '9', 'T', 'Q', 'K', 'A']
}

/// The cards from weakest to strongest where the jack `J` stands between
/// `T` and `Q`.
pub open spec fn plain_order() -> Seq<char> {
    seq!['2', '3', '4', '5', '6', '7', '8', '9', 'T', 'J', 'Q', 'K', 'A']
}

/// Under each rule a card ranks by its place in the order of the cards,
/// from 0 for the weakest to 12 for `A`: with jokers `J`, `2`, ..., `9`,
/// `T`, `Q`, `K`, `A`; with plain jacks `2`, ..., `9`, `T`, `J`, `Q`, `K`,
/// `A`. Each order holds every card once, and nothing else.
pub proof fn lemma_card_orders()
    ensures
        forall|i: int| 0 <= i < 13 ==> #[trigger] joker_rank(joker_order()[i]) == i,
        forall|i: int| 0 <= i < 13 ==> #[trigger] plain_rank(plain_order()[i]) == i,
        forall|i: int| 0 <= i < 13 ==> card_rank(#[trigger] joker_order()[i], true) == i,
        forall|i: int| 0 <= i < 13 ==> card_rank(#[trigger] plain_order()[i], false) == i,
        forall|c: char| is_card(c) <==> joker_order().contains(c),
        forall|c: char| is_card(c) <==> plain_order().contains(c),
        joker_order().len() == 13,
        plain_order().len() == 13,
{
    assert forall|c: char| is_card(c) implies joker_order().contains(c) && plain_order().contains(c) by {
        if c == 'J' {
            assert(joker_order()[0] == c && plain_order()[9] == c);
        } else if c == 'T' {
            assert(joker_order()[9] == c && plain_order()[8] == c);
        } else if c == 'Q' {
            assert(joker_order()[10] == c && plain_order()[10] == c);
        } else if c == 'K' {
            assert(joker_order()[11] == c && plain_order()[11] == c);
        } else if c == 'A' {
            assert(joker_order()[12] == c && plain_order()[12] == c);
        } else if c == '2' {
            assert(joker_order()[1] == c && plain_order()[0] == c);
        } else if c == '3' {
            assert(joker_order()[2] == c && plain_order()[1] == c);
        } else if c == '4' {
            assert(joker_order()[3] == c && plain_order()[2] == c);
        } else if c == '5' {
            assert(joker_order()[4] == c && plain_order()[3] == c);
        } else if c == '6' {
            assert(joker_order()[5] == c && plain_order()[4] == c);
        } else if c == '7' {
            assert(joker_order()[6] == c && plain_order()[5] == c);
        } else if c == '8' {
            assert(joker_order()[7] == c && plain_order()[6] == c);
        } else {
            assert(c == '9');
            assert(joker_order()[8] == c && plain_order()[7] == c);
        }
    }
}

/// The kinds of hand, weakest first.
#[derive(Debug, PartialEq, Eq, PartialOrd, Ord, Clone, Copy, Structural)]
pub enum HandKind {
    HighCard,
    OnePair,
    TwoPair,
    ThreeOrAKind,
    FullHouse,
    FourOfAKind,
    FiveOfAKind,
}

impl HandKind {
    /// The place of the kind, from 0 for `HighCard` to 6 for `FiveOfAKind`.
    pub open spec fn rank(self) -> int {
        match self {
            HandKind::HighCard => 0,
            HandKind::OnePair => 1,
            HandKind::TwoPair => 2,
            HandKind::ThreeOrAKind => 3,
            HandKind::FullHouse => 4,
            HandKind::FourOfAKind => 5,
            HandKind::FiveOfAKind => 6,
        }
    }

    /// The place of the kind, from 0 for `HighCard` to 6 for `FiveOfAKind`.
    pub fn rank_of(&self) -> (res: u32)
        ensures
            res == self.rank(),
    {
        match self {
            HandKind::HighCard => 0,
            HandKind::OnePair => 1,
            HandKind::TwoPair => 2,
            HandKind::ThreeOrAKind => 3,
            HandKind::FullHouse => 4,
            HandKind::FourOfAKind => 5,
            HandKind::FiveOfAKind => 6,
        }
    }
}

/// How many times `c` occurs in `cs`.
pub open spec fn count_of(cs: Seq<char>, c: char) -> nat
    decreases cs.len(),
{
    if cs.len() == 0 {
        0
    } else {
        count_of(cs.drop_last(), c) + if cs.last() == c { 1nat } else { 0nat }
    }
}

/// Where the group of `c` stands in the groups `t`; `t.len()` where there
/// is none.
pub open spec fn group_index(t: Seq<(char, nat)>, c: char) -> nat
    decreases t.len(),
{
    if t.len() == 0 {
        0
    } else if t[0].0 == c {
        0
    } else {
        1 + group_index(t.drop_first(), c)
    }
}

/// The groups `t` with one more `c`.
pub open spec fn tally_add(t: Seq<(char, nat)>, c: char) -> Seq<(char, nat)> {
    let k = group_index(t, c) as int;
    if k < t.len() {
        t.update(k, (c, t[k].1 + 1))
    } else {
        t.push((c, 1))
    }
}

/// The cards of `cs` grouped: each card once, with how many times it
/// occurs, in the order in which the cards first occur.
pub open spec fn tally(cs: Seq<char>) -> Seq<(char, nat)>
    decreases cs.len(),
{
    if cs.len() == 0 {
        Seq::empty()
    } else {
        tally_add(tally(cs.drop_last()), cs.last())
    }
}

/// The sizes of the groups `t`, leaving out the group of `J` where
/// `skip_jokers` holds.
pub open spec fn group_sizes(t: Seq<(char, nat)>, skip_jokers: bool) -> Seq<nat>
    decreases t.len(),
{
    if t.len() == 0 {
        Seq::empty()
    } else if skip_jokers && t.last().0 == 'J' {
        group_sizes(t.drop_last(), skip_jokers)
    } else {
        group_sizes(t.drop_last(), skip_jokers).push(t.last().1)
    }
}

/// The two largest of `s` (counted with repeats), largest first; 0 where
/// there are fewer.
pub open spec fn top_two(s: Seq<nat>) -> (nat, nat)
    decreases s.len(),
{
    if s.len() == 0 {
        (0, 0)
    } else {
        let (a, b) = top_two(s.drop_last());
        let x = s.last();
        if x >= a {
            (x, a)
        } else if x >= b {
            (a, x)
        } else {
            (a, b)
        }
    }
}

/// The kind of a hand whose largest group, jokers counted in, has `top`
/// cards and whose next largest group has `second`.
pub open spec fn kind_of(top: nat, second: nat) -> HandKind {
    if top >= 5 {
        HandKind::FiveOfAKind
    } else if top == 4 {
        HandKind::FourOfAKind
    } else if top == 3 {
        if second >= 2 { HandKind::FullHouse } else { HandKind::ThreeOrAKind }
    } else if top == 2 {
        if second >= 2 { HandKind::TwoPair } else { HandKind::OnePair }
    } else {
        HandKind::HighCard
    }
}

/// The kind of the hand `cs`: set by its largest group of equal cards and
/// the next largest. Where `wild` holds, the jokers `J` join the largest
/// group of the other cards.
pub open spec fn hand_kind(cs: Seq<char>, wild: bool) -> HandKind {
    let t = tally(cs);
    let j = if wild { count_of(cs, 'J') } else { 0 };
    let tt = top_two(group_sizes(t, wild));
    kind_of(tt.0 + j, tt.1)
}

/// The sum of `s`.
pub open spec fn sum_of(s: Seq<nat>) -> nat
    decreases s.len(),
{
    if s.len() == 0 {
        0
    } else {
        sum_of(s.drop_last()) + s.last()
    }
}

/// The sizes of the groups `t`.
pub open spec fn sizes(t: Seq<(char, nat)>) -> Seq<nat> {
    group_sizes(t, false)
}

pub proof fn lemma_group_index(t: Seq<(char, nat)>, c: char)
    ensures
        group_index(t, c) <= t.len(),
        group_index(t, c) < t.len() ==> t[group_index(t, c) as int].0 == c,
        forall|k: int| 0 <= k < group_index(t, c) ==> t[k].0 != c,
    decreases t.len(),
{
    if t.len() > 0 && t[0].0 != c {
        lemma_group_index(t.drop_first(), c);
        assert forall|k: int| 0 <= k < group_index(t, c) implies t[k].0 != c by {
            if k > 0 {
                assert(t[k] == t.drop_first()[k - 1]);
            }
        }
    }
}

/// What the grouping of cards holds: each card once, every card of the
/// hand, each with how many times it occurs, and the sizes add up to the
/// number of cards.
pub proof fn lemma_tally(cs: Seq<char>)
    ensures
        forall|i: int, k: int| 0 <= i < k < tally(cs).len() ==> tally(cs)[i].0 != tally(cs)[k].0,
        forall|k: int| 0 <= k < tally(cs).len() ==> #[trigger] tally(cs)[k].1 == count_of(cs, tally(cs)[k].0)
            && tally(cs)[k].1 >= 1,
        forall|c: char| #[trigger] count_of(cs, c) > 0 <==> group_index(tally(cs), c) < tally(cs).len(),
        sum_of(sizes(tally(cs))) == cs.len(),
        tally(cs).len() <= cs.len(),
    decreases cs.len(),
{
    if cs.len() > 0 {
        let prev = cs.drop_last();
        let x = cs.last();
        lemma_tally(prev);
        let t0 = tally(prev);
        let t = tally(cs);
        lemma_group_index(t0, x);
        let k = group_index(t0, x) as int;
        assert(cs.drop_last() == prev);
        if k < t0.len() {
            assert(t == t0.update(k, (x, t0[k].1 + 1)));
            lemma_sizes_update(t0, k, t0[k].1 + 1);
            assert(count_of(prev, x) == t0[k].1);
        } else {
            assert(t == t0.push((x, 1)));
            assert(t.drop_last() == t0);
            assert(count_of(prev, x) == 0);
            assert(sizes(t) == sizes(t0).push(1));
            assert(sizes(t).drop_last() == sizes(t0));
        }
        assert forall|i: int| 0 <= i < t.len() implies #[trigger] t[i].1 == count_of(cs, t[i].0) && t[i].1 >= 1 by {
            if i < t0.len() && i != k {
                assert(t[i] == t0[i]);
                assert(t0[i].1 == count_of(prev, t0[i].0));
                assert(t0[i].0 != x);
            }
        }
        assert forall|c: char| #[trigger] count_of(cs, c) > 0 <==> group_index(t, c) < t.len() by {
            lemma_group_index(t, c);
            lemma_group_index(t0, c);
            if count_of(cs, c) > 0 && c != x {
                assert(count_of(prev, c) > 0);
                let m = group_index(t0, c) as int;
                assert(t[m].0 == c);
                lemma_group_index_of(t, c, m);
            }
            if c == x {
                if k < t0.len() {
                    lemma_group_index_of(t, c, k);
                } else {
                    assert forall|i: int| 0 <= i < t0.len() implies t[i].0 != c by {}
                    lemma_group_index_of(t, c, t0.len() as int);
                }
            }
            if group_index(t, c) < t.len() && c != x {
                let m = group_index(t, c) as int;
                if m < t0.len() {
                    assert(t0[m].0 == c);
                    lemma_group_index_of(t0, c, m);
                }
            }
        }
    }
}

/// The group of `c` stands at the first place whose card is `c`.
proof fn lemma_group_index_of(t: Seq<(char, nat)>, c: char, m: int)
    requires
        0 <= m < t.len(),
        t[m].0 == c,
        forall|i: int| 0 <= i < m ==> t[i].0 != c,
    ensures
        group_index(t, c) == m,
    decreases m,
{
    if m > 0 {
        assert forall|i: int| 0 <= i < m - 1 implies t.drop_first()[i].0 != c by {
            assert(t.drop_first()[i] == t[i + 1]);
        }
        lemma_group_index_of(t.drop_first(), c, m - 1);
    }
}

/// Growing one group by `v - t[k].1` grows the sum of sizes by as much.
proof fn lemma_sizes_update(t: Seq<(char, nat)>, k: int, v: nat)
    requires
        0 <= k < t.len(),
    ensures
        sum_of(sizes(t.update(k, (t[k].0, v)))) + t[k].1 == sum_of(sizes(t)) + v,
    decreases t.len(),
{
    let u = t.update(k, (t[k].0, v));
    assert(sizes(u) == sizes(u.drop_last()).push(u.last().1));
    assert(sizes(t) == sizes(t.drop_last()).push(t.last().1));
    assert(sizes(u).drop_last() == sizes(u.drop_last()));
    assert(sizes(t).drop_last() == sizes(t.drop_last()));
    if k == t.len() - 1 {
        assert(u.drop_last() == t.drop_last());
    } else {
        lemma_sizes_update(t.drop_last(), k, v);
        assert(u.drop_last() == t.drop_last().update(k, (t[k].0, v)));
    }
}


/// The sizes of the groups of `J` in `t`, added up.
pub open spec fn joker_group(t: Seq<(char, nat)>) -> nat
    decreases t.len(),
{
    if t.len() == 0 {
        0
    } else {
        joker_group(t.drop_last()) + if t.last().0 == 'J' { t.last().1 } else { 0nat }
    }
}

/// Whether no card has two groups in `t`, and each group has a card.
pub open spec fn well_grouped(t: Seq<(char, nat)>) -> bool {
    &&& forall|i: int, k: int| 0 <= i < k < t.len() ==> t[i].0 != t[k].0
    &&& forall|k: int| 0 <= k < t.len() ==> #[trigger] t[k].1 >= 1
}

/// Splitting the jokers off the groups.
proof fn lemma_split_jokers(t: Seq<(char, nat)>)
    requires
        well_grouped(t),
    ensures
        sum_of(group_sizes(t, true)) + joker_group(t) == sum_of(sizes(t)),
        group_sizes(t, true).len() + (if group_index(t, 'J') < t.len() { 1int } else { 0int }) == t.len(),
        top_two(sizes(t)).0 == if top_two(group_sizes(t, true)).0 >= joker_group(t) {
            top_two(group_sizes(t, true)).0
        } else {
            joker_group(t)
        },
        joker_group(t) == if group_index(t, 'J') < t.len() { t[group_index(t, 'J') as int].1 } else { 0 },
        forall|i: int| 0 <= i < group_sizes(t, true).len() ==> #[trigger] group_sizes(t, true)[i] >= 1,
        forall|i: int| 0 <= i < sizes(t).len() ==> #[trigger] sizes(t)[i] >= 1,
        sizes(t).len() == t.len(),
    decreases t.len(),
{
    lemma_group_index(t, 'J');
    if t.len() > 0 {
        let p = t.drop_last();
        assert(well_grouped(p));
        lemma_split_jokers(p);
        lemma_group_index(p, 'J');
        let x = t.last();
        assert(sizes(t) == sizes(p).push(x.1));
        assert(sizes(t).drop_last() == sizes(p));
        if x.0 == 'J' {
            assert forall|i: int| 0 <= i < p.len() implies p[i].0 != 'J' by {
                assert(p[i] == t[i]);
            }
            assert(group_index(p, 'J') == p.len());
            lemma_group_index_of(t, 'J', p.len() as int);
            lemma_no_jokers(p);
        } else {
            assert(group_sizes(t, true) == group_sizes(p, true).push(x.1));
            assert(group_sizes(t, true).drop_last() == group_sizes(p, true));
            if group_index(p, 'J') < p.len() {
                let m = group_index(p, 'J') as int;
                assert(t[m] == p[m]);
                assert forall|i: int| 0 <= i < m implies t[i].0 != 'J' by {
                    assert(t[i] == p[i]);
                }
                lemma_group_index_of(t, 'J', m);
            } else {
                assert forall|i: int| 0 <= i < t.len() implies t[i].0 != 'J' by {
                    if i < p.len() {
                        assert(t[i] == p[i]);
                    }
                }
                assert(group_index(t, 'J') == t.len());
            }
        }
    }
}

/// Groups without `J` hold no jokers.
pub proof fn lemma_no_jokers(t: Seq<(char, nat)>)
    requires
        forall|i: int| 0 <= i < t.len() ==> t[i].0 != 'J',
    ensures
        joker_group(t) == 0,
    decreases t.len(),
{
    if t.len() > 0 {
        lemma_no_jokers(t.drop_last());
    }
}

/// What the two largest of positive sizes tell of the sizes.
pub proof fn lemma_top_two(s: Seq<nat>)
    requires
        forall|i: int| 0 <= i < s.len() ==> #[trigger] s[i] >= 1,
    ensures
        top_two(s).0 >= top_two(s).1,
        s.len() == 0 ==> top_two(s).0 == 0 && top_two(s).1 == 0 && sum_of(s) == 0,
        s.len() == 1 ==> top_two(s).0 == sum_of(s) && top_two(s).1 == 0,
        s.len() >= 1 ==> top_two(s).0 >= 1,
        s.len() >= 2 ==> top_two(s).1 >= 1 && top_two(s).0 + top_two(s).1 + s.len() - 2 <= sum_of(s),
        s.len() >= 1 ==> sum_of(s) <= top_two(s).0 + (s.len() - 1) * top_two(s).1,
        forall|i: int| 0 <= i < s.len() ==> #[trigger] s[i] <= top_two(s).0,
    decreases s.len(),
{
    if s.len() > 0 {
        let p = s.drop_last();
        lemma_top_two(p);
        let (a, b) = top_two(p);
        let x = s.last();
        let n = p.len();
        let sp = sum_of(p);
        assert forall|i: int| 0 <= i < s.len() implies #[trigger] s[i] <= top_two(s).0 by {
            if i < n {
                assert(s[i] == p[i]);
            }
        }
        if n >= 1 {
            let (a2, b2) = top_two(s);
            assert(sp <= a + (n - 1) * b);
            assert(sum_of(s) <= a2 + n * b2) by (nonlinear_arith)
                requires
                    sp <= a + (n - 1) * b,
                    b <= a,
                    n >= 1,
                    sum_of(s) == sp + x,
                    (x >= a ==> a2 == x && b2 == a),
                    (x < a && x >= b ==> a2 == a && b2 == x),
                    (x < a && x < b ==> a2 == a && b2 == b),
            {
                if x >= a {
                    assert((n - 1) * b <= (n - 1) * a);
                } else if x >= b {
                    assert((n - 1) * b <= (n - 1) * x);
                }
            }
        }
    }
}


/// What grouping the five cards of a hand gives: the groups are well
/// formed, the jokers are the group of `J`, and the other groups and the
/// jokers make up the five cards.
pub proof fn lemma_hand(cs: Seq<char>)
    requires
        cs.len() == 5,
    ensures
        well_grouped(tally(cs)),
        joker_group(tally(cs)) == count_of(cs, 'J'),
        sum_of(group_sizes(tally(cs), true)) + count_of(cs, 'J') == 5,
        sum_of(sizes(tally(cs))) == 5,
        group_sizes(tally(cs), true).len() + (if count_of(cs, 'J') > 0 { 1int } else { 0int }) == tally(cs).len(),
        top_two(sizes(tally(cs))).0 == if top_two(group_sizes(tally(cs), true)).0 >= count_of(cs, 'J') {
            top_two(group_sizes(tally(cs), true)).0
        } else {
            count_of(cs, 'J')
        },
        forall|i: int| 0 <= i < group_sizes(tally(cs), true).len() ==> #[trigger] group_sizes(tally(cs), true)[i] >= 1,
        forall|i: int| 0 <= i < sizes(tally(cs)).len() ==> #[trigger] sizes(tally(cs))[i] >= 1,
        sizes(tally(cs)).len() == tally(cs).len(),
        tally(cs).len() <= 5,
        forall|m: int| 0 <= m < tally(cs).len() ==> #[trigger] tally(cs)[m].1 == count_of(cs, tally(cs)[m].0),
        count_of(cs, 'J') > 0 <==> exists|m: int| 0 <= m < tally(cs).len() && tally(cs)[m].0 == 'J',
{
    lemma_tally(cs);
    let t = tally(cs);
    assert(well_grouped(t));
    lemma_split_jokers(t);
    lemma_group_index(t, 'J');
    assert(count_of(cs, 'J') > 0 <==> group_index(t, 'J') < t.len());
    if group_index(t, 'J') < t.len() {
        assert(t[group_index(t, 'J') as int].1 == count_of(cs, t[group_index(t, 'J') as int].0));
    }
    if exists|m: int| 0 <= m < t.len() && t[m].0 == 'J' {
        let m = choose|m: int| 0 <= m < t.len() && t[m].0 == 'J';
        assert(t[m].1 == count_of(cs, t[m].0));
    }
}

/// The groups of a vector of `(card, count)` pairs.
pub open spec fn groups_of(v: Seq<(char, u8)>) -> Seq<(char, nat)> {
    v.map_values(|g: (char, u8)| (g.0, g.1 as nat))
}

/// The cards of `cs` grouped, in the order in which they first occur.
pub fn tally_chars(cs: &Vec<char>) -> (res: Vec<(char, u8)>)
    requires
        cs@.len() <= 255,
    ensures
        groups_of(res@) == tally(cs@),
{
    let mut res: Vec<(char, u8)> = Vec::new();
    let mut i: usize = 0;
    while i < cs.len()
        invariant
            i <= cs@.len(),
            cs@.len() <= 255,
            groups_of(res@) == tally(cs@.take(i as int)),
        decreases cs@.len() - i,
    {
        let c = cs[i];
        let ghost t0 = tally(cs@.take(i as int));
        proof {
            lemma_tally(cs@.take(i as int));
            lemma_group_index(t0, c);
            assert(cs@.take(i + 1).drop_last() == cs@.take(i as int));
        }
        let mut k: usize = 0;
        while k < res.len() && res[k].0 != c
            invariant
                k <= res@.len(),
                groups_of(res@) == t0,
                forall|m: int| 0 <= m < k ==> t0[m].0 != c,
            decreases res@.len() - k,
        {
            assert(t0[k as int] == (res@[k as int].0, res@[k as int].1 as nat));
            k = k + 1;
        }
        let ghost old_res = res@;
        if k < res.len() {
            assert(t0[k as int].0 == c);
            proof {
                lemma_group_index_of(t0, c, k as int);
            }
            assert(t0[k as int].1 <= i) by {
                assert(sum_of(sizes(t0)) == i);
                lemma_size_le_sum(t0, k as int);
            }
            let n = res[k].1;
            res.set(k, (c, n + 1));
            assert(groups_of(res@) =~= t0.update(k as int, (c, t0[k as int].1 + 1)));
        } else {
            assert(group_index(t0, c) == t0.len());
            res.push((c, 1u8));
            assert(groups_of(res@) =~= t0.push((c, 1)));
        }
        i = i + 1;
    }
    assert(cs@.take(cs@.len() as int) == cs@);
    res
}

/// No group is larger than all of them together.
proof fn lemma_size_le_sum(t: Seq<(char, nat)>, k: int)
    requires
        0 <= k < t.len(),
    ensures
        t[k].1 <= sum_of(sizes(t)),
    decreases t.len(),
{
    assert(sizes(t) == sizes(t.drop_last()).push(t.last().1));
    assert(sizes(t).drop_last() == sizes(t.drop_last()));
    if k < t.len() - 1 {
        lemma_size_le_sum(t.drop_last(), k);
    }
}


/// The sizes of the groups, in order.
pub proof fn lemma_sizes_index(t: Seq<(char, nat)>)
    ensures
        sizes(t).len() == t.len(),
        forall|i: int| 0 <= i < t.len() ==> #[trigger] sizes(t)[i] == t[i].1,
    decreases t.len(),
{
    if t.len() > 0 {
        lemma_sizes_index(t.drop_last());
        assert(sizes(t) == sizes(t.drop_last()).push(t.last().1));
        assert forall|i: int| 0 <= i < t.len() implies #[trigger] sizes(t)[i] == t[i].1 by {
            if i < t.len() - 1 {
                assert(t.drop_last()[i] == t[i]);
            }
        }
    }
}

/// Taking one more size into the two largest.
pub proof fn lemma_top_two_step(s: Seq<nat>, i: int)
    requires
        0 <= i < s.len(),
    ensures
        top_two(s.take(i + 1)) == ({
            let (a, b) = top_two(s.take(i));
            let x = s[i];
            if x >= a {
                (x, a)
            } else if x >= b {
                (a, x)
            } else {
                (a, b)
            }
        }),
{
    assert(s.take(i + 1).drop_last() == s.take(i));
    assert(s.take(i + 1).last() == s[i]);
}


/// Whether `c` names a card.
pub fn is_card_char(c: char) -> (res: bool)
    ensures
        res == is_card(c),
{
    ('2' <= c && c <= '9') || c == 'T' || c == 'J' || c == 'Q' || c == 'K' || c == 'A'
}

/// How `a` stands to `b`.
pub open spec fn ord_of(a: int, b: int) -> Ordering {
    if a < b {
        Ordering::Less
    } else if a > b {
        Ordering::Greater
    } else {
        Ordering::Equal
    }
}

/// How `a` stands to `b`.
pub fn order_u32(a: u32, b: u32) -> (res: Ordering)
    ensures
        (res == Ordering::Less) == (a < b),
        (res == Ordering::Greater) == (a > b),
        (res == Ordering::Equal) == (a == b),
{
    if a < b {
        Ordering::Less
    } else if a > b {
        Ordering::Greater
    } else {
        Ordering::Equal
    }
}

/// The rank of a card, jokers weakest where `wild` holds.
pub open spec fn card_rank(c: char, wild: bool) -> int {
    if wild {
        joker_rank(c)
    } else {
        plain_rank(c)
    }
}

/// Whether all five cards of `cs` name cards.
pub open spec fn valid_hand(cs: Seq<char>) -> bool {
    cs.len() == 5 && forall|i: int| 0 <= i < 5 ==> is_card(#[trigger] cs[i])
}

/// The strength of the hand `cs`: its kind, then its cards from the first
/// to the last, as the digits of a number in base 13.
pub open spec fn strength(cs: Seq<char>, wild: bool) -> int {
    ((((hand_kind(cs, wild).rank() * 13 + card_rank(cs[0], wild)) * 13 + card_rank(cs[1], wild)) * 13
        + card_rank(cs[2], wild)) * 13 + card_rank(cs[3], wild)) * 13 + card_rank(cs[4], wild)
}

/// Whether the cards of `a` come before those of `b`: at the first place
/// where they differ, the card of `a` ranks lower.
pub open spec fn cards_before(a: Seq<char>, b: Seq<char>, wild: bool) -> bool {
    exists|i: int| 0 <= i < 5 && (forall|j: int| 0 <= j < i ==> a[j] == b[j]) && #[trigger] card_rank(a[i], wild)
        < card_rank(b[i], wild)
}

/// Whether the hand `a` is weaker than `b`: its kind is weaker, or the
/// kinds are the same and its cards come first.
pub open spec fn hand_before(a: Seq<char>, b: Seq<char>, wild: bool) -> bool {
    ||| hand_kind(a, wild).rank() < hand_kind(b, wild).rank()
    ||| hand_kind(a, wild) == hand_kind(b, wild) && cards_before(a, b, wild)
}

/// Ranks lie between 0 and 12, and tell cards apart.
pub proof fn lemma_card_rank(c: char, d: char, wild: bool)
    requires
        is_card(c),
        is_card(d),
    ensures
        0 <= card_rank(c, wild) < 13,
        card_rank(c, wild) == card_rank(d, wild) <==> c == d,
{
}

/// The strength of a valid hand lies below seven times 13 to the fifth.
pub proof fn lemma_strength_bound(cs: Seq<char>, wild: bool)
    requires
        valid_hand(cs),
    ensures
        0 <= strength(cs, wild) < 7 * 371293,
{
    lemma_card_rank(cs[0], cs[0], wild);
    lemma_card_rank(cs[1], cs[1], wild);
    lemma_card_rank(cs[2], cs[2], wild);
    lemma_card_rank(cs[3], cs[3], wild);
    lemma_card_rank(cs[4], cs[4], wild);
    assert(0 <= hand_kind(cs, wild).rank() <= 6);
}

/// Digits in base 13 compare as their numbers do.
proof fn lemma_digit(x: int, y: int, p: int, q: int)
    requires
        0 <= x < 13,
        0 <= y < 13,
    ensures
        (p * 13 + x < q * 13 + y) <==> (p < q || (p == q && x < y)),
        (p * 13 + x == q * 13 + y) <==> (p == q && x == y),
{
    assert((p * 13 + x < q * 13 + y) <==> (p < q || (p == q && x < y))) by (nonlinear_arith)
        requires 0 <= x < 13, 0 <= y < 13;
    assert((p * 13 + x == q * 13 + y) <==> (p == q && x == y)) by (nonlinear_arith)
        requires 0 <= x < 13, 0 <= y < 13;
}

/// The strength of a hand orders hands as their kinds, then their cards,
/// do, and tells different hands apart.
#[verifier::spinoff_prover]
#[verifier::rlimit(30)]
pub proof fn lemma_strength(a: Seq<char>, b: Seq<char>, wild: bool)
    requires
        valid_hand(a),
        valid_hand(b),
    ensures
        (strength(a, wild) < strength(b, wild)) <==> hand_before(a, b, wild),
        (strength(a, wild) == strength(b, wild)) <==> a == b,
{
    let ka = hand_kind(a, wild).rank();
    let kb = hand_kind(b, wild).rank();
    let ra = |i: int| card_rank(a[i], wild);
    let rb = |i: int| card_rank(b[i], wild);
    assert forall|i: int| 0 <= i < 5 implies 0 <= #[trigger] card_rank(a[i], wild) < 13
        && 0 <= card_rank(b[i], wild) < 13 && (card_rank(a[i], wild) == card_rank(b[i], wild) <==> a[i] == b[i]) by {
        lemma_card_rank(a[i], b[i], wild);
    }
    let a1 = ka * 13 + ra(0);
    let b1 = kb * 13 + rb(0);
    let a2 = a1 * 13 + ra(1);
    let b2 = b1 * 13 + rb(1);
    let a3 = a2 * 13 + ra(2);
    let b3 = b2 * 13 + rb(2);
    let a4 = a3 * 13 + ra(3);
    let b4 = b3 * 13 + rb(3);
    lemma_digit(ra(0), rb(0), ka, kb);
    lemma_digit(ra(1), rb(1), a1, b1);
    lemma_digit(ra(2), rb(2), a2, b2);
    lemma_digit(ra(3), rb(3), a3, b3);
    lemma_digit(ra(4), rb(4), a4, b4);
    assert(strength(a, wild) == a4 * 13 + ra(4));
    assert(strength(b, wild) == b4 * 13 + rb(4));
    if a =~= b {
    }
    if strength(a, wild) == strength(b, wild) {
        assert(a =~= b);
    }
    if cards_before(a, b, wild) {
        let i = choose|i: int| 0 <= i < 5 && (forall|j: int| 0 <= j < i ==> a[j] == b[j]) && #[trigger] card_rank(a[i], wild)
            < card_rank(b[i], wild);
        assert(forall|j: int| 0 <= j < i ==> a[j] == b[j]);
    }
    if hand_kind(a, wild) == hand_kind(b, wild) && strength(a, wild) < strength(b, wild) {
        if ra(0) < rb(0) {
            assert(card_rank(a[0], wild) < card_rank(b[0], wild));
        } else if ra(1) < rb(1) {
            assert(card_rank(a[1], wild) < card_rank(b[1], wild));
        } else if ra(2) < rb(2) {
            assert(card_rank(a[2], wild) < card_rank(b[2], wild));
        } else if ra(3) < rb(3) {
            assert(card_rank(a[3], wild) < card_rank(b[3], wild));
        } else {
            assert(card_rank(a[4], wild) < card_rank(b[4], wild));
        }
    }
}


/// The hand that the text `s` starts with: its first five characters,
/// where there are five and each names a card.
pub open spec fn hand_text(s: Seq<char>) -> Option<Seq<char>> {
    if s.len() >= 5 && forall|i: int| 0 <= i < 5 ==> is_card(#[trigger] s[i]) {
        Some(s.take(5))
    } else {
        None
    }
}

/// The first five characters of `s`, where there are five and each names a
/// card.
pub fn hand_chars(s: &Vec<char>) -> (res: Option<Vec<char>>)
    ensures
        match res {
            Some(v) => hand_text(s@) == Some(v@),
            None => hand_text(s@) is None,
        },
{
    if s.len() < 5 {
        return None;
    }
    let mut v: Vec<char> = Vec::new();
    let mut i: usize = 0;
    while i < 5
        invariant
            i <= 5,
            s@.len() >= 5,
            v@ == s@.take(i as int),
            forall|k: int| 0 <= k < i ==> is_card(#[trigger] s@[k]),
        decreases 5 - i,
    {
        if !is_card_char(s[i]) {
            return None;
        }
        v.push(s[i]);
        i = i + 1;
        assert(v@ =~= s@.take(i as int));
    }
    Some(v)
}


/// Between hands of the same kind, the first card where they differ
/// decides.
pub proof fn lemma_first_difference(a: Seq<char>, b: Seq<char>, wild: bool, i: int)
    requires
        valid_hand(a),
        valid_hand(b),
        hand_kind(a, wild) == hand_kind(b, wild),
        0 <= i < 5,
        forall|j: int| 0 <= j < i ==> a[j] == b[j],
        a[i] != b[i],
    ensures
        (strength(a, wild) < strength(b, wild)) == (card_rank(a[i], wild) < card_rank(b[i], wild)),
        strength(a, wild) != strength(b, wild),
{
    lemma_strength(a, b, wild);
    lemma_strength(b, a, wild);
    lemma_card_rank(a[i], b[i], wild);
    if card_rank(a[i], wild) < card_rank(b[i], wild) {
        assert(cards_before(a, b, wild));
    } else {
        assert(forall|j: int| 0 <= j < i ==> b[j] == a[j]);
        assert(cards_before(b, a, wild));
    }
    if cards_before(a, b, wild) {
        let k = choose|k: int| 0 <= k < 5 && (forall|j: int| 0 <= j < k ==> a[j] == b[j]) && #[trigger] card_rank(a[k], wild)
            < card_rank(b[k], wild);
        if k < i {
            assert(a[k] == b[k]);
        } else if k > i {
            assert(a[i] == b[i]);
        }
    }
}


/// The first place where the five cards of `a` and `b` differ; 5 where
/// they are the same.
pub open spec fn first_diff(a: Seq<char>, b: Seq<char>) -> int {
    if a[0] != b[0] {
        0
    } else if a[1] != b[1] {
        1
    } else if a[2] != b[2] {
        2
    } else if a[3] != b[3] {
        3
    } else if a[4] != b[4] {
        4
    } else {
        5
    }
}

/// How the hand `a` ranks against `b`: by kind, and between hands of the
/// same kind by the ranks of their cards at the first place where they
/// differ.
pub open spec fn hand_order(a: Seq<char>, b: Seq<char>, wild: bool) -> Ordering {
    if hand_kind(a, wild) != hand_kind(b, wild) {
        ord_of(hand_kind(a, wild).rank(), hand_kind(b, wild).rank())
    } else if first_diff(a, b) < 5 {
        ord_of(card_rank(a[first_diff(a, b)], wild), card_rank(b[first_diff(a, b)], wild))
    } else {
        Ordering::Equal
    }
}

/// Whether ranking `a` against `b` ranks only cards: the kinds differ, or
/// the hands are the same, or both characters at the first place where they
/// differ name cards.
pub open spec fn order_defined(a: Seq<char>, b: Seq<char>, wild: bool) -> bool {
    ||| hand_kind(a, wild) != hand_kind(b, wild)
    ||| first_diff(a, b) == 5
    ||| is_card(a[first_diff(a, b)]) && is_card(b[first_diff(a, b)])
}

/// Between hands of cards, ranking by kind and then by the first card that
/// differs is ranking by strength.
pub proof fn lemma_hand_order(a: Seq<char>, b: Seq<char>, wild: bool)
    requires
        valid_hand(a),
        valid_hand(b),
    ensures
        order_defined(a, b, wild),
        hand_order(a, b, wild) == ord_of(strength(a, wild), strength(b, wild)),
{
    lemma_strength(a, b, wild);
    lemma_strength(b, a, wild);
    let i = first_diff(a, b);
    assert(is_card(a[0]) && is_card(a[1]) && is_card(a[2]) && is_card(a[3]) && is_card(a[4]));
    assert(is_card(b[0]) && is_card(b[1]) && is_card(b[2]) && is_card(b[3]) && is_card(b[4]));
    if hand_kind(a, wild) == hand_kind(b, wild) {
        if i < 5 {
            lemma_first_difference(a, b, wild, i);
            lemma_card_rank(a[i], b[i], wild);
        } else {
            assert(a =~= b);
        }
    }
}

/// The winnings of bids ranked weakest first: each bid times its rank, the
/// weakest ranking 1, added up.
pub open spec fn winnings(amounts: Seq<i32>) -> int
    decreases amounts.len(),
{
    if amounts.len() == 0 {
        0
    } else {
        winnings(amounts.drop_last()) + amounts.len() * amounts.last()
    }
}

/// Whether adding up the winnings one bid after another stays within `i32`:
/// the number of bids, each bid times its rank, and each sum on the way.
pub open spec fn winnings_fit(amounts: Seq<i32>) -> bool {
    &&& amounts.len() <= i32::MAX
    &&& forall|k: int| 0 <= k < amounts.len() ==> i32::MIN <= (k + 1) * #[trigger] amounts[k] <= i32::MAX
    &&& forall|k: int| 0 <= k <= amounts.len() ==> i32::MIN <= #[trigger] winnings(amounts.take(k)) <= i32::MAX
}

/// The winnings of bids ranked weakest first; `None` where adding them up
/// leaves `i32`.
pub fn total_winnings(amounts: &Vec<i32>) -> (res: Option<i32>)
    ensures
        res is Some <==> winnings_fit(amounts@),
        res matches Some(t) ==> t == winnings(amounts@),
{
    let n = amounts.len();
    if n > 2147483647 {
        return None;
    }
    let mut total: i32 = 0;
    let mut index: usize = 0;
    assert(amounts@.take(0) == Seq::<i32>::empty());
    while index < n
        invariant
            index <= n,
            n == amounts@.len(),
            n <= i32::MAX,
            total == winnings(amounts@.take(index as int)),
            forall|k: int| 0 <= k < index ==> i32::MIN <= (k + 1) * #[trigger] amounts@[k] <= i32::MAX,
            forall|k: int| 0 <= k <= index ==> i32::MIN <= #[trigger] winnings(amounts@.take(k)) <= i32::MAX,
        decreases n - index,
    {
        let rank = (index + 1) as i32;
        assert(amounts@.take(index + 1).drop_last() == amounts@.take(index as int));
        assert(amounts@.take(index + 1).last() == amounts@[index as int]);
        let term = match rank.checked_mul(amounts[index]) {
            Some(t) => t,
            None => {
                return None;
            },
        };
        total = match total.checked_add(term) {
            Some(t) => t,
            None => {
                assert(!(i32::MIN <= winnings(amounts@.take(index + 1)) <= i32::MAX));
                return None;
            },
        };
        index = index + 1;
    }
    assert(amounts@.take(n as int) == amounts@);
    Some(total)
}

} // verus!
