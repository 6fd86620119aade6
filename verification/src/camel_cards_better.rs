//! Camel cards under either of two rules, picked by `VERSION`: with `V1`
//! the jack `J` ranks between `T` and `Q`; with `V2` it is a joker, the
//! weakest card, that stands in for whatever card makes the hand strongest.
use std::cmp::Ordering;
use vstd::prelude::*;
use crate::hands::{
    card_rank, count_of, first_diff, group_sizes, groups_of, hand_chars, hand_kind, hand_order, hand_text,
    is_card, is_card_char, lemma_card_rank, lemma_hand, lemma_hand_order, lemma_strength, lemma_strength_bound,
    lemma_top_two, lemma_top_two_step, ord_of, order_defined, order_u32, strength, sum_of, tally, tally_chars,
    top_two, total_winnings, valid_hand, winnings, winnings_fit,
};
use crate::sort::{items, lemma_sort_by_key, lemma_sort_by_key_items, sort_by_key, stable_sort};
use crate::text::{lines, lines_spec, parse_i32, parse_i32_spec, split, split_spec, to_chars, trim, trim_spec, views};
pub use crate::hands::HandKind;

verus! {

/// The two rules of the game.
#[derive(Debug, Clone, Copy, PartialEq, Eq, PartialOrd, Ord, Structural)]
pub enum HandVersion {
    /// The jack `J` ranks between `T` and `Q`.
    V1,
    /// The joker `J` is the weakest card and stands in for any card.
    V2,
}

/// The rule that this game plays by.
pub const VERSION: HandVersion = HandVersion::V2;

/// Whether the rule `v` makes `J` a joker.
pub open spec fn wild(v: HandVersion) -> bool {
    v == HandVersion::V2
}

/// A text that is not a hand.
#[derive(Debug, PartialEq)]
pub struct ParseHandError;

/// A card, named by its character.
#[derive(Debug, PartialEq, Eq, Clone, Copy, Structural)]
pub struct Card(pub char);

impl Card {
    /// The card that `c` names.
    pub fn from_char(c: char) -> (res: Result<Self, ParseHandError>)
        ensures
            match res {
                Ok(card) => is_card(c) && card.0 == c,
                Err(_) => !is_card(c),
            },
    {
        if ('2' <= c && c <= '9') || c == 'J' || c == 'A' || c == 'K' || c == 'Q' || c == 'T' {
            Ok(Card(c))
        } else {
            Err(ParseHandError)
        }
    }

    /// The rank of the card under the rule `version`, from 0 to 12.
    pub fn value_in(&self, version: HandVersion) -> (res: u8)
        requires
            is_card(self.0),
        ensures
            res == card_rank(self.0, wild(version)),
    {
        let order: [char; 13] = if version == HandVersion::V1 {
            ['2', '3', '4', '5', '6', '7', '8', '9', 'T', 'J', 'Q', 'K', 'A']
        } else {
            ['J', '2', '3', '4', '5', '6', '7', '8', '9', 'T', 'Q', 'K', 'A']
        };
        let mut i: u8 = 0;
        while i < 12 && order[i as usize] != self.0
            invariant
                i <= 12,
                is_card(self.0),
                forall|k: int| 0 <= k < i ==> order@[k] != self.0,
                version == HandVersion::V1 ==> order@ == seq!['2', '3', '4', '5', '6', '7', '8', '9', 'T', 'J', 'Q', 'K', 'A'],
                version != HandVersion::V1 ==> order@ == seq!['J', '2', '3', '4', '5', '6', '7', '8', '9', 'T', 'Q', 'K', 'A'],
            decreases 12 - i,
        {
            i = i + 1;
        }
        i
    }

    /// The rank of the card under the rule of the game, from 0 to 12.
    pub fn value(&self) -> (res: u8)
        requires
            is_card(self.0),
        ensures
            res == card_rank(self.0, wild(VERSION)),
    {
        self.value_in(VERSION)
    }
}


impl PartialOrd for Card {
    fn partial_cmp(&self, other: &Self) -> (res: Option<Ordering>) {
        if is_card_char(self.0) && is_card_char(other.0) {
            Some(self.cmp(other))
        } else {
            None
        }
    }
}

impl vstd::std_specs::cmp::PartialOrdSpecImpl for Card {
    open spec fn obeys_partial_cmp_spec() -> bool {
        true
    }

    /// Cards compare by rank under the rule of the game; a character that
    /// names no card has no place.
    open spec fn partial_cmp_spec(&self, other: &Self) -> Option<Ordering> {
        if is_card(self.0) && is_card(other.0) {
            Some(ord_of(card_rank(self.0, wild(VERSION)), card_rank(other.0, wild(VERSION))))
        } else {
            None
        }
    }
}

impl Card {
    /// How the card ranks against `other` under the rule of the game.
    pub fn cmp(&self, other: &Self) -> (res: Ordering)
        requires
            is_card(self.0),
            is_card(other.0),
        ensures
            res == ord_of(card_rank(self.0, wild(VERSION)), card_rank(other.0, wild(VERSION))),
    {
        let a = self.value();
        let b = other.value();
        if a < b {
            Ordering::Less
        } else if a > b {
            Ordering::Greater
        } else {
            Ordering::Equal
        }
    }
}

/// A hand of five cards.
#[derive(Debug, PartialEq, Eq, Clone, Copy)]
pub struct Hand {
    pub cards: [Card; 5],
}


/// The card named `c`.
fn card_of(c: char) -> (res: Card)
    ensures
        res == Card(c),
{
    Card(c)
}

/// The hand of the five characters `cs`.
pub open spec fn hand_of(cs: Seq<char>) -> Hand {
    Hand { cards: [Card(cs[0]), Card(cs[1]), Card(cs[2]), Card(cs[3]), Card(cs[4])] }
}

impl Hand {
    /// The characters of the five cards, in order.
    pub open spec fn chars(self) -> Seq<char> {
        seq![self.cards[0].0, self.cards[1].0, self.cards[2].0, self.cards[3].0, self.cards[4].0]
    }

    /// Whether each card of the hand names a card.
    pub open spec fn valid(self) -> bool {
        valid_hand(self.chars())
    }

    /// The kind of the hand under the rule `version`.
    pub fn get_type_in(&self, version: HandVersion) -> (res: HandKind)
        ensures
            res == hand_kind(self.chars(), wild(version)),
    {
        let cs: Vec<char> = vec![self.cards[0].0, self.cards[1].0, self.cards[2].0, self.cards[3].0, self.cards[4].0];
        assert(cs@ == self.chars());
        let cards_map = tally_chars(&cs);
        let ghost t = tally(self.chars());
        let ghost w = wild(version);
        let ghost rest = group_sizes(t, w);
        proof {
            lemma_hand(self.chars());
            lemma_top_two(rest);
            if !w {
                lemma_sizes_all(t);
            }
        }
        assert(cards_map@.len() == t.len());
        assert forall|k: int| 0 <= k < cards_map@.len() implies (#[trigger] cards_map@[k]).0 == t[k].0
            && cards_map@[k].1 == t[k].1 by {
            assert(groups_of(cards_map@)[k] == t[k]);
        }
        // the jokers, where they are wild, and the sizes of the other groups
        let mut j_amount: u8 = 0;
        let mut repeated_cards: Vec<u8> = Vec::new();
        let mut k: usize = 0;
        assert(t.take(0) == Seq::<(char, nat)>::empty());
        while k < cards_map.len()
            invariant
                k <= cards_map@.len(),
                cards_map@.len() == t.len(),
                forall|m: int| 0 <= m < t.len() ==> (#[trigger] cards_map@[m]).0 == t[m].0 && cards_map@[m].1 == t[m].1,
                w == wild(version),
                repeated_cards@.map_values(|x: u8| x as nat) == group_sizes(t.take(k as int), w),
                j_amount == (if w { crate::hands::joker_group(t.take(k as int)) } else { 0 }),
                j_amount <= 5,
                w ==> crate::hands::joker_group(t) <= 5,
                forall|i: int, m: int| 0 <= i < m < t.len() ==> t[i].0 != t[m].0,
            decreases cards_map@.len() - k,
        {
            let (c, n) = cards_map[k];
            assert(t.take(k + 1).drop_last() == t.take(k as int));
            assert(t.take(k + 1).last() == t[k as int]);
            let ghost before = repeated_cards@;
            if version == HandVersion::V2 && c == 'J' {
                proof {
                    lemma_joker_group_le(t, k as int);
                    assert forall|i: int| 0 <= i < k implies #[trigger] t.take(k as int)[i].0 != 'J' by {
                        assert(t.take(k as int)[i] == t[i]);
                    }
                    crate::hands::lemma_no_jokers(t.take(k as int));
                }
                j_amount = n;
            } else {
                repeated_cards.push(n);
                assert(repeated_cards@.map_values(|x: u8| x as nat) =~= before.map_values(|x: u8| x as nat).push(n as nat));
            }
            k = k + 1;
        }
        assert(t.take(t.len() as int) == t);
        // the two largest groups
        let ghost sizes = rest;
        let mut top: u8 = 0;
        let mut second: u8 = 0;
        let mut i: usize = 0;
        assert(sizes.take(0) == Seq::<nat>::empty());
        while i < repeated_cards.len()
            invariant
                i <= repeated_cards@.len(),
                repeated_cards@.map_values(|x: u8| x as nat) == sizes,
                top == top_two(sizes.take(i as int)).0,
                second == top_two(sizes.take(i as int)).1,
            decreases repeated_cards@.len() - i,
        {
            proof {
                lemma_top_two_step(sizes, i as int);
            }
            let x = repeated_cards[i];
            assert(sizes[i as int] == x as nat);
            if x >= top {
                second = top;
                top = x;
            } else if x >= second {
                second = x;
            }
            i = i + 1;
        }
        assert(sizes.take(sizes.len() as int) == sizes);
        proof {
            let len = sizes.len();
            let sum = sum_of(sizes);
            let a = top_two(sizes).0;
            let b = top_two(sizes).1;
            assert(len == 2 ==> sum <= a + b) by (nonlinear_arith)
                requires len >= 1 ==> sum <= a + (len - 1) * b;
            assert(len == 3 ==> sum <= a + 2 * b) by (nonlinear_arith)
                requires len >= 1 ==> sum <= a + (len - 1) * b;
            assert(len == 4 ==> sum <= a + 3 * b) by (nonlinear_arith)
                requires len >= 1 ==> sum <= a + (len - 1) * b;
            assert(len == 5 ==> sum <= a + 4 * b) by (nonlinear_arith)
                requires len >= 1 ==> sum <= a + (len - 1) * b;
            assert(w ==> j_amount == count_of(self.chars(), 'J'));
            assert(sum + (if w { count_of(self.chars(), 'J') } else { 0 }) == 5);
        }
        match top + j_amount {
            5 => HandKind::FiveOfAKind,
            4 => HandKind::FourOfAKind,
            3 => match second {
                2 => HandKind::FullHouse,
                _ => HandKind::ThreeOrAKind,
            },
            2 => match second {
                2 => HandKind::TwoPair,
                _ => HandKind::OnePair,
            },
            _ => HandKind::HighCard,
        }
    }

    /// The kind of the hand under the rule of the game.
    pub fn get_type(&self) -> (res: HandKind)
        ensures
            res == hand_kind(self.chars(), wild(VERSION)),
    {
        self.get_type_in(VERSION)
    }
}

/// Reads a hand from the first five characters of `s`.
fn hand_from_chars(s: &Vec<char>) -> (res: Result<Hand, ParseHandError>)
    ensures
        match res {
            Ok(h) => hand_text(s@) == Some(h.chars()) && h == hand_of(h.chars()),
            Err(_) => hand_text(s@) is None,
        },
{
    match hand_chars(s) {
        Some(v) => {
            let h = Hand { cards: [card_of(v[0]), card_of(v[1]), card_of(v[2]), card_of(v[3]), card_of(v[4])] };
            assert(h.chars() =~= v@);
            Ok(h)
        },
        None => Err(ParseHandError),
    }
}

impl Hand {
    /// Reads a hand from the first five characters of `s`, each of which
    /// must name a card; what follows them is not read.
    pub fn from_str(s: &str) -> (res: Result<Hand, ParseHandError>)
        ensures
            match res {
                Ok(h) => hand_text(s@) == Some(h.chars()) && h == hand_of(h.chars()),
                Err(_) => hand_text(s@) is None,
            },
    {
        let chars = to_chars(s);
        hand_from_chars(&chars)
    }

    /// The strength of the hand under the rule `version`: its kind, then its
    /// cards, as the digits of a number in base 13.
    pub fn strength_in(&self, version: HandVersion) -> (res: u32)
        requires
            self.valid(),
        ensures
            res == strength(self.chars(), wild(version)),
    {
        let ghost cs = self.chars();
        assert(is_card(cs[0]) && is_card(cs[1]) && is_card(cs[2]) && is_card(cs[3]) && is_card(cs[4]));
        let k = self.get_type_in(version).rank_of();
        let c0 = self.cards[0].value_in(version) as u32;
        let c1 = self.cards[1].value_in(version) as u32;
        let c2 = self.cards[2].value_in(version) as u32;
        let c3 = self.cards[3].value_in(version) as u32;
        let c4 = self.cards[4].value_in(version) as u32;
        proof {
            lemma_card_rank(cs[0], cs[0], wild(version));
            lemma_card_rank(cs[1], cs[1], wild(version));
            lemma_card_rank(cs[2], cs[2], wild(version));
            lemma_card_rank(cs[3], cs[3], wild(version));
            lemma_card_rank(cs[4], cs[4], wild(version));
        }
        ((((k * 13 + c0) * 13 + c1) * 13 + c2) * 13 + c3) * 13 + c4
    }

    /// How the hand ranks against `other` under the rule of the game: by
    /// kind, then card by card from the first; between hands of cards, that
    /// is by strength.
    pub fn cmp(&self, other: &Self) -> (res: Ordering)
        requires
            order_defined(self.chars(), other.chars(), wild(VERSION)),
        ensures
            res == hand_order(self.chars(), other.chars(), wild(VERSION)),
            self.valid() && other.valid() ==> res == ord_of(strength(self.chars(), wild(VERSION)), strength(other.chars(), wild(VERSION))),
    {
        let ghost a = self.chars();
        let ghost b = other.chars();
        proof {
            if self.valid() && other.valid() {
                lemma_hand_order(a, b, wild(VERSION));
            }
        }
        let kind1 = self.get_type();
        let kind2 = other.get_type();
        if kind1 == kind2 {
            let mut i: usize = 0;
            while i < 5
                invariant
                    i <= 5,
                    a == self.chars(),
                    b == other.chars(),
                    hand_kind(a, wild(VERSION)) == hand_kind(b, wild(VERSION)),
                    order_defined(a, b, wild(VERSION)),
                    forall|k: int| 0 <= k < i ==> #[trigger] a[k] == b[k],
                decreases 5 - i,
            {
                if self.cards[i] != other.cards[i] {
                    proof {
                        lemma_first_diff_at(a, b, i);
                    }
                    return self.cards[i].cmp(&other.cards[i]);
                }
                proof {
                    lemma_same_at(self.cards, other.cards, i);
                }
                i = i + 1;
            }
            assert(first_diff(a, b) == 5);
        }
        order_u32(kind1.rank_of(), kind2.rank_of())
    }

    /// Whether ranking the hand against `other` under the rule of the game
    /// ranks only cards.
    pub fn comparable(&self, other: &Self) -> (res: bool)
        ensures
            res == order_defined(self.chars(), other.chars(), wild(VERSION)),
    {
        let ghost a = self.chars();
        let ghost b = other.chars();
        if self.get_type() != other.get_type() {
            return true;
        }
        let mut i: usize = 0;
        while i < 5
            invariant
                i <= 5,
                a == self.chars(),
                b == other.chars(),
                hand_kind(a, wild(VERSION)) == hand_kind(b, wild(VERSION)),
                forall|k: int| 0 <= k < i ==> #[trigger] a[k] == b[k],
            decreases 5 - i,
        {
            if self.cards[i] != other.cards[i] {
                proof {
                    lemma_first_diff_at(a, b, i);
                }
                return is_card_char(self.cards[i].0) && is_card_char(other.cards[i].0);
            }
            proof {
                lemma_same_at(self.cards, other.cards, i);
            }
            i = i + 1;
        }
        assert(first_diff(a, b) == 5);
        true
    }
}

impl Hand {
    /// Whether each card of the hand names a card.
    pub fn is_valid(&self) -> (res: bool)
        ensures
            res == self.valid(),
    {
        let ok = is_card_char(self.cards[0].0) && is_card_char(self.cards[1].0) && is_card_char(self.cards[2].0) && is_card_char(self.cards[3].0)
            && is_card_char(self.cards[4].0);
        assert(ok ==> valid_hand(self.chars())) by {
            if ok {
                assert forall|i: int| 0 <= i < 5 implies is_card(#[trigger] self.chars()[i]) by {}
            }
        }
        assert(valid_hand(self.chars()) ==> ok) by {
            if valid_hand(self.chars()) {
                assert(is_card(self.chars()[0]) && is_card(self.chars()[1]) && is_card(self.chars()[2])
                    && is_card(self.chars()[3]) && is_card(self.chars()[4]));
            }
        }
        ok
    }
}

impl PartialOrd for Hand {
    fn partial_cmp(&self, other: &Self) -> (res: Option<Ordering>) {
        if self.comparable(other) {
            Some(self.cmp(other))
        } else {
            None
        }
    }
}

impl vstd::std_specs::cmp::PartialOrdSpecImpl for Hand {
    open spec fn obeys_partial_cmp_spec() -> bool {
        true
    }

    /// Hands compare under the rule of the game by kind, then card by card;
    /// where that would rank a character that names no card, they have no
    /// place.
    open spec fn partial_cmp_spec(&self, other: &Self) -> Option<Ordering> {
        if order_defined(self.chars(), other.chars(), wild(VERSION)) {
            Some(hand_order(self.chars(), other.chars(), wild(VERSION)))
        } else {
            None
        }
    }
}

impl std::str::FromStr for Hand {
    type Err = ParseHandError;

    fn from_str(s: &str) -> (res: Result<Self, Self::Err>)
        ensures
            match res {
                Ok(h) => hand_text(s@) == Some(h.chars()) && h == hand_of(h.chars()),
                Err(_) => hand_text(s@) is None,
            },
    {
        Hand::from_str(s)
    }
}

/// The bid on the line `line`, written `cards amount`: the hand from the
/// first piece between spaces, the amount from the second; `None` where the
/// first piece starts with no hand or there is no second piece that is an
/// `i32`.
pub open spec fn read_bid(line: Seq<char>) -> Option<(Hand, i32)> {
    let parts = split_spec(line, ' ');
    match hand_text(parts[0]) {
        Some(cs) => if parts.len() >= 2 {
            match parse_i32_spec(parts[1]) {
                Some(a) => Some((hand_of(cs), a)),
                None => None,
            }
        } else {
            None
        },
        None => None,
    }
}

/// The bids on the lines `ls`: empty lines are passed over, the others
/// trimmed of surrounding whitespace; `None` where such a line holds no bid.
pub open spec fn read_bids(ls: Seq<Seq<char>>) -> Option<Seq<(Hand, i32)>>
    decreases ls.len(),
{
    if ls.len() == 0 {
        Some(Seq::empty())
    } else if ls.last().len() == 0 {
        read_bids(ls.drop_last())
    } else {
        match (read_bids(ls.drop_last()), read_bid(trim_spec(ls.last()))) {
            (Some(bs), Some(b)) => Some(bs.push(b)),
            _ => None,
        }
    }
}

/// The bids of a text, one on each line that is not empty.
pub open spec fn bids_of(text: Seq<char>) -> Option<Seq<(Hand, i32)>> {
    read_bids(lines_spec(text))
}

/// The sort key of a bid: the strength of its hand, then its amount.
pub open spec fn bid_key(b: (Hand, i32), wild: bool) -> int {
    strength(b.0.chars(), wild) * 0x1_0000_0000 + (b.1 + 0x8000_0000)
}

/// Whether the bid `a` ranks no higher than `b`: its hand is weaker, or the
/// hands are the same and its amount is no larger.
pub open spec fn bid_le(a: (Hand, i32), b: (Hand, i32), wild: bool) -> bool {
    ||| strength(a.0.chars(), wild) < strength(b.0.chars(), wild)
    ||| strength(a.0.chars(), wild) == strength(b.0.chars(), wild) && a.1 <= b.1
}

/// Bids keyed for sorting.
pub open spec fn keyed_bids(bs: Seq<(Hand, i32)>, wild: bool) -> Seq<(i64, (Hand, i32))> {
    bs.map_values(|b: (Hand, i32)| (bid_key(b, wild) as i64, b))
}

/// Bids ranked weakest first: by hand, then by amount.
pub open spec fn ranked(bs: Seq<(Hand, i32)>, wild: bool) -> Seq<(Hand, i32)> {
    sort_by_key(keyed_bids(bs, wild)).map_values(|p: (i64, (Hand, i32))| p.1)
}

/// The amounts of bids.
pub open spec fn amounts(bs: Seq<(Hand, i32)>) -> Seq<i32> {
    bs.map_values(|b: (Hand, i32)| b.1)
}

/// Whether the total winnings of the text under the rule `version` can be
/// worked out: each line that is not empty holds a bid, and adding up the
/// ranked bids stays within `i32`.
pub open spec fn winnings_defined(text: Seq<char>, version: HandVersion) -> bool {
    match bids_of(text) {
        Some(bs) => winnings_fit(amounts(ranked(bs, wild(version)))),
        None => false,
    }
}

/// The key of a bid fits in an `i64`, and keys order bids as `bid_le` does.
proof fn lemma_bid_key(a: (Hand, i32), b: (Hand, i32), wild: bool)
    requires
        a.0.valid(),
        b.0.valid(),
    ensures
        i64::MIN <= bid_key(a, wild) <= i64::MAX,
        (bid_key(a, wild) <= bid_key(b, wild)) <==> bid_le(a, b, wild),
        (bid_key(a, wild) == bid_key(b, wild)) <==> a == b,
{
    let sa = strength(a.0.chars(), wild);
    let sb = strength(b.0.chars(), wild);
    lemma_strength_bound(a.0.chars(), wild);
    lemma_strength_bound(b.0.chars(), wild);
    lemma_strength(a.0.chars(), b.0.chars(), wild);
    lemma_key_digits(sa, sb, a.1 as int, b.1 as int);
    if a.0.chars() == b.0.chars() {
        lemma_hand_eq(a.0, b.0);
    }
}

/// Numbers written with a high digit and a low `i32` digit in base `2^32`
/// compare as their digits do.
proof fn lemma_key_digits(sa: int, sb: int, x: int, y: int)
    requires
        0 <= sa < 7 * 371293,
        0 <= sb < 7 * 371293,
        i32::MIN <= x <= i32::MAX,
        i32::MIN <= y <= i32::MAX,
    ensures
        i64::MIN <= sa * 0x1_0000_0000 + (x + 0x8000_0000) <= i64::MAX,
        (sa * 0x1_0000_0000 + (x + 0x8000_0000) <= sb * 0x1_0000_0000 + (y + 0x8000_0000)) <==> (sa < sb
            || (sa == sb && x <= y)),
        (sa * 0x1_0000_0000 + (x + 0x8000_0000) == sb * 0x1_0000_0000 + (y + 0x8000_0000)) <==> (sa == sb
            && x == y),
{
}

/// Hands with the same cards are the same hand.
proof fn lemma_hand_eq(h: Hand, g: Hand)
    requires
        h.chars() == g.chars(),
    ensures
        h == g,
{
    assert(h.chars()[0] == g.chars()[0] && h.chars()[1] == g.chars()[1] && h.chars()[2] == g.chars()[2]
        && h.chars()[3] == g.chars()[3] && h.chars()[4] == g.chars()[4]);
    assert(h.cards =~= g.cards);
}

/// Reads the bid on a line.
fn read_bid_chars(line: &Vec<char>) -> (res: Option<(Hand, i32)>)
    ensures
        res == read_bid(line@),
        res matches Some(b) ==> b.0.valid(),
{
    let parts = split(line, ' ');
    proof {
        crate::text::lemma_split_nonempty(line@, ' ');
    }
    assert(parts@[0]@ == split_spec(line@, ' ')[0]);
    let hand = match hand_from_chars(&parts[0]) {
        Ok(h) => h,
        Err(_) => {
            return None;
        },
    };
    if parts.len() < 2 {
        return None;
    }
    assert(parts@[1]@ == split_spec(line@, ' ')[1]);
    match parse_i32(&parts[1]) {
        Some(a) => {
            assert(hand.chars() =~= hand_text(split_spec(line@, ' ')[0])->0);
            Some((hand, a))
        },
        None => None,
    }
}

/// A line without a bid leaves no bids.
proof fn lemma_read_bids_none(lv: Seq<Seq<char>>, i: int)
    requires
        0 <= i < lv.len(),
        read_bids(lv.take(i + 1)) is None,
    ensures
        read_bids(lv) is None,
    decreases lv.len() - i,
{
    if i + 1 < lv.len() {
        assert(lv.drop_last().take(i + 1) == lv.take(i + 1));
        lemma_read_bids_none(lv.drop_last(), i);
    } else {
        assert(lv.take(i + 1) == lv);
    }
}

/// The bids of `data`, keyed for ranking under the rule `version`, in the
/// order of their lines; `None` where a line that is not empty holds no bid.
fn keyed_bids_of(data: &str, version: HandVersion) -> (res: Option<Vec<(i64, (Hand, i32))>>)
    ensures
        match res {
            Some(v) => bids_of(data@) matches Some(bs) && v@ == keyed_bids(bs, wild(version))
                && forall|i: int| 0 <= i < bs.len() ==> (#[trigger] bs[i]).0.valid(),
            None => bids_of(data@) is None,
        },
{
    let chars = to_chars(data);
    let ls = lines(&chars);
    let ghost lv = lines_spec(data@);
    let ghost w = wild(version);
    let mut keyed: Vec<(i64, (Hand, i32))> = Vec::new();
    let ghost mut bs: Seq<(Hand, i32)> = Seq::empty();
    let mut i: usize = 0;
    while i < ls.len()
        invariant
            i <= ls@.len(),
            views(ls@) == lv,
            lv == lines_spec(data@),
            w == wild(version),
            read_bids(lv.take(i as int)) == Some(bs),
            keyed@ == keyed_bids(bs, w),
            forall|m: int| 0 <= m < bs.len() ==> (#[trigger] bs[m]).0.valid(),
        decreases ls@.len() - i,
    {
        assert(lv.take(i + 1).drop_last() == lv.take(i as int));
        assert(lv.take(i + 1).last() == ls@[i as int]@);
        if ls[i].len() > 0 {
            let line = trim(&ls[i]);
            match read_bid_chars(&line) {
                Some(b) => {
                    proof {
                        lemma_bid_key(b, b, w);
                        lemma_strength_bound(b.0.chars(), w);
                    }
                    let s = b.0.strength_in(version) as i64;
                    let key: i64 = s * 0x1_0000_0000 + (b.1 as i64 + 0x8000_0000);
                    keyed.push((key, b));
                    proof {
                        let old_bs = bs;
                        bs = bs.push(b);
                        assert(keyed_bids(bs, w) =~= keyed_bids(old_bs, w).push((key, b)));
                    }
                },
                None => {
                    proof {
                        lemma_read_bids_none(lv, i as int);
                    }
                    return None;
                },
            }
        }
        i = i + 1;
    }
    assert(lv.take(ls@.len() as int) == lv);
    Some(keyed)
}

/// The amounts of keyed bids, in order.
fn amounts_of(ps: &Vec<(i64, (Hand, i32))>) -> (res: Vec<i32>)
    ensures
        res@ == amounts(ps@.map_values(|p: (i64, (Hand, i32))| p.1)),
{
    let mut res: Vec<i32> = Vec::new();
    let mut i: usize = 0;
    while i < ps.len()
        invariant
            i <= ps@.len(),
            res@ == amounts(ps@.take(i as int).map_values(|p: (i64, (Hand, i32))| p.1)),
        decreases ps@.len() - i,
    {
        res.push(ps[i].1.1);
        i = i + 1;
        assert(res@ =~= amounts(ps@.take(i as int).map_values(|p: (i64, (Hand, i32))| p.1)));
    }
    assert(ps@.take(ps@.len() as int) == ps@);
    res
}

/// The total winnings of the bids in `data` under the rule `version`, one
/// bid on each line that is not empty: each bid times the rank of its hand,
/// the weakest ranking 1, added up; `None` where a line holds no bid or the
/// sum leaves `i32`.
pub fn try_calculate_total_winnings_in(data: &str, version: HandVersion) -> (res: Option<i32>)
    ensures
        res is Some <==> winnings_defined(data@, version),
        res matches Some(t) ==> t == winnings(amounts(ranked(bids_of(data@)->0, wild(version)))),
{
    match keyed_bids_of(data, version) {
        Some(keyed) => {
            let sorted = stable_sort(&keyed);
            let a = amounts_of(&sorted);
            total_winnings(&a)
        },
        None => None,
    }
}

/// The total winnings of the bids in `data` under the rule `version`, one
/// bid on each line that is not empty.
pub fn calculate_total_winnings_in(data: &str, version: HandVersion) -> (res: i32)
    requires
        winnings_defined(data@, version),
    ensures
        res == winnings(amounts(ranked(bids_of(data@)->0, wild(version)))),
{
    match try_calculate_total_winnings_in(data, version) {
        Some(t) => t,
        None => 0,
    }
}

/// The total winnings of the bids in `data` under the rule of the game;
/// `None` where a line holds no bid or the sum leaves `i32`.
pub fn try_calculate_total_winnings(data: &str) -> (res: Option<i32>)
    ensures
        res is Some <==> winnings_defined(data@, VERSION),
        res matches Some(t) ==> t == winnings(amounts(ranked(bids_of(data@)->0, wild(VERSION)))),
{
    try_calculate_total_winnings_in(data, VERSION)
}

/// The total winnings of the bids in `data` under the rule of the game: each
/// bid times the rank of its hand, the weakest ranking 1, added up.
pub fn calculate_total_winnings(data: &str) -> (res: i32)
    requires
        winnings_defined(data@, VERSION),
    ensures
        res == winnings(amounts(ranked(bids_of(data@)->0, wild(VERSION)))),
{
    calculate_total_winnings_in(data, VERSION)
}

/// Hands keyed by their strength under the rule of the game.
pub open spec fn keyed_hands(hs: Seq<Hand>) -> Seq<(i64, Hand)> {
    hs.map_values(|h: Hand| (strength(h.chars(), wild(VERSION)) as i64, h))
}

/// Sorting hands loses and adds none, and puts them weakest first.
pub proof fn lemma_sorted_hands(hs: Seq<Hand>)
    requires
        forall|i: int| 0 <= i < hs.len() ==> (#[trigger] hs[i]).valid(),
    ensures
        items(sort_by_key(keyed_hands(hs))).to_multiset() == hs.to_multiset(),
        items(sort_by_key(keyed_hands(hs))).len() == hs.len(),
        forall|i: int, j: int| 0 <= i <= j < hs.len() ==> strength((#[trigger] items(sort_by_key(keyed_hands(hs)))[i]).chars(), wild(VERSION))
            <= strength((#[trigger] items(sort_by_key(keyed_hands(hs)))[j]).chars(), wild(VERSION)),
{
    broadcast use vstd::seq_lib::group_to_multiset_ensures;
    let k = keyed_hands(hs);
    let sorted = sort_by_key(k);
    lemma_sort_by_key(k);
    lemma_sort_by_key_items(k);
    assert(items(k) =~= hs);
    assert forall|i: int| 0 <= i < sorted.len() implies (#[trigger] sorted[i]).0 == strength(sorted[i].1.chars(), wild(VERSION)) by {
        assert(sorted.to_multiset().count(sorted[i]) > 0);
        assert(k.contains(sorted[i]));
        let m = choose|m: int| 0 <= m < k.len() && k[m] == sorted[i];
        lemma_strength_bound(hs[m].chars(), wild(VERSION));
    }
    assert forall|i: int, j: int| 0 <= i <= j < hs.len() implies strength((#[trigger] items(sorted)[i]).chars(), wild(VERSION))
        <= strength((#[trigger] items(sorted)[j]).chars(), wild(VERSION)) by {
        assert(items(sorted)[i] == sorted[i].1);
        assert(items(sorted)[j] == sorted[j].1);
    }
}

/// Sorts hands weakest first under the rule of the game.
pub fn sort_hands(hands: &mut Vec<Hand>)
    requires
        forall|i: int| 0 <= i < old(hands)@.len() ==> (#[trigger] old(hands)@[i]).valid(),
    ensures
        final(hands)@ == sort_by_key(keyed_hands(old(hands)@)).map_values(|p: (i64, Hand)| p.1),
{
    let mut keyed: Vec<(i64, Hand)> = Vec::new();
    let mut i: usize = 0;
    while i < hands.len()
        invariant
            i <= hands@.len(),
            forall|m: int| 0 <= m < hands@.len() ==> (#[trigger] hands@[m]).valid(),
            keyed@ == keyed_hands(hands@.take(i as int)),
        decreases hands@.len() - i,
    {
        let h = hands[i];
        keyed.push((h.strength_in(VERSION) as i64, h));
        i = i + 1;
        assert(keyed@ =~= keyed_hands(hands@.take(i as int)));
    }
    assert(hands@.take(hands@.len() as int) == hands@);
    let sorted = stable_sort(&keyed);
    let mut res: Vec<Hand> = Vec::new();
    let mut k: usize = 0;
    while k < sorted.len()
        invariant
            k <= sorted@.len(),
            res@ == sorted@.take(k as int).map_values(|p: (i64, Hand)| p.1),
        decreases sorted@.len() - k,
    {
        res.push(sorted[k].1);
        k = k + 1;
        assert(res@ =~= sorted@.take(k as int).map_values(|p: (i64, Hand)| p.1));
    }
    assert(sorted@.take(sorted@.len() as int) == sorted@);
    *hands = res;
}

/// Ranking bids loses and adds none, and puts them in order: by the
/// strength of their hands, then by amount.
pub proof fn lemma_ranked(bs: Seq<(Hand, i32)>, wild: bool)
    requires
        forall|i: int| 0 <= i < bs.len() ==> (#[trigger] bs[i]).0.valid(),
    ensures
        ranked(bs, wild).to_multiset() == bs.to_multiset(),
        ranked(bs, wild).len() == bs.len(),
        forall|i: int, j: int| 0 <= i <= j < bs.len() ==> bid_le(#[trigger] ranked(bs, wild)[i], #[trigger] ranked(bs, wild)[j], wild),
{
    broadcast use vstd::seq_lib::group_to_multiset_ensures;
    let k = keyed_bids(bs, wild);
    let sorted = sort_by_key(k);
    lemma_sort_by_key(k);
    lemma_sort_by_key_items(k);
    assert(items(k) =~= bs);
    assert(ranked(bs, wild) == items(sorted));
    assert forall|i: int| 0 <= i < sorted.len() implies (#[trigger] sorted[i]).0 == bid_key(sorted[i].1, wild)
        && sorted[i].1.0.valid() by {
        assert(sorted.to_multiset().count(sorted[i]) > 0);
        assert(k.contains(sorted[i]));
        let m = choose|m: int| 0 <= m < k.len() && k[m] == sorted[i];
        lemma_bid_key(bs[m], bs[m], wild);
    }
    assert forall|i: int, j: int| 0 <= i <= j < bs.len() implies bid_le(#[trigger] ranked(bs, wild)[i], #[trigger] ranked(bs, wild)[j], wild) by {
        assert(ranked(bs, wild)[i] == sorted[i].1);
        assert(ranked(bs, wild)[j] == sorted[j].1);
        lemma_bid_key(sorted[i].1, sorted[j].1, wild);
    }
}

/// Where the cards before place `i` are the same and those at `i` differ,
/// `i` is the first place where the hands differ.
proof fn lemma_first_diff_at(a: Seq<char>, b: Seq<char>, i: usize)
    requires
        a.len() == 5,
        b.len() == 5,
        i < 5,
        forall|k: int| 0 <= k < i ==> #[trigger] a[k] == b[k],
        a[i as int] != b[i as int],
    ensures
        first_diff(a, b) == i,
{
    assert(i >= 1 ==> a[0] == b[0]);
    assert(i >= 2 ==> a[1] == b[1]);
    assert(i >= 3 ==> a[2] == b[2]);
    assert(i >= 4 ==> a[3] == b[3]);
}

/// Equal cards name the same character.
proof fn lemma_same_at(x: [Card; 5], y: [Card; 5], i: usize)
    requires
        i < 5,
        x[i as int] == y[i as int],
    ensures
        x[i as int].0 == y[i as int].0,
{
}

/// Without skipping jokers, the group sizes are all of them.
proof fn lemma_sizes_all(t: Seq<(char, nat)>)
    ensures
        group_sizes(t, false) == crate::hands::sizes(t),
{
}

/// The group of `J` is no larger than the jokers of all groups.
proof fn lemma_joker_group_le(t: Seq<(char, nat)>, k: int)
    requires
        0 <= k < t.len(),
        t[k].0 == 'J',
    ensures
        crate::hands::joker_group(t.take(k + 1)) <= crate::hands::joker_group(t),
    decreases t.len() - k,
{
    if k + 1 < t.len() {
        assert(t.drop_last().take(k + 1) == t.take(k + 1));
        lemma_joker_group_le(t.drop_last(), k);
    } else {
        assert(t.take(k + 1) == t);
    }
}

} // verus!
