//! Camel cards where the joker `J` is the weakest card and stands in for
//! whatever card makes the hand strongest: cards, hands, their kinds and
//! order, and the winnings of a list of bids.
use std::cmp::Ordering;
use vstd::prelude::*;
use crate::hands::{
    count_of, group_sizes, groups_of, hand_chars, hand_kind, hand_order, hand_text, is_card, is_card_char,
    joker_rank, lemma_hand, lemma_hand_order, lemma_sizes_index, lemma_strength_bound, lemma_top_two,
    lemma_top_two_step, ord_of, order_defined, order_u32, sizes, strength, sum_of, tally, tally_chars, top_two,
    total_winnings, valid_hand, winnings, winnings_fit,
};
pub use crate::hands::HandKind;
use crate::sort::{items, lemma_sort_by_key, lemma_sort_by_key_items, sort_by_key, stable_sort};
use crate::text::{lines, lines_spec, parse_i32, parse_i32_spec, split, split_spec, string_of, to_chars, views};

verus! {

/// A text that is not a hand.
#[derive(Debug, PartialEq)]
pub struct ParseHandError;

/// A card, named by its character.
#[derive(Debug, PartialEq, Eq, Clone, Copy, Structural)]
pub struct Card(pub char);

impl Card {
    /// The card that `c` names.
    pub fn from_char(c: char) -> (res: Result<Self, ParseHandError>)
        ensures
            match res {
                Ok(card) => is_card(c) && card.0 == c,
                Err(_) => !is_card(c),
            },
    {
        if ('2' <= c && c <= '9') || c == 'J' || c == 'A' || c == 'K' || c == 'Q' || c == 'T' {
            Ok(Card(c))
        } else {
            Err(ParseHandError)
        }
    }

    /// The rank of the card, the joker `J` lowest at 0 and `A` highest at 12.
    pub fn value(&self) -> (res: u8)
        requires
            is_card(self.0),
        ensures
            res == joker_rank(self.0),
    {
        let c = self.0;
        if c == 'J' {
            0
        } else if c == '2' {
            1
        } else if c == '3' {
            2
        } else if c == '4' {
            3
        } else if c == '5' {
            4
        } else if c == '6' {
            5
        } else if c == '7' {
            6
        } else if c == '8' {
            7
        } else if c == '9' {
            8
        } else if c == 'T' {
            9
        } else if c == 'Q' {
            10
        } else if c == 'K' {
            11
        } else {
            12
        }
    }
}

/// The groups of `(card, count)` pairs, by the cards' characters.
pub open spec fn card_groups(v: Seq<(Card, u8)>) -> Seq<(char, nat)> {
    v.map_values(|g: (Card, u8)| (g.0.0, g.1 as nat))
}

proof fn lemma_card_groups_push(s: Seq<(Card, u8)>, x: (Card, u8))
    ensures
        card_groups(s.push(x)) == card_groups(s).push((x.0.0, x.1 as nat)),
{
    assert(card_groups(s.push(x)) =~= card_groups(s).push((x.0.0, x.1 as nat)));
}

proof fn lemma_groups_of_push(s: Seq<(char, u8)>, x: (char, u8))
    ensures
        groups_of(s.push(x)) == groups_of(s).push((x.0, x.1 as nat)),
{
    assert(groups_of(s.push(x)) =~= groups_of(s).push((x.0, x.1 as nat)));
}

/// The card named `c`.
fn card_of(c: char) -> (res: Card)
    ensures
        res == Card(c),
{
    Card(c)
}

/// A hand of five cards.
#[derive(Debug, PartialEq, Eq, Clone, Copy, Structural)]
pub struct Hand(pub Card, pub Card, pub Card, pub Card, pub Card);

impl Hand {
    /// The characters of the five cards, in order.
    pub open spec fn chars(self) -> Seq<char> {
        seq![self.0.0, self.1.0, self.2.0, self.3.0, self.4.0]
    }

    /// The cards of the hand grouped: each card once, with how many times
    /// it occurs, in the order in which the cards first occur.
    pub fn repeated_cards(&self) -> (res: Vec<(Card, u8)>)
        ensures
            card_groups(res@) == tally(self.chars()),
    {
        let cs: Vec<char> = vec![self.0.0, self.1.0, self.2.0, self.3.0, self.4.0];
        assert(cs@ == self.chars());
        let groups = tally_chars(&cs);
        let mut out: Vec<(Card, u8)> = Vec::new();
        let mut i: usize = 0;
        while i < groups.len()
            invariant
                i <= groups@.len(),
                out@.len() == i,
                card_groups(out@) == groups_of(groups@.take(i as int)),
            decreases groups@.len() - i,
        {
            let c: char = groups[i].0;
            let n: u8 = groups[i].1;
            let ghost before = out@;
            out.push((card_of(c), n));
            assert(groups@.take(i + 1) == groups@.take(i as int).push(groups@[i as int]));
            assert(out@ == before.push((Card(c), n)));
            proof {
                lemma_card_groups_push(before, (Card(c), n));
                lemma_groups_of_push(groups@.take(i as int), groups@[i as int]);
            }
            i = i + 1;
        }
        assert(groups@.take(groups@.len() as int) == groups@);
        out
    }

    /// The five cards, in order.
    pub fn get_cards(&self) -> (res: Vec<Card>)
        ensures
            res@ == seq![self.0, self.1, self.2, self.3, self.4],
    {
        vec![self.0, self.1, self.2, self.3, self.4]
    }

    /// The kind of the hand, the jokers joining the largest group of the
    /// other cards.
    pub fn kind(&self) -> (res: HandKind)
        ensures
            res == hand_kind(self.chars(), true),
    {
        let dict = self.repeated_cards();
        let ghost cs = self.chars();
        let ghost t = tally(cs);
        let ghost rest = group_sizes(t, true);
        let ghost tt = top_two(rest);
        let ghost j = count_of(cs, 'J');
        proof {
            lemma_hand(cs);
            lemma_top_two(rest);
            lemma_sizes_index(t);
            lemma_top_two(sizes(t));
        }
        assert(dict@.len() == t.len());
        assert forall|k: int| 0 <= k < dict@.len() implies (#[trigger] dict@[k]).0.0 == t[k].0 && dict@[k].1 == t[k].1 by {
            assert(card_groups(dict@)[k] == t[k]);
        }
        let n = dict.len();
        // the count of jokers, where the hand has any
        let mut jk: Option<u8> = None;
        let mut k: usize = 0;
        while k < n
            invariant
                k <= n,
                n == dict@.len(),
                n == t.len(),
                forall|m: int| 0 <= m < n ==> (#[trigger] dict@[m]).0.0 == t[m].0 && dict@[m].1 == t[m].1,
                forall|i: int, m: int| 0 <= i < m < t.len() ==> t[i].0 != t[m].0,
                match jk {
                    Some(c) => exists|m: int| 0 <= m < k && t[m].0 == 'J' && t[m].1 == c,
                    None => forall|m: int| 0 <= m < k ==> t[m].0 != 'J',
                },
            decreases n - k,
        {
            assert(dict@[k as int].0.0 == t[k as int].0 && dict@[k as int].1 == t[k as int].1);
            if dict[k].0.0 == 'J' {
                jk = Some(dict[k].1);
            }
            k = k + 1;
        }
        // the largest count of any card, jokers included
        let mut max_repeat: u8 = 0;
        let mut k: usize = 0;
        assert(sizes(t).take(0) == Seq::<nat>::empty());
        while k < n
            invariant
                k <= n,
                n == dict@.len(),
                n == t.len(),
                sizes(t).len() == t.len(),
                forall|m: int| 0 <= m < n ==> (#[trigger] dict@[m]).0.0 == t[m].0 && dict@[m].1 == t[m].1,
                forall|m: int| 0 <= m < t.len() ==> #[trigger] sizes(t)[m] == t[m].1,
                max_repeat == top_two(sizes(t).take(k as int)).0,
            decreases n - k,
        {
            proof {
                lemma_top_two_step(sizes(t), k as int);
            }
            assert(dict@[k as int].1 == t[k as int].1);
            assert(sizes(t)[k as int] == t[k as int].1);
            if dict[k].1 > max_repeat {
                max_repeat = dict[k].1;
            }
            k = k + 1;
        }
        assert(sizes(t).take(n as int) == sizes(t));
        proof {
            match jk {
                Some(c) => {
                    let m = choose|m: int| 0 <= m < n && t[m].0 == 'J' && t[m].1 == c;
                    assert(t[m].1 == count_of(cs, 'J'));
                },
                None => {
                    assert(count_of(cs, 'J') == 0);
                },
            }
            let len = rest.len();
            let sum = sum_of(rest);
            let a = tt.0;
            let b = tt.1;
            assert(len == 2 ==> sum <= a + b) by (nonlinear_arith)
                requires len >= 1 ==> sum <= a + (len - 1) * b;
            assert(len == 3 ==> sum <= a + 2 * b) by (nonlinear_arith)
                requires len >= 1 ==> sum <= a + (len - 1) * b;
            assert(len == 4 ==> sum <= a + 3 * b) by (nonlinear_arith)
                requires len >= 1 ==> sum <= a + (len - 1) * b;
            assert(len == 5 ==> sum <= a + 4 * b) by (nonlinear_arith)
                requires len >= 1 ==> sum <= a + (len - 1) * b;
        }
        match n {
            5 => {
                if jk.is_some() {
                    return HandKind::OnePair;
                }
                HandKind::HighCard
            },
            4 => {
                if let Some(j) = jk {
                    if j == 2 {
                        return HandKind::ThreeOrAKind;
                    }
                    if max_repeat == 1 {
                        return HandKind::OnePair;
                    }
                    return HandKind::ThreeOrAKind;
                }
                HandKind::OnePair
            },
            3 => {
                if let Some(j) = jk {
                    if j > 1 {
                        return HandKind::FourOfAKind;
                    }
                    if max_repeat == 3 {
                        return HandKind::FourOfAKind;
                    }
                    return HandKind::FullHouse;
                }
                if max_repeat == 2 {
                    return HandKind::TwoPair;
                } else {
                    return HandKind::ThreeOrAKind;
                }
            },
            2 => {
                if jk.is_some() {
                    return HandKind::FiveOfAKind;
                }
                if max_repeat == 3 {
                    return HandKind::FullHouse;
                } else {
                    return HandKind::FourOfAKind;
                }
            },
            1 => HandKind::FiveOfAKind,
            _ => HandKind::HighCard,
        }
    }
}


impl Card {
    /// Whether the card names a card.
    pub open spec fn valid(self) -> bool {
        is_card(self.0)
    }

    /// How the card ranks against `other`, by value.
    pub fn cmp(&self, other: &Self) -> (res: Ordering)
        requires
            self.valid(),
            other.valid(),
        ensures
            res == ord_of(joker_rank(self.0), joker_rank(other.0)),
    {
        let a = self.value();
        let b = other.value();
        if a < b {
            Ordering::Less
        } else if a > b {
            Ordering::Greater
        } else {
            Ordering::Equal
        }
    }

    /// The card's character, as text.
    pub fn display(&self) -> (res: String)
        ensures
            res@ == seq![self.0],
    {
        let v: Vec<char> = vec![self.0];
        string_of(&v)
    }
}

impl PartialOrd for Card {
    fn partial_cmp(&self, other: &Self) -> (res: Option<Ordering>) {
        if is_card_char(self.0) && is_card_char(other.0) {
            Some(self.cmp(other))
        } else {
            None
        }
    }
}

impl vstd::std_specs::cmp::PartialOrdSpecImpl for Card {
    open spec fn obeys_partial_cmp_spec() -> bool {
        true
    }

    /// Cards compare by rank; a character that names no card has no place.
    open spec fn partial_cmp_spec(&self, other: &Self) -> Option<Ordering> {
        if is_card(self.0) && is_card(other.0) {
            Some(ord_of(joker_rank(self.0), joker_rank(other.0)))
        } else {
            None
        }
    }
}

/// The hand of the five characters `cs`.
pub open spec fn hand_of(cs: Seq<char>) -> Hand {
    Hand(Card(cs[0]), Card(cs[1]), Card(cs[2]), Card(cs[3]), Card(cs[4]))
}

/// Reads a hand from the first five characters of `s`.
fn hand_from_chars(s: &Vec<char>) -> (res: Result<Hand, ParseHandError>)
    ensures
        match res {
            Ok(h) => hand_text(s@) == Some(h.chars()) && h == hand_of(h.chars()),
            Err(_) => hand_text(s@) is None,
        },
{
    match hand_chars(s) {
        Some(v) => {
            let h = Hand(card_of(v[0]), card_of(v[1]), card_of(v[2]), card_of(v[3]), card_of(v[4]));
            assert(h.chars() =~= v@);
            Ok(h)
        },
        None => Err(ParseHandError),
    }
}

impl Hand {
    /// Whether each card of the hand names a card.
    pub open spec fn valid(self) -> bool {
        valid_hand(self.chars())
    }

    /// Reads a hand from the first five characters of `s`, each of which
    /// must name a card; what follows them is not read.
    pub fn from_str(s: &str) -> (res: Result<Hand, ParseHandError>)
        ensures
            match res {
                Ok(h) => hand_text(s@) == Some(h.chars()) && h == hand_of(h.chars()),
                Err(_) => hand_text(s@) is None,
            },
    {
        let chars = to_chars(s);
        hand_from_chars(&chars)
    }

    /// The strength of the hand: its kind, then its cards, as the digits of a
    /// number in base 13.
    pub fn strength_of(&self) -> (res: u32)
        requires
            self.valid(),
        ensures
            res == strength(self.chars(), true),
    {
        let k = self.kind().rank_of();
        let c0 = self.0.value() as u32;
        let c1 = self.1.value() as u32;
        let c2 = self.2.value() as u32;
        let c3 = self.3.value() as u32;
        let c4 = self.4.value() as u32;
        assert(self.chars()[0] == self.0.0);
        assert(self.0.valid() && self.1.valid() && self.2.valid() && self.3.valid() && self.4.valid()) by {
            assert(is_card(self.chars()[0]) && is_card(self.chars()[1]) && is_card(self.chars()[2])
                && is_card(self.chars()[3]) && is_card(self.chars()[4]));
        }
        ((((k * 13 + c0) * 13 + c1) * 13 + c2) * 13 + c3) * 13 + c4
    }

    /// How the hand ranks against `other`: by kind, then card by card from
    /// the first; between hands of cards, that is by strength.
    pub fn cmp(&self, other: &Self) -> (res: Ordering)
        requires
            order_defined(self.chars(), other.chars(), true),
        ensures
            res == hand_order(self.chars(), other.chars(), true),
            self.valid() && other.valid() ==> res == ord_of(strength(self.chars(), true), strength(other.chars(), true)),
    {
        let ghost a = self.chars();
        let ghost b = other.chars();
        proof {
            if self.valid() && other.valid() {
                lemma_hand_order(a, b, true);
            }
        }
        let kind1 = self.kind();
        let kind2 = other.kind();
        if kind1 == kind2 {
            if self.0 != other.0 {
                return self.0.cmp(&other.0);
            }
            if self.1 != other.1 {
                return self.1.cmp(&other.1);
            }
            if self.2 != other.2 {
                return self.2.cmp(&other.2);
            }
            if self.3 != other.3 {
                return self.3.cmp(&other.3);
            }
            if self.4 != other.4 {
                return self.4.cmp(&other.4);
            }
        }
        order_u32(kind1.rank_of(), kind2.rank_of())
    }

    /// Whether ranking the hand against `other` ranks only cards.
    pub fn comparable(&self, other: &Self) -> (res: bool)
        ensures
            res == order_defined(self.chars(), other.chars(), true),
    {
        if self.kind() != other.kind() {
            return true;
        }
        if self.0 != other.0 {
            return is_card_char(self.0.0) && is_card_char(other.0.0);
        }
        if self.1 != other.1 {
            return is_card_char(self.1.0) && is_card_char(other.1.0);
        }
        if self.2 != other.2 {
            return is_card_char(self.2.0) && is_card_char(other.2.0);
        }
        if self.3 != other.3 {
            return is_card_char(self.3.0) && is_card_char(other.3.0);
        }
        if self.4 != other.4 {
            return is_card_char(self.4.0) && is_card_char(other.4.0);
        }
        true
    }

    /// The hand as text: `Hand(` and its five cards and `)`.
    pub fn display(&self) -> (res: String)
        ensures
            res@ == seq!['H', 'a', 'n', 'd', '('] + self.chars() + seq![')'],
    {
        let v: Vec<char> = vec!['H', 'a', 'n', 'd', '(', self.0.0, self.1.0, self.2.0, self.3.0, self.4.0, ')'];
        assert(v@ =~= seq!['H', 'a', 'n', 'd', '('] + self.chars() + seq![')']);
        string_of(&v)
    }
}

impl Hand {
    /// Whether each card of the hand names a card.
    pub fn is_valid(&self) -> (res: bool)
        ensures
            res == self.valid(),
    {
        let ok = is_card_char(self.0.0) && is_card_char(self.1.0) && is_card_char(self.2.0) && is_card_char(self.3.0)
            && is_card_char(self.4.0);
        assert(ok ==> valid_hand(self.chars())) by {
            if ok {
                assert forall|i: int| 0 <= i < 5 implies is_card(#[trigger] self.chars()[i]) by {}
            }
        }
        assert(valid_hand(self.chars()) ==> ok) by {
            if valid_hand(self.chars()) {
                assert(is_card(self.chars()[0]) && is_card(self.chars()[1]) && is_card(self.chars()[2])
                    && is_card(self.chars()[3]) && is_card(self.chars()[4]));
            }
        }
        ok
    }
}

impl PartialOrd for Hand {
    fn partial_cmp(&self, other: &Self) -> (res: Option<Ordering>) {
        if self.comparable(other) {
            Some(self.cmp(other))
        } else {
            None
        }
    }
}

impl vstd::std_specs::cmp::PartialOrdSpecImpl for Hand {
    open spec fn obeys_partial_cmp_spec() -> bool {
        true
    }

    /// Hands compare by kind, then card by card; where that would rank a
    /// character that names no card, they have no place.
    open spec fn partial_cmp_spec(&self, other: &Self) -> Option<Ordering> {
        if order_defined(self.chars(), other.chars(), true) {
            Some(hand_order(self.chars(), other.chars(), true))
        } else {
            None
        }
    }
}

impl std::str::FromStr for Hand {
    type Err = ParseHandError;

    fn from_str(s: &str) -> (res: Result<Self, Self::Err>)
        ensures
            match res {
                Ok(h) => hand_text(s@) == Some(h.chars()) && h == hand_of(h.chars()),
                Err(_) => hand_text(s@) is None,
            },
    {
        Hand::from_str(s)
    }
}


/// The bid on the line `line`, written `cards amount`: the hand from the
/// first piece between spaces, the amount from the second; `None` where the
/// first piece starts with no hand or there is no second piece that is an
/// `i32`.
pub open spec fn read_bid(line: Seq<char>) -> Option<(Hand, i32)> {
    let parts = split_spec(line, ' ');
    match hand_text(parts[0]) {
        Some(cs) => if parts.len() >= 2 {
            match parse_i32_spec(parts[1]) {
                Some(a) => Some((hand_of(cs), a)),
                None => None,
            }
        } else {
            None
        },
        None => None,
    }
}

/// The bids on the lines `ls`; `None` where a line holds no bid.
pub open spec fn read_bids(ls: Seq<Seq<char>>) -> Option<Seq<(Hand, i32)>>
    decreases ls.len(),
{
    if ls.len() == 0 {
        Some(Seq::empty())
    } else {
        match (read_bids(ls.drop_last()), read_bid(ls.last())) {
            (Some(bs), Some(b)) => Some(bs.push(b)),
            _ => None,
        }
    }
}

/// The bids of a text, one on each line.
pub open spec fn bids_of(text: Seq<char>) -> Option<Seq<(Hand, i32)>> {
    read_bids(lines_spec(text))
}

/// Bids keyed by the strength of their hands.
pub open spec fn keyed_bids(bs: Seq<(Hand, i32)>) -> Seq<(i64, (Hand, i32))> {
    bs.map_values(|b: (Hand, i32)| (strength(b.0.chars(), true) as i64, b))
}

/// Bids ranked weakest hand first; bids on equal hands keep their order.
pub open spec fn ranked(bs: Seq<(Hand, i32)>) -> Seq<(Hand, i32)> {
    sort_by_key(keyed_bids(bs)).map_values(|p: (i64, (Hand, i32))| p.1)
}

/// The amounts of bids.
pub open spec fn amounts(bs: Seq<(Hand, i32)>) -> Seq<i32> {
    bs.map_values(|b: (Hand, i32)| b.1)
}

/// Whether the total winnings of the text can be worked out: each line
/// holds a bid, and adding up the ranked bids stays within `i32`.
pub open spec fn winnings_defined(text: Seq<char>) -> bool {
    match bids_of(text) {
        Some(bs) => winnings_fit(amounts(ranked(bs))),
        None => false,
    }
}

/// Ranking bids loses and adds none, and puts them in order of the strength
/// of their hands; bids on the same hand keep the order of their lines.
pub proof fn lemma_ranked(bs: Seq<(Hand, i32)>)
    requires
        forall|i: int| 0 <= i < bs.len() ==> (#[trigger] bs[i]).0.valid(),
    ensures
        ranked(bs).to_multiset() == bs.to_multiset(),
        ranked(bs).len() == bs.len(),
        forall|i: int, j: int| 0 <= i <= j < bs.len() ==>
            strength((#[trigger] ranked(bs)[i]).0.chars(), true) <= strength((#[trigger] ranked(bs)[j]).0.chars(), true),
{
    broadcast use vstd::seq_lib::group_to_multiset_ensures;
    let k = keyed_bids(bs);
    let sorted = sort_by_key(k);
    lemma_sort_by_key(k);
    lemma_sort_by_key_items(k);
    assert(items(k) =~= bs);
    assert(ranked(bs) == items(sorted));
    assert forall|i: int| 0 <= i < sorted.len() implies (#[trigger] sorted[i]).0 == strength(sorted[i].1.0.chars(), true) by {
        assert(sorted.to_multiset().count(sorted[i]) > 0);
        assert(k.contains(sorted[i]));
        let m = choose|m: int| 0 <= m < k.len() && k[m] == sorted[i];
        lemma_strength_bound(bs[m].0.chars(), true);
    }
    assert forall|i: int, j: int| 0 <= i <= j < bs.len() implies
        strength((#[trigger] ranked(bs)[i]).0.chars(), true) <= strength((#[trigger] ranked(bs)[j]).0.chars(), true) by {
        assert(ranked(bs)[i] == sorted[i].1);
        assert(ranked(bs)[j] == sorted[j].1);
    }
}

/// Reads the bid on a line.
fn read_bid_chars(line: &Vec<char>) -> (res: Option<(Hand, i32)>)
    ensures
        res == read_bid(line@),
        res matches Some(b) ==> b.0.valid(),
{
    let parts = split(line, ' ');
    proof {
        crate::text::lemma_split_nonempty(line@, ' ');
    }
    assert(parts@[0]@ == split_spec(line@, ' ')[0]);
    let hand = match hand_from_chars(&parts[0]) {
        Ok(h) => h,
        Err(_) => {
            return None;
        },
    };
    if parts.len() < 2 {
        return None;
    }
    assert(parts@[1]@ == split_spec(line@, ' ')[1]);
    match parse_i32(&parts[1]) {
        Some(a) => {
            assert(hand.chars() =~= hand_text(split_spec(line@, ' ')[0])->0);
            Some((hand, a))
        },
        None => None,
    }
}

/// The bids of `data`, ranked weakest hand first, bids on equal hands in
/// the order of their lines; `None` where a line holds no bid.
pub fn ranked_bids(data: &str) -> (res: Option<Vec<(Hand, i32)>>)
    ensures
        match res {
            Some(v) => bids_of(data@) matches Some(bs) && v@ == ranked(bs),
            None => bids_of(data@) is None,
        },
{
    let chars = to_chars(data);
    let ls = lines(&chars);
    let ghost lv = lines_spec(data@);
    let mut keyed: Vec<(i64, (Hand, i32))> = Vec::new();
    let ghost mut bs: Seq<(Hand, i32)> = Seq::empty();
    let mut i: usize = 0;
    while i < ls.len()
        invariant
            i <= ls@.len(),
            views(ls@) == lv,
            lv == lines_spec(data@),
            read_bids(lv.take(i as int)) == Some(bs),
            keyed@ == keyed_bids(bs),
        decreases ls@.len() - i,
    {
        assert(lv.take(i + 1).drop_last() == lv.take(i as int));
        assert(lv.take(i + 1).last() == ls@[i as int]@);
        match read_bid_chars(&ls[i]) {
            Some(b) => {
                let key = b.0.strength_of() as i64;
                keyed.push((key, b));
                proof {
                    let old_bs = bs;
                    bs = bs.push(b);
                    assert(keyed_bids(bs) =~= keyed_bids(old_bs).push((key, b)));
                }
            },
            None => {
                proof {
                    lemma_read_bids_none(lv, i as int);
                }
                return None;
            },
        }
        i = i + 1;
    }
    assert(lv.take(ls@.len() as int) == lv);
    let sorted = stable_sort(&keyed);
    let mut res: Vec<(Hand, i32)> = Vec::new();
    let mut k: usize = 0;
    while k < sorted.len()
        invariant
            k <= sorted@.len(),
            sorted@ == sort_by_key(keyed_bids(bs)),
            res@ == sorted@.take(k as int).map_values(|p: (i64, (Hand, i32))| p.1),
        decreases sorted@.len() - k,
    {
        let b = sorted[k].1;
        res.push(b);
        k = k + 1;
        assert(res@ =~= sorted@.take(k as int).map_values(|p: (i64, (Hand, i32))| p.1));
    }
    assert(sorted@.take(sorted@.len() as int) == sorted@);
    Some(res)
}

/// A line without a bid leaves no bids.
proof fn lemma_read_bids_none(lv: Seq<Seq<char>>, i: int)
    requires
        0 <= i < lv.len(),
        read_bids(lv.take(i + 1)) is None,
    ensures
        read_bids(lv) is None,
    decreases lv.len() - i,
{
    if i + 1 < lv.len() {
        assert(lv.drop_last().take(i + 1) == lv.take(i + 1));
        lemma_read_bids_none(lv.drop_last(), i);
    } else {
        assert(lv.take(i + 1) == lv);
    }
}

/// The amounts of bids, in order.
fn amounts_of(bs: &Vec<(Hand, i32)>) -> (res: Vec<i32>)
    ensures
        res@ == amounts(bs@),
{
    let mut res: Vec<i32> = Vec::new();
    let mut i: usize = 0;
    while i < bs.len()
        invariant
            i <= bs@.len(),
            res@ == amounts(bs@.take(i as int)),
        decreases bs@.len() - i,
    {
        res.push(bs[i].1);
        i = i + 1;
        assert(res@ =~= amounts(bs@.take(i as int)));
    }
    assert(bs@.take(bs@.len() as int) == bs@);
    res
}

/// The total winnings of the bids in `data`, one on each line: each bid
/// times the rank of its hand, the weakest ranking 1, added up; `None` where
/// a line holds no bid or the sum leaves `i32`.
pub fn try_calculate_total_winnings(data: &str) -> (res: Option<i32>)
    ensures
        res is Some <==> winnings_defined(data@),
        res matches Some(t) ==> t == winnings(amounts(ranked(bids_of(data@)->0))),
{
    match ranked_bids(data) {
        Some(v) => {
            let a = amounts_of(&v);
            total_winnings(&a)
        },
        None => None,
    }
}

/// The total winnings of the bids in `data`, one on each line: each bid
/// times the rank of its hand, the weakest ranking 1, added up.
pub fn calculate_total_winnings(data: &str) -> (res: i32)
    requires
        winnings_defined(data@),
    ensures
        res == winnings(amounts(ranked(bids_of(data@)->0))),
{
    match try_calculate_total_winnings(data) {
        Some(t) => t,
        None => 0,
    }
}


/// The row on the line `line` of a ranking, written `index cards amount`;
/// `None` where the line has fewer pieces between spaces, or they are not
/// an `i32`, a hand and an `i32`.
pub open spec fn read_row(line: Seq<char>) -> Option<(i32, Hand, i32)> {
    let parts = split_spec(line, ' ');
    match (parse_i32_spec(parts[0]), parts.len() >= 3) {
        (Some(idx), true) => match (hand_text(parts[1]), parse_i32_spec(parts[2])) {
            (Some(cs), Some(a)) => Some((idx, hand_of(cs), a)),
            _ => None,
        },
        _ => None,
    }
}

/// The rows on the lines `ls`; `None` where a line holds no row.
pub open spec fn read_rows(ls: Seq<Seq<char>>) -> Option<Seq<(i32, Hand, i32)>>
    decreases ls.len(),
{
    if ls.len() == 0 {
        Some(Seq::empty())
    } else {
        match (read_rows(ls.drop_last()), read_row(ls.last())) {
            (Some(rs), Some(r)) => Some(rs.push(r)),
            _ => None,
        }
    }
}

/// The places among the first `k` where a ranking `a` and rows `b` hold
/// different hands: the place with `a`'s hand and amount there, and `b`'s
/// row there.
pub open spec fn differences_upto(a: Seq<(Hand, i32)>, b: Seq<(i32, Hand, i32)>, k: nat) -> Seq<(
    (usize, Hand, i32),
    (i32, Hand, i32),
)>
    decreases k,
{
    if k == 0 {
        Seq::empty()
    } else {
        let prev = differences_upto(a, b, (k - 1) as nat);
        let i = k - 1;
        if a[i].0 != b[i].1 {
            prev.push(((i as usize, a[i].0, a[i].1), b[i]))
        } else {
            prev
        }
    }
}

/// The places where a ranking `a` and rows `b` hold different hands, as far
/// as both go.
pub open spec fn differences(a: Seq<(Hand, i32)>, b: Seq<(i32, Hand, i32)>) -> Seq<((usize, Hand, i32), (i32, Hand, i32))> {
    differences_upto(a, b, if a.len() <= b.len() { a.len() } else { b.len() })
}

/// What the differences of a ranking `a` and rows `b` are: in order of
/// place, each place within both where the ranked hand and the row's hand
/// are different hands (some of their five cards differ), with the ranked
/// hand and amount there and the row there, and no other place.
pub proof fn lemma_differences(a: Seq<(Hand, i32)>, b: Seq<(i32, Hand, i32)>)
    requires
        a.len() <= usize::MAX,
    ensures
        forall|k: int| 0 <= k < differences(a, b).len() ==> {
            let d = #[trigger] differences(a, b)[k];
            let i = d.0.0 as int;
            &&& i < a.len() && i < b.len()
            &&& a[i].0.chars() != b[i].1.chars()
            &&& d.0.1 == a[i].0 && d.0.2 == a[i].1 && d.1 == b[i]
        },
        forall|k: int, l: int| 0 <= k < l < differences(a, b).len() ==> #[trigger] differences(a, b)[k].0.0
            < #[trigger] differences(a, b)[l].0.0,
        forall|i: int| 0 <= i < a.len() && i < b.len() && #[trigger] a[i].0.chars() != b[i].1.chars() ==> exists|k: int|
            0 <= k < differences(a, b).len() && #[trigger] differences(a, b)[k].0.0 == i,
{
    let n: nat = if a.len() <= b.len() { a.len() } else { b.len() };
    lemma_differences_upto(a, b, n);
    assert(differences(a, b) == differences_upto(a, b, n));
    assert forall|i: int| 0 <= i < a.len() && i < b.len() && #[trigger] a[i].0.chars() != b[i].1.chars() implies exists|k: int|
        0 <= k < differences(a, b).len() && #[trigger] differences(a, b)[k].0.0 == i by {
        assert(i < n);
        let k = choose|k: int| 0 <= k < differences_upto(a, b, n).len() && #[trigger] differences_upto(a, b, n)[k].0.0 == i;
    }
}

proof fn lemma_differences_upto(a: Seq<(Hand, i32)>, b: Seq<(i32, Hand, i32)>, n: nat)
    requires
        n <= a.len(),
        n <= b.len(),
        a.len() <= usize::MAX,
    ensures
        forall|k: int| 0 <= k < differences_upto(a, b, n).len() ==> {
            let d = #[trigger] differences_upto(a, b, n)[k];
            let i = d.0.0 as int;
            &&& i < n
            &&& a[i].0.chars() != b[i].1.chars()
            &&& d.0.1 == a[i].0 && d.0.2 == a[i].1 && d.1 == b[i]
        },
        forall|k: int, l: int| 0 <= k < l < differences_upto(a, b, n).len() ==> #[trigger] differences_upto(a, b, n)[k].0.0
            < #[trigger] differences_upto(a, b, n)[l].0.0,
        forall|i: int| 0 <= i < n && #[trigger] a[i].0.chars() != b[i].1.chars() ==> exists|k: int|
            0 <= k < differences_upto(a, b, n).len() && #[trigger] differences_upto(a, b, n)[k].0.0 == i,
    decreases n,
{
    if n > 0 {
        let m = (n - 1) as nat;
        lemma_differences_upto(a, b, m);
        let prev = differences_upto(a, b, m);
        let i = m as int;
        assert(a[i].0.chars() != b[i].1.chars() <==> a[i].0 != b[i].1) by {
            if a[i].0.chars() == b[i].1.chars() {
                assert(a[i].0.chars()[0] == b[i].1.chars()[0]);
                assert(a[i].0.chars()[1] == b[i].1.chars()[1]);
                assert(a[i].0.chars()[2] == b[i].1.chars()[2]);
                assert(a[i].0.chars()[3] == b[i].1.chars()[3]);
                assert(a[i].0.chars()[4] == b[i].1.chars()[4]);
            }
        }
        let cur = differences_upto(a, b, n);
        if a[i].0 != b[i].1 {
            assert(cur == prev.push(((i as usize, a[i].0, a[i].1), b[i])));
            assert(cur[prev.len() as int].0.0 as int == i);
            assert forall|j: int| 0 <= j < n && #[trigger] a[j].0.chars() != b[j].1.chars() implies exists|k: int|
                0 <= k < cur.len() && #[trigger] cur[k].0.0 == j by {
                if j < m {
                    let k = choose|k: int| 0 <= k < prev.len() && #[trigger] prev[k].0.0 == j;
                    assert(cur[k] == prev[k]);
                } else {
                    assert(cur[prev.len() as int].0.0 == j);
                }
            }
        } else {
            assert(cur == prev);
        }
    }
}

/// Reads the row on a line.
fn read_row_chars(line: &Vec<char>) -> (res: Option<(i32, Hand, i32)>)
    ensures
        res == read_row(line@),
{
    let parts = split(line, ' ');
    proof {
        crate::text::lemma_split_nonempty(line@, ' ');
    }
    assert(parts@[0]@ == split_spec(line@, ' ')[0]);
    let idx = match parse_i32(&parts[0]) {
        Some(v) => v,
        None => {
            return None;
        },
    };
    if parts.len() < 3 {
        return None;
    }
    assert(parts@[1]@ == split_spec(line@, ' ')[1]);
    assert(parts@[2]@ == split_spec(line@, ' ')[2]);
    let hand = match hand_from_chars(&parts[1]) {
        Ok(h) => h,
        Err(_) => {
            return None;
        },
    };
    match parse_i32(&parts[2]) {
        Some(a) => {
            assert(hand.chars() =~= hand_text(split_spec(line@, ' ')[1])->0);
            Some((idx, hand, a))
        },
        None => None,
    }
}

/// A line without a row leaves no rows.
proof fn lemma_read_rows_none(lv: Seq<Seq<char>>, i: int)
    requires
        0 <= i < lv.len(),
        read_rows(lv.take(i + 1)) is None,
    ensures
        read_rows(lv) is None,
    decreases lv.len() - i,
{
    if i + 1 < lv.len() {
        assert(lv.drop_last().take(i + 1) == lv.take(i + 1));
        lemma_read_rows_none(lv.drop_last(), i);
    } else {
        assert(lv.take(i + 1) == lv);
    }
}

/// The rows of a ranking, one on each line.
fn rows_of(data: &str) -> (res: Option<Vec<(i32, Hand, i32)>>)
    ensures
        match res {
            Some(v) => read_rows(lines_spec(data@)) == Some(v@),
            None => read_rows(lines_spec(data@)) is None,
        },
{
    let chars = to_chars(data);
    let ls = lines(&chars);
    let ghost lv = lines_spec(data@);
    let mut rows: Vec<(i32, Hand, i32)> = Vec::new();
    let mut i: usize = 0;
    while i < ls.len()
        invariant
            i <= ls@.len(),
            views(ls@) == lv,
            lv == lines_spec(data@),
            read_rows(lv.take(i as int)) == Some(rows@),
        decreases ls@.len() - i,
    {
        assert(lv.take(i + 1).drop_last() == lv.take(i as int));
        assert(lv.take(i + 1).last() == ls@[i as int]@);
        match read_row_chars(&ls[i]) {
            Some(r) => {
                rows.push(r);
            },
            None => {
                proof {
                    lemma_read_rows_none(lv, i as int);
                }
                return None;
            },
        }
        i = i + 1;
    }
    assert(lv.take(ls@.len() as int) == lv);
    Some(rows)
}

/// Compares the bids of `first_data`, ranked, with the ranking written in
/// `second_data`, one row `index cards amount` on each line: the places
/// where they hold different hands, as far as both go; `None` where a line
/// of either holds no bid or row.
pub fn compare_hands(first_data: &str, second_data: &str) -> (res: Option<Vec<((usize, Hand, i32), (i32, Hand, i32))>>)
    ensures
        match res {
            Some(d) => bids_of(first_data@) matches Some(bs) && read_rows(lines_spec(second_data@)) matches Some(rs)
                && d@ == differences(ranked(bs), rs),
            None => bids_of(first_data@) is None || read_rows(lines_spec(second_data@)) is None,
        },
{
    let first = match ranked_bids(first_data) {
        Some(v) => v,
        None => {
            return None;
        },
    };
    let second = match rows_of(second_data) {
        Some(v) => v,
        None => {
            return None;
        },
    };
    let n = if first.len() <= second.len() { first.len() } else { second.len() };
    let mut diffs: Vec<((usize, Hand, i32), (i32, Hand, i32))> = Vec::new();
    let mut i: usize = 0;
    while i < n
        invariant
            i <= n,
            n <= first@.len(),
            n <= second@.len(),
            n == (if first@.len() <= second@.len() { first@.len() } else { second@.len() }),
            diffs@ == differences_upto(first@, second@, i as nat),
        decreases n - i,
    {
        let (hand, amount) = first[i];
        let row = second[i];
        if hand != row.1 {
            diffs.push(((i, hand, amount), row));
        }
        i = i + 1;
    }
    Some(diffs)
}

/// Hands keyed by their strength.
pub open spec fn keyed_hands(hs: Seq<Hand>) -> Seq<(i64, Hand)> {
    hs.map_values(|h: Hand| (strength(h.chars(), true) as i64, h))
}

/// Sorting hands loses and adds none, and puts them weakest first.
pub proof fn lemma_sorted_hands(hs: Seq<Hand>)
    requires
        forall|i: int| 0 <= i < hs.len() ==> (#[trigger] hs[i]).valid(),
    ensures
        items(sort_by_key(keyed_hands(hs))).to_multiset() == hs.to_multiset(),
        items(sort_by_key(keyed_hands(hs))).len() == hs.len(),
        forall|i: int, j: int| 0 <= i <= j < hs.len() ==> strength((#[trigger] items(sort_by_key(keyed_hands(hs)))[i]).chars(), true)
            <= strength((#[trigger] items(sort_by_key(keyed_hands(hs)))[j]).chars(), true),
{
    broadcast use vstd::seq_lib::group_to_multiset_ensures;
    let k = keyed_hands(hs);
    let sorted = sort_by_key(k);
    lemma_sort_by_key(k);
    lemma_sort_by_key_items(k);
    assert(items(k) =~= hs);
    assert forall|i: int| 0 <= i < sorted.len() implies (#[trigger] sorted[i]).0 == strength(sorted[i].1.chars(), true) by {
        assert(sorted.to_multiset().count(sorted[i]) > 0);
        assert(k.contains(sorted[i]));
        let m = choose|m: int| 0 <= m < k.len() && k[m] == sorted[i];
        lemma_strength_bound(hs[m].chars(), true);
    }
    assert forall|i: int, j: int| 0 <= i <= j < hs.len() implies strength((#[trigger] items(sorted)[i]).chars(), true)
        <= strength((#[trigger] items(sorted)[j]).chars(), true) by {
        assert(items(sorted)[i] == sorted[i].1);
        assert(items(sorted)[j] == sorted[j].1);
    }
}

/// Sorts hands weakest first; equal hands keep their order.
pub fn sort_hands(hands: &mut Vec<Hand>)
    requires
        forall|i: int| 0 <= i < old(hands)@.len() ==> (#[trigger] old(hands)@[i]).valid(),
    ensures
        final(hands)@ == sort_by_key(keyed_hands(old(hands)@)).map_values(|p: (i64, Hand)| p.1),
{
    let mut keyed: Vec<(i64, Hand)> = Vec::new();
    let mut i: usize = 0;
    while i < hands.len()
        invariant
            i <= hands@.len(),
            forall|m: int| 0 <= m < hands@.len() ==> (#[trigger] hands@[m]).valid(),
            keyed@ == keyed_hands(hands@.take(i as int)),
        decreases hands@.len() - i,
    {
        let h = hands[i];
        keyed.push((h.strength_of() as i64, h));
        i = i + 1;
        assert(keyed@ =~= keyed_hands(hands@.take(i as int)));
    }
    assert(hands@.take(hands@.len() as int) == hands@);
    let sorted = stable_sort(&keyed);
    let mut res: Vec<Hand> = Vec::new();
    let mut k: usize = 0;
    while k < sorted.len()
        invariant
            k <= sorted@.len(),
            res@ == sorted@.take(k as int).map_values(|p: (i64, Hand)| p.1),
        decreases sorted@.len() - k,
    {
        res.push(sorted[k].1);
        k = k + 1;
        assert(res@ =~= sorted@.take(k as int).map_values(|p: (i64, Hand)| p.1));
    }
    assert(sorted@.take(sorted@.len() as int) == sorted@);
    *hands = res;
}

} // verus!
