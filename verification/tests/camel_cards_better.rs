use problems::camel_cards_better::{
    calculate_total_winnings, calculate_total_winnings_in, sort_hands, try_calculate_total_winnings,
    Card, Hand, HandKind, HandVersion, ParseHandError, VERSION,
};
use std::cmp::Ordering;
use std::str::FromStr;

const TEST_DATA: &str = r"
    32T3K 765
    T55J5 684
    KK677 28
    KTJJT 220
    QQQJA 483";

#[test]
fn test_hand_get_type() {
    assert_eq!(Hand::from_str("22222").unwrap().get_type(), HandKind::FiveOfAKind);
    assert_eq!(Hand::from_str("222JJ").unwrap().get_type(), HandKind::FiveOfAKind);
    assert_eq!(Hand::from_str("JJJJJ").unwrap().get_type(), HandKind::FiveOfAKind);
    assert_eq!(Hand::from_str("22223").unwrap().get_type(), HandKind::FourOfAKind);
    assert_eq!(Hand::from_str("22JJ3").unwrap().get_type(), HandKind::FourOfAKind);
    assert_eq!(Hand::from_str("2JJJ3").unwrap().get_type(), HandKind::FourOfAKind);
    assert_eq!(Hand::from_str("3T3T3").unwrap().get_type(), HandKind::FullHouse);
    assert_eq!(Hand::from_str("3TJT3").unwrap().get_type(), HandKind::FullHouse);
    assert_eq!(Hand::from_str("33345").unwrap().get_type(), HandKind::ThreeOrAKind);
    assert_eq!(Hand::from_str("3JJ45").unwrap().get_type(), HandKind::ThreeOrAKind);
    assert_eq!(Hand::from_str("33442").unwrap().get_type(), HandKind::TwoPair);
    assert_eq!(Hand::from_str("3J425").unwrap().get_type(), HandKind::OnePair);
    assert_eq!(Hand::from_str("34425").unwrap().get_type(), HandKind::OnePair);
    assert_eq!(Hand::from_str("39425").unwrap().get_type(), HandKind::HighCard);

    // old ones
    assert_eq!("AAAAA".parse::<Hand>().unwrap().get_type(), HandKind::FiveOfAKind);
    assert_eq!("32T3K".parse::<Hand>().unwrap().get_type(), HandKind::OnePair);
    assert_eq!("T55J5".parse::<Hand>().unwrap().get_type(), HandKind::FourOfAKind);
    assert_eq!("KK677".parse::<Hand>().unwrap().get_type(), HandKind::TwoPair);
    assert_eq!("KTJJT".parse::<Hand>().unwrap().get_type(), HandKind::FourOfAKind);
    assert_eq!("QQQJA".parse::<Hand>().unwrap().get_type(), HandKind::FourOfAKind);
    assert_eq!("J2332".parse::<Hand>().unwrap().get_type(), HandKind::FullHouse);
    assert_eq!("2222Q".parse::<Hand>().unwrap().get_type(), HandKind::FourOfAKind)
}

#[test]
fn camel_cards_better_test_hand_kind_order() {
    assert!(HandKind::FiveOfAKind > HandKind::HighCard);
    assert!(HandKind::FullHouse > HandKind::TwoPair);

    let mut kv = vec![
        HandKind::FiveOfAKind,
        HandKind::FourOfAKind,
        HandKind::ThreeOrAKind,
        HandKind::OnePair,
        HandKind::TwoPair,
    ];
    kv.sort();

    assert_eq!(
        kv,
        vec![
            HandKind::OnePair,
            HandKind::TwoPair,
            HandKind::ThreeOrAKind,
            HandKind::FourOfAKind,
            HandKind::FiveOfAKind
        ]
    );
}

#[test]
fn test_hand_from_str() {
    let h = Hand::from_str("32T3K");

    assert_eq!(
        h,
        Ok(Hand {
            cards: [Card('3'), Card('2'), Card('T'), Card('3'), Card('K')]
        })
    );

    let h = "32t3_".parse::<Hand>();

    assert_eq!(h, Err(ParseHandError))
}

#[test]
fn camel_cards_better_test_sort_hands() {
    let mut hands = vec![
        "J2883".parse::<Hand>().unwrap(),
        "J2524".parse::<Hand>().unwrap(),
        "J267K".parse::<Hand>().unwrap(),
    ];

    sort_hands(&mut hands);

    assert_eq!(
        hands,
        vec![
            "J267K".parse::<Hand>().unwrap(),
            "J2524".parse::<Hand>().unwrap(),
            "J2883".parse::<Hand>().unwrap(),
        ]
    )
}

#[test]
fn camel_cards_better_test_calculate_total_winnings() {
    // the total that the jacks-high rule gives
    let total = calculate_total_winnings_in(TEST_DATA, HandVersion::V1);

    assert_eq!(total, 6440);
}

#[test]
fn total_winnings_with_jokers() {
    assert_eq!(VERSION, HandVersion::V2);
    assert_eq!(calculate_total_winnings(TEST_DATA), 5905);
    assert_eq!(try_calculate_total_winnings(TEST_DATA), Some(5905));
}

#[test]
fn get_type_without_jokers() {
    let h = Hand::from_str("222JJ").unwrap();
    assert_eq!(h.get_type_in(HandVersion::V1), HandKind::FullHouse);
    assert_eq!(h.get_type_in(HandVersion::V2), HandKind::FiveOfAKind);
    let h = Hand::from_str("KTJJT").unwrap();
    assert_eq!(h.get_type_in(HandVersion::V1), HandKind::TwoPair);
    let h = Hand::from_str("JJJJJ").unwrap();
    assert_eq!(h.get_type_in(HandVersion::V1), HandKind::FiveOfAKind);
}

#[test]
fn card_values_under_each_rule() {
    assert_eq!(Card('J').value_in(HandVersion::V1), 9);
    assert_eq!(Card('J').value_in(HandVersion::V2), 0);
    assert_eq!(Card('2').value_in(HandVersion::V1), 0);
    assert_eq!(Card('2').value_in(HandVersion::V2), 1);
    assert_eq!(Card('A').value_in(HandVersion::V1), 12);
    assert_eq!(Card('A').value(), 12);
    assert!(Card('K') > Card('T'));
    assert!(Card('2') > Card('J'));
    assert_eq!(Card('x').partial_cmp(&Card('2')), None);
    assert_eq!(Card::from_char('x'), Err(ParseHandError));
    assert_eq!(Card::from_char('Q'), Ok(Card('Q')));
}

#[test]
fn hand_order_is_kind_then_cards() {
    let a = Hand::from_str("KK677").unwrap();
    let b = Hand::from_str("KTJJT").unwrap();
    assert_eq!(a.cmp(&b), Ordering::Less);
    assert_eq!(b.cmp(&a), Ordering::Greater);
    assert_eq!(a.cmp(&a), Ordering::Equal);
    // same kind: the first differing card decides, the joker lowest
    let c = Hand::from_str("JKKK2").unwrap();
    let d = Hand::from_str("QQQQ2").unwrap();
    assert_eq!(c.cmp(&d), Ordering::Less);
    assert_eq!(a.strength_in(HandVersion::V2) < b.strength_in(HandVersion::V2), true);
    assert!(a < b);
    let bad = Hand { cards: [Card('x'), Card('2'), Card('3'), Card('4'), Card('5')] };
    let other = Hand { cards: [Card('6'), Card('2'), Card('3'), Card('4'), Card('5')] };
    assert_eq!(bad.partial_cmp(&a), Some(Ordering::Less));
    assert_eq!(bad.partial_cmp(&other), None);
    assert!(!bad.comparable(&other));
    assert!(bad.comparable(&bad));
}

#[test]
fn hand_text_is_five_cards() {
    assert_eq!(Hand::from_str("32T3"), Err(ParseHandError));
    assert_eq!(Hand::from_str(""), Err(ParseHandError));
    assert_eq!(
        Hand::from_str("AKQJT98"),
        Ok(Hand { cards: [Card('A'), Card('K'), Card('Q'), Card('J'), Card('T')] })
    );
}

#[test]
fn total_winnings_errors() {
    // a line that is not empty but holds no bid
    assert_eq!(try_calculate_total_winnings("32T3K 765\n   \nKK677 28"), None);
    assert_eq!(try_calculate_total_winnings("32T3K"), None);
    assert_eq!(try_calculate_total_winnings("32T3K x"), None);
    // a sum that leaves i32
    assert_eq!(try_calculate_total_winnings("32T3K 2147483647\nKK677 1"), None);
    // no bids at all
    assert_eq!(try_calculate_total_winnings(""), Some(0));
    assert_eq!(try_calculate_total_winnings("\n\n"), Some(0));
}

#[test]
fn equal_hands_rank_by_amount() {
    // the same hand twice: the smaller amount ranks lower
    assert_eq!(try_calculate_total_winnings("KK677 5\nKK677 3"), Some(3 + 2 * 5));
    assert_eq!(try_calculate_total_winnings("KK677 3\nKK677 5"), Some(3 + 2 * 5));
}

#[test]
fn jokers_make_the_best_hand() {
    let cards = ['2', '3', '4', '5', '6', '7', '8', '9', 'T', 'J', 'Q', 'K', 'A'];
    for text in ["KTJJT", "J2345", "JJJJJ", "3TJT3", "QJJQ2", "23456"] {
        let hand = Hand::from_str(text).unwrap();
        let best = hand.get_type_in(HandVersion::V2);
        let mut reached = false;
        for a in cards {
            for b in cards {
                let mut picks = [a, b].into_iter();
                let mut cs = hand.cards;
                for card in cs.iter_mut() {
                    if card.0 == 'J' {
                        *card = Card(picks.next().unwrap_or(a));
                    }
                }
                let kind = Hand { cards: cs }.get_type_in(HandVersion::V1);
                assert!(kind <= best, "{text}");
                reached |= kind == best;
            }
        }
        assert!(reached, "{text}");
    }
}

#[test]
fn jokers_never_weaken() {
    for text in ["J2345", "22JJ3", "KK677", "JJJJJ", "3TJT3"] {
        let hand = Hand::from_str(text).unwrap();
        assert!(hand.get_type_in(HandVersion::V2) >= hand.get_type_in(HandVersion::V1));
        assert!(hand.get_type_in(HandVersion::V2) >= HandKind::OnePair || !text.contains('J'));
    }
}
