use problems::camel_cards::{
    calculate_total_winnings, compare_hands, ranked_bids, sort_hands, try_calculate_total_winnings,
    Card, Hand, HandKind, ParseHandError,
};
use std::cmp::Ordering;

#[test]
fn camel_cards_test_hand_kind_order() {
    assert!(HandKind::FiveOfAKind > HandKind::HighCard);
    assert!(HandKind::FullHouse > HandKind::TwoPair);

    let mut kv = vec![
        HandKind::FiveOfAKind,
        HandKind::FourOfAKind,
        HandKind::ThreeOrAKind,
        HandKind::OnePair,
        HandKind::TwoPair,
    ];
    kv.sort();

    assert_eq!(
        kv,
        vec![
            HandKind::OnePair,
            HandKind::TwoPair,
            HandKind::ThreeOrAKind,
            HandKind::FourOfAKind,
            HandKind::FiveOfAKind
        ]
    );
}

#[test]
fn test_hand_kind() {
    assert_eq!(
        "AAAAA".parse::<Hand>().unwrap().kind(),
        HandKind::FiveOfAKind
    );
    assert_eq!("32T3K".parse::<Hand>().unwrap().kind(), HandKind::OnePair);
    assert_eq!(
        "T55J5".parse::<Hand>().unwrap().kind(),
        HandKind::FourOfAKind
    );
    assert_eq!("KK677".parse::<Hand>().unwrap().kind(), HandKind::TwoPair);
    assert_eq!(
        "KTJJT".parse::<Hand>().unwrap().kind(),
        HandKind::FourOfAKind
    );
    assert_eq!(
        "QQQJA".parse::<Hand>().unwrap().kind(),
        HandKind::FourOfAKind
    );
    assert_eq!(
        "J2332".parse::<Hand>().unwrap().kind(),
        HandKind::FullHouse
    );
    assert_eq!(
        "2222Q".parse::<Hand>().unwrap().kind(),
        HandKind::FourOfAKind
    )
}

#[test]
fn test_cmp_cards() {
    assert!(Card('K') > Card('T'), "K > T")
}

#[test]
fn test_hand_parse_from_str() {
    let h = "32T3K".parse::<Hand>();

    assert_eq!(
        h,
        Ok(Hand(Card('3'), Card('2'), Card('T'), Card('3'), Card('K')))
    );

    let h = "32t3_".parse::<Hand>();

    assert_eq!(h, Err(ParseHandError))
}

#[test]
fn camel_cards_test_sort_hands() {
    let mut hands = vec![
        "J2883".parse::<Hand>().unwrap(),
        "J2524".parse::<Hand>().unwrap(),
        "J267K".parse::<Hand>().unwrap(),
    ];

    sort_hands(&mut hands);

    assert_eq!(
        hands,
        vec![
            "J267K".parse::<Hand>().unwrap(),
            "J2524".parse::<Hand>().unwrap(),
            "J2883".parse::<Hand>().unwrap(),
        ]
    )
}

#[test]
fn camel_cards_test_calculate_total_winnings() {
    let data = "32T3K 765\nT55J5 684\nKK677 28\nKTJJT 220\nQQQJA 483";
    let total = calculate_total_winnings(data);

    // the jokers of `T55J5`, `KTJJT` and `QQQJA` make them four of a kind,
    // as `test_hand_kind` has it, which ranks them above `KK677`
    assert_eq!(total, 5905);
}

#[test]
fn hand_and_card_text() {
    let h = "32T3K".parse::<Hand>().unwrap();
    assert_eq!(h.display(), "Hand(32T3K)");
    assert_eq!(Card('T').display(), "T");
    assert_eq!(h.get_cards(), vec![Card('3'), Card('2'), Card('T'), Card('3'), Card('K')]);
    assert_eq!(
        h.repeated_cards(),
        vec![(Card('3'), 2), (Card('2'), 1), (Card('T'), 1), (Card('K'), 1)]
    );
}

#[test]
fn kinds_with_jokers() {
    assert_eq!("JJJJJ".parse::<Hand>().unwrap().kind(), HandKind::FiveOfAKind);
    assert_eq!("J2345".parse::<Hand>().unwrap().kind(), HandKind::OnePair);
    assert_eq!("JJ234".parse::<Hand>().unwrap().kind(), HandKind::ThreeOrAKind);
    assert_eq!("J2234".parse::<Hand>().unwrap().kind(), HandKind::ThreeOrAKind);
    assert_eq!("J2233".parse::<Hand>().unwrap().kind(), HandKind::FullHouse);
    assert_eq!("JJ223".parse::<Hand>().unwrap().kind(), HandKind::FourOfAKind);
    assert_eq!("23456".parse::<Hand>().unwrap().kind(), HandKind::HighCard);
    assert_eq!("22333".parse::<Hand>().unwrap().kind(), HandKind::FullHouse);
}

#[test]
fn hand_order() {
    let a = "KK677".parse::<Hand>().unwrap();
    let b = "KTJJT".parse::<Hand>().unwrap();
    assert_eq!(a.cmp(&b), Ordering::Less);
    assert_eq!(b.cmp(&a), Ordering::Greater);
    assert_eq!(a.cmp(&a), Ordering::Equal);
    assert!(a < b);
    assert_eq!(a.strength_of() < b.strength_of(), true);
    // a hand that holds a character that names no card still ranks by kind
    let bad = Hand(Card('x'), Card('2'), Card('3'), Card('4'), Card('5'));
    assert_eq!(bad.partial_cmp(&a), Some(Ordering::Less));
    assert!(bad.comparable(&a));
    // but not by that character
    let other = Hand(Card('6'), Card('2'), Card('3'), Card('4'), Card('5'));
    assert_eq!(bad.partial_cmp(&other), None);
    assert!(!bad.comparable(&other));
    assert_eq!(bad.partial_cmp(&bad), Some(Ordering::Equal));
    assert!(!bad.is_valid());
    assert!(a.is_valid());
}

#[test]
fn ranking_and_its_errors() {
    let data = "32T3K 765\nT55J5 684\nKK677 28\nKTJJT 220\nQQQJA 483";
    let ranked = ranked_bids(data).unwrap();
    let order: Vec<String> = ranked.iter().map(|(h, _)| h.display()).collect();
    assert_eq!(
        order,
        vec!["Hand(32T3K)", "Hand(KK677)", "Hand(T55J5)", "Hand(QQQJA)", "Hand(KTJJT)"]
    );
    assert_eq!(ranked_bids("32T3K 765\n\nKK677 28"), None);
    assert_eq!(try_calculate_total_winnings("32T3K"), None);
    assert_eq!(try_calculate_total_winnings("32T3K 2147483647\nKK677 1"), None);
    assert_eq!(try_calculate_total_winnings(""), Some(0));
    // equal hands keep the order of their lines
    assert_eq!(try_calculate_total_winnings("KK677 5\nKK677 3"), Some(5 + 2 * 3));
}

#[test]
fn compare_rankings() {
    let first = "32T3K 765\nKK677 28\nT55J5 684";
    let second = "0 32T3K 765\n1 T55J5 684\n2 KK677 28\n3 AAAAA 1";
    let diffs = compare_hands(first, second).unwrap();
    // ranked, the first gives 32T3K, KK677, T55J5; the places 1 and 2 differ
    assert_eq!(diffs.len(), 2);
    let (d1, d2) = diffs[0];
    assert_eq!(d1.0, 1);
    assert_eq!(d1.1, "KK677".parse::<Hand>().unwrap());
    assert_eq!(d1.2, 28);
    assert_eq!(d2.0, 1);
    assert_eq!(d2.1, "T55J5".parse::<Hand>().unwrap());
    assert_eq!(d2.2, 684);
    let (d1, d2) = diffs[1];
    assert_eq!(d1.0, 2);
    assert_eq!(d2.0, 2);
    assert_eq!(d1.1, "T55J5".parse::<Hand>().unwrap());
    let same = compare_hands("KK677 28", "0 KK677 28").unwrap();
    assert!(same.is_empty());
    assert_eq!(compare_hands("KK677 28", "0 KK677").is_none(), true);
    assert_eq!(compare_hands("KK677", "0 KK677 28").is_none(), true);
}
