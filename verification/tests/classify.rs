use score_lib::{
    Card, CardUtils, Enhancement, HandPokerRecognizer, PokerHand, PokerHandUtils, Rank, Round,
    StraghtValueGetter, Suit,
};
use score_lib::poker_hand::same_suite;
use score_lib::utils::{
    count_poker_by_rank, group_poker_by_rank, max_num_of_rank, num_of_poker_by_ranks,
    num_of_poker_by_suits,
};

fn plain(rank: Rank, suit: Suit) -> Card {
    Card::new(rank, suit, None, None)
}

fn wild(rank: Rank, suit: Suit) -> Card {
    Card::new(rank, suit, Some(Enhancement::Wild), None)
}

fn hand_of(ranks: &[Rank], suits: &[Suit]) -> Vec<Card> {
    ranks.iter().zip(suits.iter()).map(|(r, s)| plain(*r, *s)).collect()
}

const MIXED: [Suit; 5] = [Suit::Hearts, Suit::Spades, Suit::Clubs, Suit::Diamonds, Suit::Spades];

const ALL_RANKS: [Rank; 13] = [
    Rank::Two,
    Rank::Three,
    Rank::Four,
    Rank::Five,
    Rank::Six,
    Rank::Seven,
    Rank::Eight,
    Rank::Nine,
    Rank::Ten,
    Rank::Jack,
    Rank::Queen,
    Rank::King,
    Rank::Ace,
];

#[test]
fn straight_values_run_from_two_to_ace() {
    let values: Vec<u8> = ALL_RANKS.iter().map(|r| r.straight_value()).collect();
    assert_eq!(values, vec![2, 3, 4, 5, 6, 7, 8, 9, 10, 11, 12, 13, 14]);
    for rank in ALL_RANKS {
        assert_eq!(Rank::from_straight_value(rank.straight_value()), Some(rank));
    }
    assert_eq!(Rank::from_straight_value(1), None);
    assert_eq!(Rank::from_straight_value(15), None);
}

#[test]
fn chip_values_of_the_ranks() {
    let values: Vec<u64> = ALL_RANKS.iter().map(|r| r.rank_value()).collect();
    assert_eq!(values, vec![2, 3, 4, 5, 6, 7, 8, 9, 10, 10, 10, 10, 11]);
}

#[test]
fn face_cards_are_jack_queen_king() {
    for rank in ALL_RANKS {
        let expected = matches!(rank, Rank::Jack | Rank::Queen | Rank::King);
        assert_eq!(rank.is_face(), expected);
    }
}

#[test]
fn wild_is_the_wild_enhancement_only() {
    assert!(wild(Rank::Two, Suit::Clubs).is_wild());
    assert!(!plain(Rank::Two, Suit::Clubs).is_wild());
    for e in [Enhancement::Bonus, Enhancement::Mult, Enhancement::Glass, Enhancement::Steel] {
        assert!(!Card::new(Rank::Two, Suit::Clubs, Some(e), None).is_wild());
    }
}

#[test]
fn mixed_suit_run_is_a_straight_but_no_straight_flush() {
    let cards = hand_of(
        &[Rank::Two, Rank::Three, Rank::Four, Rank::Five, Rank::Six],
        &MIXED,
    );
    assert!(PokerHand::Straight.is(&cards));
    assert!(!PokerHand::StraightFlush.is(&cards));
    assert!(Round::is_straight(&cards));
    assert!(!Round::is_flush(&cards));
    assert_eq!(PokerHand::recogonize(&cards), vec![PokerHand::Straight, PokerHand::HighCard]);
}

#[test]
fn run_out_of_order_is_a_straight() {
    let cards = hand_of(
        &[Rank::Nine, Rank::Six, Rank::Eight, Rank::Ten, Rank::Seven],
        &MIXED,
    );
    assert!(PokerHand::Straight.is(&cards));
}

#[test]
fn ten_to_ace_of_one_suit_is_a_straight_flush() {
    let cards = hand_of(
        &[Rank::Ten, Rank::Jack, Rank::Queen, Rank::King, Rank::Ace],
        &[Suit::Hearts; 5],
    );
    assert!(PokerHand::StraightFlush.is(&cards));
    assert_eq!(
        PokerHand::recogonize(&cards),
        vec![PokerHand::StraightFlush, PokerHand::Flush, PokerHand::Straight, PokerHand::HighCard]
    );
}

#[test]
fn wheel_is_a_straight_in_any_suits() {
    let ranks = [Rank::Ace, Rank::Two, Rank::Three, Rank::Four, Rank::Five];
    assert!(PokerHand::Straight.is(&hand_of(&ranks, &MIXED)));
    assert!(PokerHand::Straight.is(&hand_of(&ranks, &[Suit::Clubs; 5])));
    assert!(PokerHand::StraightFlush.is(&hand_of(&ranks, &[Suit::Clubs; 5])));
}

#[test]
fn wheel_with_a_sixth_card_is_still_a_straight() {
    let mut cards = hand_of(
        &[Rank::Ace, Rank::Two, Rank::Three, Rank::Four, Rank::Five],
        &MIXED,
    );
    cards.push(plain(Rank::King, Suit::Hearts));
    assert!(PokerHand::Straight.is(&cards));
}

#[test]
fn gap_or_repeat_or_wrap_is_no_straight() {
    let gap = hand_of(&[Rank::Two, Rank::Three, Rank::Four, Rank::Five, Rank::Seven], &MIXED);
    assert!(!PokerHand::Straight.is(&gap));
    let repeat = hand_of(&[Rank::Two, Rank::Three, Rank::Four, Rank::Four, Rank::Five], &MIXED);
    assert!(!PokerHand::Straight.is(&repeat));
    let wrap = hand_of(&[Rank::Queen, Rank::King, Rank::Ace, Rank::Two, Rank::Three], &MIXED);
    assert!(!PokerHand::Straight.is(&wrap));
}

#[test]
fn four_cards_are_neither_straight_nor_flush() {
    let cards = hand_of(
        &[Rank::Two, Rank::Three, Rank::Four, Rank::Five],
        &[Suit::Hearts; 4],
    );
    assert!(!PokerHand::Straight.is(&cards));
    assert!(!PokerHand::Flush.is(&cards));
    assert!(!PokerHand::StraightFlush.is(&cards));
}

#[test]
fn four_hearts_and_a_wild_card_are_a_flush() {
    let cards = vec![
        plain(Rank::Two, Suit::Hearts),
        plain(Rank::Nine, Suit::Hearts),
        wild(Rank::King, Suit::Spades),
        plain(Rank::Four, Suit::Hearts),
        plain(Rank::Jack, Suit::Hearts),
    ];
    assert!(PokerHand::Flush.is(&cards));
    assert!(Round::is_flush(&cards));
    assert!(same_suite(&cards));
}

#[test]
fn flush_goes_by_the_suit_of_the_first_card() {
    let cards = vec![
        wild(Rank::King, Suit::Spades),
        plain(Rank::Two, Suit::Hearts),
        plain(Rank::Nine, Suit::Hearts),
        plain(Rank::Four, Suit::Hearts),
        plain(Rank::Jack, Suit::Hearts),
    ];
    assert!(!PokerHand::Flush.is(&cards));
    assert!(same_suite(&cards));
}

#[test]
fn one_off_suit_card_breaks_the_flush() {
    let cards = vec![
        plain(Rank::Two, Suit::Hearts),
        plain(Rank::Nine, Suit::Hearts),
        plain(Rank::King, Suit::Spades),
        plain(Rank::Four, Suit::Hearts),
        plain(Rank::Jack, Suit::Hearts),
    ];
    assert!(!PokerHand::Flush.is(&cards));
    assert!(!same_suite(&cards));
}

#[test]
fn same_suite_of_wild_cards_and_of_no_cards() {
    assert!(same_suite(&vec![]));
    assert!(same_suite(&vec![wild(Rank::Two, Suit::Hearts), wild(Rank::Two, Suit::Spades)]));
    assert!(same_suite(&vec![plain(Rank::Two, Suit::Hearts)]));
}

#[test]
fn full_house_is_also_three_of_a_kind_and_two_pair() {
    let cards = hand_of(
        &[Rank::King, Rank::King, Rank::King, Rank::Two, Rank::Two],
        &MIXED,
    );
    assert_eq!(
        PokerHand::recogonize(&cards),
        vec![
            PokerHand::FullHouse,
            PokerHand::ThreeOfAKind,
            PokerHand::TwoPair,
            PokerHand::Pair
        ]
    );
}

#[test]
fn four_of_a_kind_is_also_three_of_a_kind_and_a_pair() {
    let cards = hand_of(
        &[Rank::Jack, Rank::Jack, Rank::Jack, Rank::Jack, Rank::Three],
        &MIXED,
    );
    assert_eq!(
        PokerHand::recogonize(&cards),
        vec![PokerHand::FourOfAKind, PokerHand::ThreeOfAKind, PokerHand::Pair]
    );
}

#[test]
fn flush_five_lists_every_category_it_implies() {
    let cards = hand_of(&[Rank::Ace; 5], &[Suit::Spades; 5]);
    assert_eq!(
        PokerHand::recogonize(&cards),
        vec![
            PokerHand::FlushFive,
            PokerHand::FiveOfAKind,
            PokerHand::FourOfAKind,
            PokerHand::Flush,
            PokerHand::ThreeOfAKind,
            PokerHand::Pair
        ]
    );
}

#[test]
fn flush_house_lists_every_category_it_implies() {
    let cards = hand_of(
        &[Rank::Seven, Rank::Seven, Rank::Seven, Rank::Four, Rank::Four],
        &[Suit::Diamonds; 5],
    );
    assert_eq!(
        PokerHand::recogonize(&cards),
        vec![
            PokerHand::FlushHouse,
            PokerHand::FullHouse,
            PokerHand::Flush,
            PokerHand::ThreeOfAKind,
            PokerHand::TwoPair,
            PokerHand::Pair
        ]
    );
}

#[test]
fn five_of_a_kind_in_mixed_suits_is_no_flush_five() {
    let cards = hand_of(&[Rank::Ace; 5], &MIXED);
    let hands = PokerHand::recogonize(&cards);
    assert_eq!(hands[0], PokerHand::FiveOfAKind);
    assert!(!hands.contains(&PokerHand::FlushFive));
}

#[test]
fn six_of_a_kind_is_four_of_a_kind_but_not_five() {
    let cards: Vec<Card> = (0..6).map(|_| plain(Rank::Nine, Suit::Clubs)).collect();
    assert!(!PokerHand::FiveOfAKind.is(&cards));
    assert!(PokerHand::FourOfAKind.is(&cards));
}

#[test]
fn classification_is_sorted_and_never_empty_for_a_hand() {
    let hands_to_try = vec![
        vec![plain(Rank::Two, Suit::Clubs)],
        hand_of(&[Rank::Two, Rank::Two], &MIXED[..2]),
        hand_of(&[Rank::Two, Rank::Three, Rank::Four, Rank::Five, Rank::Six], &MIXED),
        hand_of(&[Rank::King, Rank::King, Rank::King, Rank::Two, Rank::Two], &[Suit::Clubs; 5]),
    ];
    for cards in hands_to_try {
        let hands = PokerHand::recogonize(&cards);
        assert!(!hands.is_empty());
        for pair in hands.windows(2) {
            assert!(rank_of(pair[0]) > rank_of(pair[1]));
        }
        for hand in PokerHand::vector() {
            assert_eq!(hands.contains(&hand), hand.is(&cards));
        }
    }
}

fn rank_of(hand: PokerHand) -> usize {
    let ladder = PokerHand::vector();
    ladder.len() - ladder.iter().position(|h| *h == hand).unwrap()
}

#[test]
fn no_cards_satisfy_no_category() {
    let cards: Vec<Card> = vec![];
    assert_eq!(PokerHand::recogonize(&cards), vec![]);
    for hand in PokerHand::vector() {
        assert!(!hand.is(&cards));
    }
    let round = Round { cards_played: cards, cards_held_in_hand: vec![], jokers: vec![] };
    assert_eq!(round.recognize_hand_type(), PokerHand::HighCard);
}

#[test]
fn single_card_is_a_high_card() {
    let cards = vec![plain(Rank::Ace, Suit::Hearts)];
    assert_eq!(PokerHand::recogonize(&cards), vec![PokerHand::HighCard]);
}

#[test]
fn ladder_runs_from_flush_five_to_high_card() {
    assert_eq!(
        PokerHand::vector(),
        vec![
            PokerHand::FlushFive,
            PokerHand::FlushHouse,
            PokerHand::FiveOfAKind,
            PokerHand::StraightFlush,
            PokerHand::FourOfAKind,
            PokerHand::FullHouse,
            PokerHand::Flush,
            PokerHand::Straight,
            PokerHand::ThreeOfAKind,
            PokerHand::TwoPair,
            PokerHand::Pair,
            PokerHand::HighCard
        ]
    );
}

#[test]
fn best_hand_is_the_strongest() {
    let round = Round {
        cards_played: hand_of(
            &[Rank::Seven, Rank::Seven, Rank::Two, Rank::Two, Rank::Nine],
            &MIXED,
        ),
        cards_held_in_hand: vec![],
        jokers: vec![],
    };
    assert_eq!(round.recognize_hand_type(), PokerHand::TwoPair);
}

#[test]
fn groups_keep_the_order_played() {
    let cards = vec![
        plain(Rank::Seven, Suit::Hearts),
        plain(Rank::Three, Suit::Clubs),
        plain(Rank::Seven, Suit::Spades),
        plain(Rank::Seven, Suit::Diamonds),
    ];
    let groups = group_poker_by_rank(&cards);
    assert_eq!(groups.len(), 2);
    assert_eq!(groups[&7], vec![cards[0], cards[2], cards[3]]);
    assert_eq!(groups[&3], vec![cards[1]]);
    let counts = count_poker_by_rank(&cards);
    assert_eq!(counts.len(), 2);
    assert_eq!(counts[&7], 3);
    assert_eq!(counts[&3], 1);
    assert_eq!(max_num_of_rank(&cards), 3);
    assert_eq!(max_num_of_rank(&vec![]), 0);
    assert!(group_poker_by_rank(&vec![]).is_empty());
}

#[test]
fn wild_cards_do_not_join_rank_groups() {
    let cards = vec![
        plain(Rank::Seven, Suit::Hearts),
        wild(Rank::Three, Suit::Clubs),
        plain(Rank::Seven, Suit::Spades),
    ];
    assert_eq!(max_num_of_rank(&cards), 2);
    assert!(!PokerHand::ThreeOfAKind.is(&cards));
}

#[test]
fn counting_by_suit_and_rank_counts_wild_cards_too() {
    let cards = vec![
        plain(Rank::Seven, Suit::Hearts),
        wild(Rank::Three, Suit::Clubs),
        plain(Rank::Seven, Suit::Spades),
        plain(Rank::Two, Suit::Diamonds),
    ];
    assert_eq!(num_of_poker_by_suits(&cards, vec![Suit::Hearts]), 2);
    assert_eq!(num_of_poker_by_suits(&cards, vec![Suit::Hearts, Suit::Spades]), 3);
    assert_eq!(num_of_poker_by_suits(&cards, vec![]), 1);
    assert_eq!(num_of_poker_by_ranks(&cards, vec![Rank::Seven]), 3);
    assert_eq!(num_of_poker_by_ranks(&cards, vec![Rank::Two, Rank::Ace]), 2);
    assert_eq!(num_of_poker_by_ranks(&vec![], vec![Rank::Two]), 0);
}
