use score_lib::{Card, Edition, Enhancement, PokerHand, Rank, Round, ScoredCardGetter, Suit};

fn bare(rank: Rank, suit: Suit) -> Card {
    Card::new(rank, suit, None, None)
}

fn round_of(cards: Vec<Card>) -> Round {
    Round { cards_played: cards, cards_held_in_hand: vec![], jokers: vec![] }
}

#[test]
fn pair_scores_the_two_sevens_in_the_order_played() {
    let cards = vec![
        bare(Rank::Seven, Suit::Hearts),
        bare(Rank::Seven, Suit::Spades),
        bare(Rank::Three, Suit::Clubs),
        bare(Rank::Nine, Suit::Diamonds),
        bare(Rank::Two, Suit::Spades),
    ];
    let scored = round_of(cards.clone()).get_scored_cards(PokerHand::Pair);
    assert_eq!(scored, vec![cards[0], cards[1]]);
}

#[test]
fn pair_scores_the_first_two_cards_of_the_highest_pair() {
    let cards = vec![
        bare(Rank::Three, Suit::Hearts),
        bare(Rank::King, Suit::Spades),
        bare(Rank::Three, Suit::Clubs),
        bare(Rank::King, Suit::Diamonds),
        bare(Rank::King, Suit::Clubs),
    ];
    let scored = round_of(cards.clone()).get_scored_cards(PokerHand::Pair);
    assert_eq!(scored, vec![cards[1], cards[3]]);
}

#[test]
fn pair_without_a_pair_scores_nothing() {
    let cards = vec![bare(Rank::Three, Suit::Hearts), bare(Rank::King, Suit::Spades)];
    assert_eq!(round_of(cards).get_scored_cards(PokerHand::Pair), vec![]);
}

#[test]
fn two_pair_scores_the_higher_pair_first() {
    let cards = vec![
        bare(Rank::Two, Suit::Clubs),
        bare(Rank::Seven, Suit::Hearts),
        bare(Rank::Nine, Suit::Spades),
        bare(Rank::Two, Suit::Diamonds),
        bare(Rank::Seven, Suit::Spades),
    ];
    let scored = round_of(cards.clone()).get_scored_cards(PokerHand::TwoPair);
    assert_eq!(scored, vec![cards[1], cards[4], cards[0], cards[3]]);
}

#[test]
fn two_pair_of_three_pairs_scores_the_two_highest() {
    let cards = vec![
        bare(Rank::Two, Suit::Clubs),
        bare(Rank::Two, Suit::Hearts),
        bare(Rank::Ace, Suit::Spades),
        bare(Rank::Ace, Suit::Diamonds),
        bare(Rank::Ten, Suit::Spades),
        bare(Rank::Ten, Suit::Clubs),
    ];
    let scored = round_of(cards.clone()).get_scored_cards(PokerHand::TwoPair);
    assert_eq!(scored, vec![cards[2], cards[3], cards[4], cards[5]]);
}

#[test]
fn two_pair_with_one_pair_scores_nothing() {
    let cards = vec![
        bare(Rank::Two, Suit::Clubs),
        bare(Rank::Two, Suit::Hearts),
        bare(Rank::Ace, Suit::Spades),
    ];
    assert_eq!(round_of(cards).get_scored_cards(PokerHand::TwoPair), vec![]);
}

#[test]
fn three_of_a_kind_scores_the_largest_group() {
    let cards = vec![
        bare(Rank::Nine, Suit::Clubs),
        bare(Rank::Ace, Suit::Hearts),
        bare(Rank::Nine, Suit::Spades),
        bare(Rank::Three, Suit::Diamonds),
        bare(Rank::Nine, Suit::Hearts),
    ];
    let scored = round_of(cards.clone()).get_scored_cards(PokerHand::ThreeOfAKind);
    assert_eq!(scored, vec![cards[0], cards[2], cards[4]]);
}

#[test]
fn three_of_a_kind_takes_the_whole_of_a_larger_group() {
    let cards = vec![
        bare(Rank::Nine, Suit::Clubs),
        bare(Rank::Nine, Suit::Hearts),
        bare(Rank::Nine, Suit::Spades),
        bare(Rank::Nine, Suit::Diamonds),
        bare(Rank::Ace, Suit::Hearts),
    ];
    let scored = round_of(cards.clone()).get_scored_cards(PokerHand::ThreeOfAKind);
    assert_eq!(scored, vec![cards[0], cards[1], cards[2], cards[3]]);
}

#[test]
fn three_of_a_kind_breaks_a_tie_by_the_higher_rank() {
    let cards = vec![
        bare(Rank::Four, Suit::Clubs),
        bare(Rank::Queen, Suit::Hearts),
        bare(Rank::Four, Suit::Spades),
        bare(Rank::Queen, Suit::Diamonds),
        bare(Rank::Four, Suit::Hearts),
        bare(Rank::Queen, Suit::Clubs),
    ];
    let scored = round_of(cards.clone()).get_scored_cards(PokerHand::ThreeOfAKind);
    assert_eq!(scored, vec![cards[1], cards[3], cards[5]]);
}

#[test]
fn three_of_a_kind_without_one_scores_nothing() {
    let cards = vec![bare(Rank::Four, Suit::Clubs), bare(Rank::Four, Suit::Hearts)];
    assert_eq!(round_of(cards).get_scored_cards(PokerHand::ThreeOfAKind), vec![]);
}

#[test]
fn four_of_a_kind_scores_the_four() {
    let cards = vec![
        bare(Rank::Jack, Suit::Spades),
        bare(Rank::Three, Suit::Clubs),
        bare(Rank::Jack, Suit::Clubs),
        bare(Rank::Jack, Suit::Hearts),
        bare(Rank::Jack, Suit::Diamonds),
    ];
    let scored = round_of(cards.clone()).get_scored_cards(PokerHand::FourOfAKind);
    assert_eq!(scored, vec![cards[0], cards[2], cards[3], cards[4]]);
}

#[test]
fn four_of_a_kind_takes_the_higher_of_two_fours() {
    let mut cards = vec![];
    for _ in 0..4 {
        cards.push(bare(Rank::Five, Suit::Spades));
        cards.push(bare(Rank::Ten, Suit::Hearts));
    }
    let scored = round_of(cards.clone()).get_scored_cards(PokerHand::FourOfAKind);
    assert_eq!(scored, vec![cards[1], cards[3], cards[5], cards[7]]);
}

#[test]
fn four_of_a_kind_needs_a_group_of_exactly_four() {
    let cards: Vec<Card> = (0..6).map(|_| bare(Rank::Nine, Suit::Clubs)).collect();
    assert_eq!(round_of(cards).get_scored_cards(PokerHand::FourOfAKind), vec![]);
}

#[test]
fn high_card_scores_the_highest_card() {
    let cards = vec![
        bare(Rank::Queen, Suit::Diamonds),
        bare(Rank::Nine, Suit::Hearts),
        bare(Rank::Ace, Suit::Spades),
        bare(Rank::Three, Suit::Hearts),
        bare(Rank::Four, Suit::Spades),
    ];
    let scored = round_of(cards.clone()).get_scored_cards(PokerHand::HighCard);
    assert_eq!(scored, vec![cards[2]]);
}

#[test]
fn high_card_takes_the_last_played_of_equal_ranks() {
    let cards = vec![
        Card::new(Rank::King, Suit::Diamonds, Some(Enhancement::Bonus), None),
        bare(Rank::Nine, Suit::Hearts),
        Card::new(Rank::King, Suit::Spades, None, Some(Edition::Foil)),
    ];
    let scored = round_of(cards.clone()).get_scored_cards(PokerHand::HighCard);
    assert_eq!(scored, vec![cards[2]]);
}

#[test]
fn no_cards_score_nothing() {
    for hand in [
        PokerHand::HighCard,
        PokerHand::Pair,
        PokerHand::TwoPair,
        PokerHand::ThreeOfAKind,
        PokerHand::FourOfAKind,
        PokerHand::Flush,
    ] {
        assert_eq!(round_of(vec![]).get_scored_cards(hand), vec![]);
    }
}

#[test]
fn the_other_categories_score_every_card_as_played() {
    let cards = vec![
        bare(Rank::Three, Suit::Diamonds),
        bare(Rank::Ace, Suit::Hearts),
        bare(Rank::Nine, Suit::Spades),
        bare(Rank::Three, Suit::Hearts),
        bare(Rank::Four, Suit::Spades),
    ];
    for hand in [
        PokerHand::Flush,
        PokerHand::Straight,
        PokerHand::StraightFlush,
        PokerHand::FullHouse,
        PokerHand::FiveOfAKind,
        PokerHand::FlushHouse,
        PokerHand::FlushFive,
    ] {
        assert_eq!(round_of(cards.clone()).get_scored_cards(hand), cards);
    }
}
