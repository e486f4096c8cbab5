use score_lib::{PokerHand, PokerHandUtils, Rank};

fn outside_rank(rank: Rank) -> ortalib::Rank {
    match rank {
        Rank::Two => ortalib::Rank::Two,
        Rank::Three => ortalib::Rank::Three,
        Rank::Four => ortalib::Rank::Four,
        Rank::Five => ortalib::Rank::Five,
        Rank::Six => ortalib::Rank::Six,
        Rank::Seven => ortalib::Rank::Seven,
        Rank::Eight => ortalib::Rank::Eight,
        Rank::Nine => ortalib::Rank::Nine,
        Rank::Ten => ortalib::Rank::Ten,
        Rank::Jack => ortalib::Rank::Jack,
        Rank::Queen => ortalib::Rank::Queen,
        Rank::King => ortalib::Rank::King,
        Rank::Ace => ortalib::Rank::Ace,
    }
}

fn outside_hand(hand: PokerHand) -> ortalib::PokerHand {
    match hand {
        PokerHand::HighCard => ortalib::PokerHand::HighCard,
        PokerHand::Pair => ortalib::PokerHand::Pair,
        PokerHand::TwoPair => ortalib::PokerHand::TwoPair,
        PokerHand::ThreeOfAKind => ortalib::PokerHand::ThreeOfAKind,
        PokerHand::Straight => ortalib::PokerHand::Straight,
        PokerHand::Flush => ortalib::PokerHand::Flush,
        PokerHand::FullHouse => ortalib::PokerHand::FullHouse,
        PokerHand::FourOfAKind => ortalib::PokerHand::FourOfAKind,
        PokerHand::StraightFlush => ortalib::PokerHand::StraightFlush,
        PokerHand::FiveOfAKind => ortalib::PokerHand::FiveOfAKind,
        PokerHand::FlushHouse => ortalib::PokerHand::FlushHouse,
        PokerHand::FlushFive => ortalib::PokerHand::FlushFive,
    }
}

#[test]
fn rank_tables_agree_with_ortalib() {
    for v in 2..=14u8 {
        let rank = Rank::from_straight_value(v).unwrap();
        let theirs = outside_rank(rank);
        assert_eq!(rank.rank_value() as f64, theirs.rank_value());
        assert_eq!(rank.is_face(), theirs.is_face());
    }
}

#[test]
fn base_values_agree_with_ortalib() {
    for hand in PokerHand::vector() {
        let (chips, mult) = hand.hand_value();
        let (their_chips, their_mult) = outside_hand(hand).hand_value();
        assert_eq!(chips as f64, their_chips);
        assert_eq!(mult.exp, 0);
        assert_eq!(mult.num as f64, their_mult);
    }
}
