//! The vocabulary of a round: cards, jokers, hand categories.

use vstd::prelude::*;

use crate::mult::{Chips, Dyadic, Mult};

verus! {

/// The thirteen card ranks, lowest first. The ace is high.
#[derive(Clone, Copy, PartialEq, Eq, Structural, Debug, Hash)]
pub enum Rank {
    Two,
    Three,
    Four,
    Five,
    Six,
    Seven,
    Eight,
    Nine,
    Ten,
    Jack,
    Queen,
    King,
    Ace,
}

/// The four suits.
#[derive(Clone, Copy, PartialEq, Eq, Structural, Debug, Hash)]
pub enum Suit {
    Spades,
    Hearts,
    Clubs,
    Diamonds,
}

/// A modifier attached to a card. Its effect depends on whether the card is
/// scored or held.
#[derive(Clone, Copy, PartialEq, Eq, Structural, Debug, Hash)]
pub enum Enhancement {
    /// +30 chips when scored.
    Bonus,
    /// +4 mult when scored.
    Mult,
    /// The card counts as every suit.
    Wild,
    /// x2 mult when scored.
    Glass,
    /// x1.5 mult when held.
    Steel,
}

/// A modifier attached to a card or to a joker.
#[derive(Clone, Copy, PartialEq, Eq, Structural, Debug, Hash)]
pub enum Edition {
    /// +50 chips.
    Foil,
    /// +10 mult.
    Holographic,
    /// x1.5 mult.
    Polychrome,
}

/// The catalogue of jokers. Each one is triggered per scored card, per held
/// card, or once per round; the last eight are known to the catalogue but
/// have no scoring rule.
#[derive(Clone, Copy, PartialEq, Eq, Structural, Debug, Hash)]
pub enum Joker {
    Joker,
    JollyJoker,
    ZanyJoker,
    MadJoker,
    CrazyJoker,
    DrollJoker,
    SlyJoker,
    WilyJoker,
    CleverJoker,
    DeviousJoker,
    CraftyJoker,
    AbstractJoker,
    RaisedFist,
    Blackboard,
    Baron,
    GreedyJoker,
    LustyJoker,
    WrathfulJoker,
    GluttonousJoker,
    Fibonacci,
    ScaryFace,
    EvenSteven,
    OddTodd,
    Photograph,
    SmileyFace,
    FlowerPot,
    FourFingers,
    Shortcut,
    Mime,
    Pareidolia,
    Splash,
    SockAndBuskin,
    SmearedJoker,
    Blueprint,
}

/// The twelve hand categories, weakest first.
#[derive(Clone, Copy, PartialEq, Eq, Structural, Debug, Hash)]
pub enum PokerHand {
    HighCard,
    Pair,
    TwoPair,
    ThreeOfAKind,
    Straight,
    Flush,
    FullHouse,
    FourOfAKind,
    StraightFlush,
    FiveOfAKind,
    FlushHouse,
    FlushFive,
}

/// One playing card.
#[derive(Clone, Copy, PartialEq, Eq, Debug, Hash)]
pub struct Card {
    pub rank: Rank,
    pub suit: Suit,
    pub enhancement: Option<Enhancement>,
    pub edition: Option<Edition>,
}

/// One joker in play, with its optional edition.
#[derive(Clone, Copy, PartialEq, Eq, Debug, Hash)]
pub struct JokerCard {
    pub joker: Joker,
    pub edition: Option<Edition>,
}

/// Everything that one scoring run reads. The order of each list is part of
/// the input.
#[derive(Clone, PartialEq, Eq, Debug)]
pub struct Round {
    pub cards_played: Vec<Card>,
    pub cards_held_in_hand: Vec<Card>,
    pub jokers: Vec<JokerCard>,
}

impl Rank {
    /// The chips that a scored card of this rank is worth.
    pub open spec fn chip_value(self) -> nat {
        match self {
            Rank::Two => 2,
            Rank::Three => 3,
            Rank::Four => 4,
            Rank::Five => 5,
            Rank::Six => 6,
            Rank::Seven => 7,
            Rank::Eight => 8,
            Rank::Nine => 9,
            Rank::Ten | Rank::Jack | Rank::Queen | Rank::King => 10,
            Rank::Ace => 11,
        }
    }

    /// Jack, queen and king are the face cards.
    pub open spec fn face(self) -> bool {
        self == Rank::Jack || self == Rank::Queen || self == Rank::King
    }

    /// The position of the rank in a straight: 2 for the two up to 14 for the ace.
    pub open spec fn straight(self) -> int {
        match self {
            Rank::Two => 2,
            Rank::Three => 3,
            Rank::Four => 4,
            Rank::Five => 5,
            Rank::Six => 6,
            Rank::Seven => 7,
            Rank::Eight => 8,
            Rank::Nine => 9,
            Rank::Ten => 10,
            Rank::Jack => 11,
            Rank::Queen => 12,
            Rank::King => 13,
            Rank::Ace => 14,
        }
    }

    /// The rank at a position of the straight order. Positions outside 2..=14
    /// are read as the ace.
    pub open spec fn at(v: int) -> Rank {
        if v == 2 {
            Rank::Two
        } else if v == 3 {
            Rank::Three
        } else if v == 4 {
            Rank::Four
        } else if v == 5 {
            Rank::Five
        } else if v == 6 {
            Rank::Six
        } else if v == 7 {
            Rank::Seven
        } else if v == 8 {
            Rank::Eight
        } else if v == 9 {
            Rank::Nine
        } else if v == 10 {
            Rank::Ten
        } else if v == 11 {
            Rank::Jack
        } else if v == 12 {
            Rank::Queen
        } else if v == 13 {
            Rank::King
        } else {
            Rank::Ace
        }
    }

    pub fn rank_value(&self) -> (chips: Chips)
        ensures
            chips == self.chip_value(),
    {
        match *self {
            Rank::Two => 2,
            Rank::Three => 3,
            Rank::Four => 4,
            Rank::Five => 5,
            Rank::Six => 6,
            Rank::Seven => 7,
            Rank::Eight => 8,
            Rank::Nine => 9,
            Rank::Ten | Rank::Jack | Rank::Queen | Rank::King => 10,
            Rank::Ace => 11,
        }
    }

    pub fn is_face(&self) -> (b: bool)
        ensures
            b == self.face(),
    {
        match *self {
            Rank::Jack | Rank::Queen | Rank::King => true,
            _ => false,
        }
    }

    /// The rank at position `v` of the straight order.
    pub fn from_straight_value(v: u8) -> (rank: Option<Rank>)
        ensures
            2 <= v <= 14 ==> rank == Some(Rank::at(v as int)),
            !(2 <= v <= 14) ==> rank.is_none(),
    {
        match v {
            2 => Some(Rank::Two),
            3 => Some(Rank::Three),
            4 => Some(Rank::Four),
            5 => Some(Rank::Five),
            6 => Some(Rank::Six),
            7 => Some(Rank::Seven),
            8 => Some(Rank::Eight),
            9 => Some(Rank::Nine),
            10 => Some(Rank::Ten),
            11 => Some(Rank::Jack),
            12 => Some(Rank::Queen),
            13 => Some(Rank::King),
            14 => Some(Rank::Ace),
            _ => None,
        }
    }
}

impl PokerHand {
    /// The place of the category in the strength order: 0 for a high card up
    /// to 11 for a flush five.
    pub open spec fn strength(self) -> int {
        match self {
            PokerHand::HighCard => 0,
            PokerHand::Pair => 1,
            PokerHand::TwoPair => 2,
            PokerHand::ThreeOfAKind => 3,
            PokerHand::Straight => 4,
            PokerHand::Flush => 5,
            PokerHand::FullHouse => 6,
            PokerHand::FourOfAKind => 7,
            PokerHand::StraightFlush => 8,
            PokerHand::FiveOfAKind => 9,
            PokerHand::FlushHouse => 10,
            PokerHand::FlushFive => 11,
        }
    }

    /// The chips that the category starts a round with.
    pub open spec fn base_chips(self) -> nat {
        match self {
            PokerHand::HighCard => 5,
            PokerHand::Pair => 10,
            PokerHand::TwoPair => 20,
            PokerHand::ThreeOfAKind => 30,
            PokerHand::Straight => 30,
            PokerHand::Flush => 35,
            PokerHand::FullHouse => 40,
            PokerHand::FourOfAKind => 60,
            PokerHand::StraightFlush => 100,
            PokerHand::FiveOfAKind => 120,
            PokerHand::FlushHouse => 140,
            PokerHand::FlushFive => 160,
        }
    }

    /// The multiplier that the category starts a round with.
    pub open spec fn base_mult(self) -> nat {
        match self {
            PokerHand::HighCard => 1,
            PokerHand::Pair => 2,
            PokerHand::TwoPair => 2,
            PokerHand::ThreeOfAKind => 3,
            PokerHand::Straight => 4,
            PokerHand::Flush => 4,
            PokerHand::FullHouse => 4,
            PokerHand::FourOfAKind => 7,
            PokerHand::StraightFlush => 8,
            PokerHand::FiveOfAKind => 12,
            PokerHand::FlushHouse => 14,
            PokerHand::FlushFive => 16,
        }
    }

    pub fn hand_value(&self) -> (value: (Chips, Mult))
        ensures
            value.0 == self.base_chips(),
            value.1@ == Dyadic::from_int(self.base_mult()),
    {
        let (chips, mult): (u64, u64) = match *self {
            PokerHand::HighCard => (5, 1),
            PokerHand::Pair => (10, 2),
            PokerHand::TwoPair => (20, 2),
            PokerHand::ThreeOfAKind => (30, 3),
            PokerHand::Straight => (30, 4),
            PokerHand::Flush => (35, 4),
            PokerHand::FullHouse => (40, 4),
            PokerHand::FourOfAKind => (60, 7),
            PokerHand::StraightFlush => (100, 8),
            PokerHand::FiveOfAKind => (120, 12),
            PokerHand::FlushHouse => (140, 14),
            PokerHand::FlushFive => (160, 16),
        };
        (chips, Mult::from_int(mult))
    }
}

impl Card {
    pub fn new(
        rank: Rank,
        suit: Suit,
        enhancement: Option<Enhancement>,
        edition: Option<Edition>,
    ) -> (card: Card)
        ensures
            card == (Card { rank, suit, enhancement, edition }),
    {
        Card { rank, suit, enhancement, edition }
    }
}

impl JokerCard {
    pub fn new(joker: Joker, edition: Option<Edition>) -> (card: JokerCard)
        ensures
            card == (JokerCard { joker, edition }),
    {
        JokerCard { joker, edition }
    }
}

} // verus!
