//! The joker catalogue: which trigger class a joker belongs to, when it
//! fires, and what it does to the running totals.

use vstd::prelude::*;

use crate::card::CardUtils;
use crate::error::ScoreError;
use crate::modifiers::{edition_effect, lemma_edition_grows, EditionUtils};
use crate::mult::{Chips, Dyadic, Mult};
use crate::score::{Score, Tally};
use crate::types::{Card, Joker, JokerCard, PokerHand, Rank, Suit};
use crate::utils::{lemma_filter_all, num_of_poker_by_suits, suit_among};

verus! {

/// The jokers that are asked once for every scored card.
pub open spec fn on_scored(joker: Joker) -> bool {
    match joker {
        Joker::GreedyJoker
        | Joker::LustyJoker
        | Joker::WrathfulJoker
        | Joker::GluttonousJoker
        | Joker::Fibonacci
        | Joker::ScaryFace
        | Joker::EvenSteven
        | Joker::OddTodd
        | Joker::Photograph
        | Joker::SmileyFace => true,
        _ => false,
    }
}

/// The jokers that are asked once for every held card.
pub open spec fn on_held(joker: Joker) -> bool {
    joker == Joker::RaisedFist || joker == Joker::Baron
}

/// The jokers that are asked once per round.
pub open spec fn independent(joker: Joker) -> bool {
    match joker {
        Joker::Joker
        | Joker::JollyJoker
        | Joker::ZanyJoker
        | Joker::MadJoker
        | Joker::CrazyJoker
        | Joker::DrollJoker
        | Joker::SlyJoker
        | Joker::WilyJoker
        | Joker::CleverJoker
        | Joker::DeviousJoker
        | Joker::CraftyJoker
        | Joker::AbstractJoker
        | Joker::Blackboard
        | Joker::FlowerPot => true,
        _ => false,
    }
}

/// The jokers that have a scoring rule: those of the three trigger classes.
pub open spec fn supported(joker: Joker) -> bool {
    on_scored(joker) || on_held(joker) || independent(joker)
}

/// Ace, two, three, five and eight.
pub open spec fn fibonacci_rank(rank: Rank) -> bool {
    rank == Rank::Ace || rank == Rank::Two || rank == Rank::Three || rank == Rank::Five || rank
        == Rank::Eight
}

/// Two, four, six, eight and ten.
pub open spec fn even_rank(rank: Rank) -> bool {
    rank == Rank::Two || rank == Rank::Four || rank == Rank::Six || rank == Rank::Eight || rank
        == Rank::Ten
}

/// Ace, three, five, seven and nine.
pub open spec fn odd_rank(rank: Rank) -> bool {
    rank == Rank::Ace || rank == Rank::Three || rank == Rank::Five || rank == Rank::Seven || rank
        == Rank::Nine
}

/// Whether the card is of the suit or wild.
pub open spec fn suits_as(card: Card, suit: Suit) -> bool {
    card.suit == suit || card.wild()
}

/// The totals after a joker of the per-scored-card class has seen one
/// scored card. The photograph doubles the multiplier on the first face card
/// it sees in a run and never again.
pub open spec fn on_scored_effect(tally: Tally, joker: Joker, card: Card) -> Tally {
    match joker {
        Joker::GreedyJoker => if suits_as(card, Suit::Diamonds) {
            tally.plus_mult(3)
        } else {
            tally
        },
        Joker::LustyJoker => if suits_as(card, Suit::Hearts) {
            tally.plus_mult(3)
        } else {
            tally
        },
        Joker::WrathfulJoker => if suits_as(card, Suit::Spades) {
            tally.plus_mult(3)
        } else {
            tally
        },
        Joker::GluttonousJoker => if suits_as(card, Suit::Clubs) {
            tally.plus_mult(3)
        } else {
            tally
        },
        Joker::Fibonacci => if fibonacci_rank(card.rank) {
            tally.plus_mult(8)
        } else {
            tally
        },
        Joker::ScaryFace => if card.rank.face() {
            tally.plus_chips(30)
        } else {
            tally
        },
        Joker::EvenSteven => if even_rank(card.rank) {
            tally.plus_mult(4)
        } else {
            tally
        },
        Joker::OddTodd => if odd_rank(card.rank) {
            tally.plus_chips(31)
        } else {
            tally
        },
        Joker::Photograph => if card.rank.face() && !tally.photograph_triggered {
            Tally { mult: tally.mult.times(2), photograph_triggered: true, ..tally }
        } else {
            tally
        },
        Joker::SmileyFace => if card.rank.face() {
            tally.plus_mult(5)
        } else {
            tally
        },
        _ => tally,
    }
}

/// The totals after a joker of the per-held-card class has seen one held
/// card. The raised fist adds twice the chip value of the last held card,
/// once in a run; the baron grows the multiplier by a half for every king.
pub open spec fn on_held_effect(tally: Tally, joker: Joker, card: Card, is_last: bool) -> Tally {
    match joker {
        Joker::RaisedFist => if !tally.raised_fist_triggered && is_last {
            Tally {
                mult: tally.mult.plus(Dyadic::from_int(2 * card.rank.chip_value())),
                raised_fist_triggered: true,
                ..tally
            }
        } else {
            tally
        },
        Joker::Baron => if card.rank == Rank::King {
            tally.with_mult(tally.mult.times_three_halves())
        } else {
            tally
        },
        _ => tally,
    }
}

/// Whether every held card is a club, a spade or wild.
pub open spec fn all_black(held: Seq<Card>) -> bool {
    forall|i: int|
        0 <= i < held.len() ==> suits_as(#[trigger] held[i], Suit::Clubs) || suits_as(
            held[i],
            Suit::Spades,
        )
}

/// Whether a card that is not wild shows the suit.
pub open spec fn suit_shown(cards: Seq<Card>, suit: Suit) -> bool {
    exists|i: int| 0 <= i < cards.len() && !(#[trigger] cards[i]).wild() && cards[i].suit == suit
}

/// How many of the four suits no card shows.
pub open spec fn missing_suits(cards: Seq<Card>) -> nat {
    let spades: nat = if suit_shown(cards, Suit::Spades) {
        0
    } else {
        1
    };
    let hearts: nat = if suit_shown(cards, Suit::Hearts) {
        0
    } else {
        1
    };
    let clubs: nat = if suit_shown(cards, Suit::Clubs) {
        0
    } else {
        1
    };
    let diamonds: nat = if suit_shown(cards, Suit::Diamonds) {
        0
    } else {
        1
    };
    spades + hearts + clubs + diamonds
}

/// The test "is wild".
pub open spec fn is_wild_card() -> spec_fn(Card) -> bool {
    |card: Card| card.wild()
}

/// How many of the cards are wild.
pub open spec fn wild_count(cards: Seq<Card>) -> nat {
    cards.filter(is_wild_card()).len()
}

/// Whether a once-per-round joker fires.
///
/// The jokers keyed to a category fire when the played hand satisfies it,
/// as its strongest category or not. The blackboard fires when every held
/// card is black or wild, and so with no card held. The flower pot fires when
/// the scored cards have a wild card for each suit that none of them shows.
/// The others always fire.
pub open spec fn condition_met(
    joker: Joker,
    hands: Seq<PokerHand>,
    held: Seq<Card>,
    scored: Seq<Card>,
) -> bool {
    match joker {
        Joker::JollyJoker | Joker::SlyJoker => hands.contains(PokerHand::Pair),
        Joker::ZanyJoker | Joker::WilyJoker => hands.contains(PokerHand::ThreeOfAKind),
        Joker::MadJoker | Joker::CleverJoker => hands.contains(PokerHand::TwoPair),
        Joker::CrazyJoker | Joker::DeviousJoker => hands.contains(PokerHand::Straight),
        Joker::DrollJoker | Joker::CraftyJoker => hands.contains(PokerHand::Flush),
        Joker::Blackboard => all_black(held),
        Joker::FlowerPot => missing_suits(scored) <= wild_count(scored),
        _ => true,
    }
}

/// The totals after a once-per-round joker that fires, in a round of
/// `joker_count` jokers.
pub open spec fn joker_total(tally: Tally, joker: Joker, joker_count: nat) -> Tally {
    match joker {
        Joker::Joker => tally.plus_mult(4),
        Joker::JollyJoker => tally.plus_mult(8),
        Joker::ZanyJoker => tally.plus_mult(12),
        Joker::MadJoker => tally.plus_mult(10),
        Joker::CrazyJoker => tally.plus_mult(12),
        Joker::DrollJoker => tally.plus_mult(10),
        Joker::SlyJoker => tally.plus_chips(50),
        Joker::WilyJoker => tally.plus_chips(100),
        Joker::CleverJoker => tally.plus_chips(80),
        Joker::DeviousJoker => tally.plus_chips(100),
        Joker::CraftyJoker => tally.plus_chips(80),
        Joker::AbstractJoker => tally.plus_mult(3 * joker_count),
        Joker::Blackboard => tally.with_mult(tally.mult.times(3)),
        Joker::FlowerPot => tally.with_mult(tally.mult.times(3)),
        _ => tally,
    }
}

/// The totals after a once-per-round joker: its own effect where it fires,
/// then its edition whether it fired or not.
pub open spec fn independent_effect(
    tally: Tally,
    card: JokerCard,
    hands: Seq<PokerHand>,
    held: Seq<Card>,
    scored: Seq<Card>,
    joker_count: nat,
) -> Tally {
    let own = if condition_met(card.joker, hands, held, scored) {
        joker_total(tally, card.joker, joker_count)
    } else {
        tally
    };
    edition_effect(own, card.edition)
}

/// No joker shrinks the totals when it sees a scored card.
pub proof fn lemma_on_scored_grows(tally: Tally, joker: Joker, card: Card)
    ensures
        tally.within(on_scored_effect(tally, joker, card)),
{
    tally.mult.lemma_plus_grows(Dyadic::from_int(3));
    tally.mult.lemma_plus_grows(Dyadic::from_int(4));
    tally.mult.lemma_plus_grows(Dyadic::from_int(5));
    tally.mult.lemma_plus_grows(Dyadic::from_int(8));
    tally.mult.lemma_times_grows(2);
}

/// No joker shrinks the totals when it sees a held card.
pub proof fn lemma_on_held_grows(tally: Tally, joker: Joker, card: Card, is_last: bool)
    ensures
        tally.within(on_held_effect(tally, joker, card, is_last)),
{
    tally.mult.lemma_plus_grows(Dyadic::from_int(2 * card.rank.chip_value()));
    tally.mult.lemma_plus_grows(tally.mult.half());
}

/// No once-per-round joker shrinks the totals.
pub proof fn lemma_joker_total_grows(tally: Tally, joker: Joker, joker_count: nat)
    ensures
        tally.within(joker_total(tally, joker, joker_count)),
{
    tally.mult.lemma_plus_grows(Dyadic::from_int(4));
    tally.mult.lemma_plus_grows(Dyadic::from_int(8));
    tally.mult.lemma_plus_grows(Dyadic::from_int(10));
    tally.mult.lemma_plus_grows(Dyadic::from_int(12));
    tally.mult.lemma_plus_grows(Dyadic::from_int(3 * joker_count));
    tally.mult.lemma_times_grows(3);
}

/// No once-per-round joker shrinks the totals, its edition included.
pub proof fn lemma_independent_grows(
    tally: Tally,
    card: JokerCard,
    hands: Seq<PokerHand>,
    held: Seq<Card>,
    scored: Seq<Card>,
    joker_count: nat,
)
    ensures
        tally.within(independent_effect(tally, card, hands, held, scored, joker_count)),
{
    lemma_joker_total_grows(tally, card.joker, joker_count);
    let own = if condition_met(card.joker, hands, held, scored) {
        joker_total(tally, card.joker, joker_count)
    } else {
        tally
    };
    lemma_edition_grows(own, card.edition);
}

/// Whether `hand` is one of `hands`.
pub fn contains_hand(hands: &Vec<PokerHand>, hand: PokerHand) -> (found: bool)
    ensures
        found == hands@.contains(hand),
{
    let mut i: usize = 0;
    while i < hands.len()
        invariant
            i <= hands.len(),
            forall|j: int| 0 <= j < i ==> hands@[j] != hand,
        decreases hands.len() - i,
    {
        if hands[i] == hand {
            return true;
        }
        i += 1;
    }
    false
}

/// Whether the scored cards have a wild card for each suit that none of them
/// shows.
fn covers_all_suits(scored: &Vec<Card>) -> (b: bool)
    ensures
        b == (missing_suits(scored@) <= wild_count(scored@)),
{
    let mut spades: bool = false;
    let mut hearts: bool = false;
    let mut clubs: bool = false;
    let mut diamonds: bool = false;
    let mut wilds: usize = 0;
    let mut i: usize = 0;
    proof {
        assert(scored@.take(0) =~= Seq::<Card>::empty());
        reveal(Seq::filter);
    }
    while i < scored.len()
        invariant
            i <= scored.len(),
            wilds <= i,
            wilds == wild_count(scored@.take(i as int)),
            spades == suit_shown(scored@.take(i as int), Suit::Spades),
            hearts == suit_shown(scored@.take(i as int), Suit::Hearts),
            clubs == suit_shown(scored@.take(i as int), Suit::Clubs),
            diamonds == suit_shown(scored@.take(i as int), Suit::Diamonds),
        decreases scored.len() - i,
    {
        let card = scored[i];
        proof {
            let before = scored@.take(i as int);
            let after = scored@.take(i + 1);
            assert(after =~= before.push(card));
            before.lemma_filter_push(card, is_wild_card());
            assert forall|suit: Suit|
                suit_shown(after, suit) == (suit_shown(before, suit) || (!card.wild() && card.suit
                    == suit)) by {
                if suit_shown(before, suit) {
                    let k = choose|k: int|
                        0 <= k < before.len() && !(#[trigger] before[k]).wild() && before[k].suit
                            == suit;
                    assert(after[k] == before[k]);
                }
                if !card.wild() && card.suit == suit {
                    assert(after[i as int] == card);
                }
                if suit_shown(after, suit) {
                    let k = choose|k: int|
                        0 <= k < after.len() && !(#[trigger] after[k]).wild() && after[k].suit
                            == suit;
                    if k < i {
                        assert(before[k] == after[k]);
                    }
                }
            }
        }
        if card.is_wild() {
            wilds += 1;
        } else {
            match card.suit {
                Suit::Spades => {
                    spades = true;
                },
                Suit::Hearts => {
                    hearts = true;
                },
                Suit::Clubs => {
                    clubs = true;
                },
                Suit::Diamonds => {
                    diamonds = true;
                },
            }
        }
        i += 1;
    }
    proof {
        assert(scored@.take(i as int) =~= scored@);
    }
    let mut missing: usize = 0;
    if !spades {
        missing += 1;
    }
    if !hearts {
        missing += 1;
    }
    if !clubs {
        missing += 1;
    }
    if !diamonds {
        missing += 1;
    }
    missing <= wilds
}

pub trait JokerUtils {
    /// The chips and the multiplier that the totals of `s` become when this
    /// once-per-round joker fires.
    fn joker_value(&self, s: &Score) -> Result<(Chips, Mult), ScoreError>;

    /// Whether this once-per-round joker fires in the round of `s`.
    fn meet_condition(&self, s: &mut Score) -> bool;

    fn is_on_scored(&self) -> bool;

    fn is_on_held(&self) -> bool;

    fn is_dependent(&self) -> bool;

    /// Applies this once-per-round joker and its edition to the totals of `s`.
    fn apply_independent(&self, s: &mut Score) -> Result<(), ScoreError>;

    /// Shows this joker one scored card.
    fn apply_on_scored(&self, s: &mut Score, card: &Card) -> Result<(), ScoreError>;

    /// Shows this joker one held card; `is_last` says whether it is the last
    /// of the held cards.
    fn apply_on_held(&self, s: &mut Score, card: &Card, is_last: bool) -> Result<(), ScoreError>;
}

impl JokerUtils for JokerCard {
    fn is_on_held(&self) -> (b: bool)
        ensures
            b == on_held(self.joker),
    {
        match self.joker {
            Joker::RaisedFist | Joker::Baron => true,
            _ => false,
        }
    }

    fn is_dependent(&self) -> (b: bool)
        ensures
            b == independent(self.joker),
    {
        match self.joker {
            Joker::Joker
            | Joker::JollyJoker
            | Joker::ZanyJoker
            | Joker::MadJoker
            | Joker::CrazyJoker
            | Joker::DrollJoker
            | Joker::SlyJoker
            | Joker::WilyJoker
            | Joker::CleverJoker
            | Joker::DeviousJoker
            | Joker::CraftyJoker
            | Joker::AbstractJoker
            | Joker::Blackboard
            | Joker::FlowerPot => true,
            _ => false,
        }
    }

    fn is_on_scored(&self) -> (b: bool)
        ensures
            b == on_scored(self.joker),
    {
        match self.joker {
            Joker::GreedyJoker
            | Joker::LustyJoker
            | Joker::WrathfulJoker
            | Joker::GluttonousJoker
            | Joker::Fibonacci
            | Joker::ScaryFace
            | Joker::EvenSteven
            | Joker::OddTodd
            | Joker::Photograph
            | Joker::SmileyFace => true,
            _ => false,
        }
    }

    fn apply_independent(&self, s: &mut Score) -> (r: Result<(), ScoreError>)
        ensures
            !independent(self.joker) ==> r == Err::<(), ScoreError>(
                ScoreError::UnsupportedJoker(self.joker),
            ),
            independent(self.joker) && r.is_err() ==> r == Err::<(), ScoreError>(
                ScoreError::Overflow,
            ) && !independent_effect(
                old(s).tally(),
                *self,
                old(s).poker_hands@,
                old(s).cards_held_in_hand@,
                old(s).scored_cards@,
                old(s).jokers@.len(),
            ).fits(),
            r.is_ok() ==> final(s).tally() == independent_effect(
                old(s).tally(),
                *self,
                old(s).poker_hands@,
                old(s).cards_held_in_hand@,
                old(s).scored_cards@,
                old(s).jokers@.len(),
            ) && final(s).same_round(old(s)),
            r.is_err() ==> *final(s) == *old(s),
    {
        if !self.is_dependent() {
            return Err(ScoreError::UnsupportedJoker(self.joker));
        }
        let chips_before = s.chips;
        let mult_before = s.mult;
        let ghost before = *s;
        if self.meet_condition(s) {
            match self.joker_value(s) {
                Ok((chips, mult)) => {
                    s.set_totals(chips, mult);
                },
                Err(e) => {
                    proof {
                        lemma_edition_grows(
                            joker_total(before.tally(), self.joker, before.jokers@.len()),
                            self.edition,
                        );
                    }
                    return Err(e);
                },
            }
        }
        match self.edition.apply(s) {
            Ok(()) => Ok(()),
            Err(e) => {
                s.set_totals(chips_before, mult_before);
                Err(e)
            },
        }
    }

    fn apply_on_scored(&self, s: &mut Score, card: &Card) -> (r: Result<(), ScoreError>)
        ensures
            !on_scored(self.joker) ==> r == Err::<(), ScoreError>(
                ScoreError::UnsupportedJoker(self.joker),
            ),
            on_scored(self.joker) && r.is_err() ==> r == Err::<(), ScoreError>(
                ScoreError::Overflow,
            ) && !on_scored_effect(old(s).tally(), self.joker, *card).fits(),
            r.is_ok() ==> final(s).tally() == on_scored_effect(old(s).tally(), self.joker, *card)
                && final(s).same_round(old(s)),
            r.is_err() ==> *final(s) == *old(s),
    {
        match self.joker {
            Joker::GreedyJoker => {
                if card.suit == Suit::Diamonds || card.is_wild() {
                    s.add_mult(3)
                } else {
                    Ok(())
                }
            },
            Joker::LustyJoker => {
                if card.suit == Suit::Hearts || card.is_wild() {
                    s.add_mult(3)
                } else {
                    Ok(())
                }
            },
            Joker::WrathfulJoker => {
                if card.suit == Suit::Spades || card.is_wild() {
                    s.add_mult(3)
                } else {
                    Ok(())
                }
            },
            Joker::GluttonousJoker => {
                if card.suit == Suit::Clubs || card.is_wild() {
                    s.add_mult(3)
                } else {
                    Ok(())
                }
            },
            Joker::Fibonacci => {
                match card.rank {
                    Rank::Ace | Rank::Two | Rank::Three | Rank::Five | Rank::Eight => s.add_mult(
                        8,
                    ),
                    _ => Ok(()),
                }
            },
            Joker::ScaryFace => {
                if card.rank.is_face() {
                    s.add_chips(30)
                } else {
                    Ok(())
                }
            },
            Joker::EvenSteven => {
                match card.rank {
                    Rank::Two | Rank::Four | Rank::Six | Rank::Eight | Rank::Ten => s.add_mult(4),
                    _ => Ok(()),
                }
            },
            Joker::OddTodd => {
                match card.rank {
                    Rank::Ace | Rank::Three | Rank::Five | Rank::Seven | Rank::Nine => s.add_chips(
                        31,
                    ),
                    _ => Ok(()),
                }
            },
            Joker::Photograph => {
                if card.rank.is_face() && !s.photograph_triggered {
                    match s.mult.checked_times(2) {
                        Some(mult) => {
                            s.mult = mult;
                            s.photograph_triggered = true;
                            Ok(())
                        },
                        None => Err(ScoreError::Overflow),
                    }
                } else {
                    Ok(())
                }
            },
            Joker::SmileyFace => {
                if card.rank.is_face() {
                    s.add_mult(5)
                } else {
                    Ok(())
                }
            },
            _ => Err(ScoreError::UnsupportedJoker(self.joker)),
        }
    }

    fn apply_on_held(&self, s: &mut Score, card: &Card, is_last: bool) -> (r: Result<
        (),
        ScoreError,
    >)
        ensures
            !on_held(self.joker) ==> r == Err::<(), ScoreError>(
                ScoreError::UnsupportedJoker(self.joker),
            ),
            on_held(self.joker) && r.is_err() ==> r == Err::<(), ScoreError>(ScoreError::Overflow)
                && !on_held_effect(old(s).tally(), self.joker, *card, is_last).fits(),
            r.is_ok() ==> final(s).tally() == on_held_effect(
                old(s).tally(),
                self.joker,
                *card,
                is_last,
            ) && final(s).same_round(old(s)),
            r.is_err() ==> *final(s) == *old(s),
    {
        match self.joker {
            Joker::RaisedFist => {
                if !s.raised_first_triggered && is_last {
                    match s.mult.checked_plus(Mult::from_int(2 * card.rank.rank_value())) {
                        Some(mult) => {
                            s.mult = mult;
                            s.raised_first_triggered = true;
                            Ok(())
                        },
                        None => Err(ScoreError::Overflow),
                    }
                } else {
                    Ok(())
                }
            },
            Joker::Baron => {
                if card.rank == Rank::King {
                    match s.mult.checked_times_three_halves() {
                        Some(mult) => {
                            s.mult = mult;
                            Ok(())
                        },
                        None => Err(ScoreError::Overflow),
                    }
                } else {
                    Ok(())
                }
            },
            _ => Err(ScoreError::UnsupportedJoker(self.joker)),
        }
    }

    fn meet_condition(&self, s: &mut Score) -> (b: bool)
        ensures
            b == condition_met(
                self.joker,
                old(s).poker_hands@,
                old(s).cards_held_in_hand@,
                old(s).scored_cards@,
            ),
            *final(s) == *old(s),
    {
        match self.joker {
            Joker::JollyJoker | Joker::SlyJoker => contains_hand(&s.poker_hands, PokerHand::Pair),
            Joker::ZanyJoker | Joker::WilyJoker => contains_hand(
                &s.poker_hands,
                PokerHand::ThreeOfAKind,
            ),
            Joker::MadJoker | Joker::CleverJoker => contains_hand(
                &s.poker_hands,
                PokerHand::TwoPair,
            ),
            Joker::CrazyJoker | Joker::DeviousJoker => contains_hand(
                &s.poker_hands,
                PokerHand::Straight,
            ),
            Joker::DrollJoker | Joker::CraftyJoker => contains_hand(
                &s.poker_hands,
                PokerHand::Flush,
            ),
            Joker::Blackboard => {
                let black = vec![Suit::Clubs, Suit::Spades];
                proof {
                    let held = s.cards_held_in_hand@;
                    lemma_filter_all(held, suit_among(black@));
                    assert forall|card: Card|
                        suit_among(black@)(card) == (suits_as(card, Suit::Clubs) || suits_as(
                            card,
                            Suit::Spades,
                        )) by {
                        if card.suit == Suit::Clubs {
                            assert(black@[0] == Suit::Clubs);
                        }
                        if card.suit == Suit::Spades {
                            assert(black@[1] == Suit::Spades);
                        }
                    }
                }
                let n = num_of_poker_by_suits(&s.cards_held_in_hand, black);
                s.cards_held_in_hand.len() == 0 || s.cards_held_in_hand.len() == n
            },
            Joker::FlowerPot => covers_all_suits(&s.scored_cards),
            _ => true,
        }
    }

    fn joker_value(&self, s: &Score) -> (r: Result<(Chips, Mult), ScoreError>)
        ensures
            !independent(self.joker) ==> r == Err::<(Chips, Mult), ScoreError>(
                ScoreError::UnsupportedJoker(self.joker),
            ),
            independent(self.joker) && r.is_err() ==> r == Err::<(Chips, Mult), ScoreError>(
                ScoreError::Overflow,
            ) && !joker_total(s.tally(), self.joker, s.jokers@.len()).fits(),
            r.is_ok() ==> r.unwrap().0 == joker_total(s.tally(), self.joker, s.jokers@.len()).chips
                && r.unwrap().1@ == joker_total(s.tally(), self.joker, s.jokers@.len()).mult,
    {
        match self.joker {
            Joker::Joker => with_more_mult(s, 4),
            Joker::JollyJoker => with_more_mult(s, 8),
            Joker::ZanyJoker => with_more_mult(s, 12),
            Joker::MadJoker => with_more_mult(s, 10),
            Joker::CrazyJoker => with_more_mult(s, 12),
            Joker::DrollJoker => with_more_mult(s, 10),
            Joker::SlyJoker => with_more_chips(s, 50),
            Joker::WilyJoker => with_more_chips(s, 100),
            Joker::CleverJoker => with_more_chips(s, 80),
            Joker::DeviousJoker => with_more_chips(s, 100),
            Joker::CraftyJoker => with_more_chips(s, 80),
            Joker::AbstractJoker => {
                let n: u64 = s.jokers.len() as u64;
                match n.checked_mul(3) {
                    Some(bonus) => with_more_mult(s, bonus),
                    None => {
                        proof {
                            s.mult@.lemma_plus_grows(Dyadic::from_int(3 * s.jokers@.len()));
                        }
                        Err(ScoreError::Overflow)
                    },
                }
            },
            Joker::Blackboard | Joker::FlowerPot => match s.mult.checked_times(3) {
                Some(mult) => Ok((s.chips, mult)),
                None => Err(ScoreError::Overflow),
            },
            _ => Err(ScoreError::UnsupportedJoker(self.joker)),
        }
    }
}

/// The totals of `s` with a whole amount of multiplier added.
fn with_more_mult(s: &Score, mult: u64) -> (r: Result<(Chips, Mult), ScoreError>)
    ensures
        match r {
            Ok(totals) => totals.0 == s.chips && totals.1@ == s.tally().plus_mult(mult as nat).mult,
            Err(e) => e == ScoreError::Overflow && !s.tally().plus_mult(mult as nat).fits(),
        },
{
    match s.mult.checked_plus(Mult::from_int(mult)) {
        Some(total) => Ok((s.chips, total)),
        None => Err(ScoreError::Overflow),
    }
}

/// The totals of `s` with chips added.
fn with_more_chips(s: &Score, chips: u64) -> (r: Result<(Chips, Mult), ScoreError>)
    ensures
        match r {
            Ok(totals) => totals.0 == s.tally().plus_chips(chips as nat).chips && totals.1 == s.mult,
            Err(e) => e == ScoreError::Overflow && !s.tally().plus_chips(chips as nat).fits(),
        },
{
    match s.chips.checked_add(chips) {
        Some(total) => Ok((total, s.mult)),
        None => Err(ScoreError::Overflow),
    }
}

} // verus!
