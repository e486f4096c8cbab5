//! Value tables for ranks, editions and enhancements, and the choice of the
//! cards that score.

use std::collections::HashMap;

use vstd::prelude::*;
use vstd::std_specs::hash::group_hash_axioms;

use crate::error::ScoreError;
use crate::mult::{Chips, Dyadic, Mult};
use crate::types::{Card, Edition, Enhancement, PokerHand, Rank, Round};
use crate::utils::{
    cards_of_rank,
    count_at,
    count_poker_by_rank,
    counts_match,
    group_poker_by_rank,
    groups_match,
    lemma_rank_at_straight,
    lemma_straight_at,
    max_num_of_rank,
    max_rank_count,
    rank_count,
};

verus! {

pub trait StraghtValueGetter {
    /// The position in a straight, from 2 up to 14.
    fn straight_value(&self) -> (v: u8)
        ensures
            2 <= v <= 14,
    ;
}

impl StraghtValueGetter for Rank {
    fn straight_value(&self) -> (v: u8)
        ensures
            v == self.straight(),
    {
        match *self {
            Rank::Two => 2,
            Rank::Three => 3,
            Rank::Four => 4,
            Rank::Five => 5,
            Rank::Six => 6,
            Rank::Seven => 7,
            Rank::Eight => 8,
            Rank::Nine => 9,
            Rank::Ten => 10,
            Rank::Jack => 11,
            Rank::Queen => 12,
            Rank::King => 13,
            Rank::Ace => 14,
        }
    }
}

/// What an edition adds: chips, and an amount of multiplier that for the
/// polychrome edition is half of the multiplier at that moment.
pub open spec fn edition_delta(edition: Edition, mult: Dyadic) -> (nat, Dyadic) {
    match edition {
        Edition::Foil => (50, Dyadic::zero()),
        Edition::Holographic => (0, Dyadic::from_int(10)),
        Edition::Polychrome => (0, mult.half()),
    }
}

/// What an enhancement adds, on a scored card or on a held one. Glass adds
/// the multiplier at that moment once more, steel adds half of it.
pub open spec fn enhancement_delta(enhancement: Enhancement, mult: Dyadic, held: bool) -> (
    nat,
    Dyadic,
) {
    if !held {
        match enhancement {
            Enhancement::Bonus => (30, Dyadic::zero()),
            Enhancement::Glass => (0, mult),
            Enhancement::Mult => (0, Dyadic::from_int(4)),
            _ => (0, Dyadic::zero()),
        }
    } else {
        match enhancement {
            Enhancement::Steel => (0, mult.half()),
            _ => (0, Dyadic::zero()),
        }
    }
}

pub trait EditionValueGetter {
    /// The chips and the multiplier that the edition adds to a running
    /// multiplier of `mult`.
    fn eidtion_value(&self, mult: Mult) -> Result<(Chips, Mult), ScoreError>;
}

impl EditionValueGetter for Edition {
    fn eidtion_value(&self, mult: Mult) -> (r: Result<(Chips, Mult), ScoreError>)
        ensures
            r.is_ok() <==> edition_delta(*self, mult@).1.fits(),
            r.is_ok() ==> r.unwrap().0 == edition_delta(*self, mult@).0 && r.unwrap().1@
                == edition_delta(*self, mult@).1,
            r.is_err() ==> r == Err::<(Chips, Mult), ScoreError>(ScoreError::Overflow),
    {
        match *self {
            Edition::Foil => Ok((50, Mult::zero())),
            Edition::Holographic => Ok((0, Mult::from_int(10))),
            Edition::Polychrome => match mult.checked_half() {
                Some(half) => Ok((0, half)),
                None => Err(ScoreError::Overflow),
            },
        }
    }
}

pub trait EnhancementValueGetter {
    /// The chips and the multiplier that the enhancement adds to a running
    /// multiplier of `mult`, on a held card or on a scored one.
    fn enhancement_value(&self, mult: Mult, is_held_in_hand: bool) -> Result<
        (Chips, Mult),
        ScoreError,
    >;
}

impl EnhancementValueGetter for Enhancement {
    fn enhancement_value(&self, mult: Mult, is_held_in_hand: bool) -> (r: Result<
        (Chips, Mult),
        ScoreError,
    >)
        ensures
            r.is_ok() <==> enhancement_delta(*self, mult@, is_held_in_hand).1.fits(),
            r.is_ok() ==> r.unwrap().0 == enhancement_delta(*self, mult@, is_held_in_hand).0
                && r.unwrap().1@ == enhancement_delta(*self, mult@, is_held_in_hand).1,
            r.is_err() ==> r == Err::<(Chips, Mult), ScoreError>(ScoreError::Overflow),
    {
        if !is_held_in_hand {
            match *self {
                Enhancement::Bonus => Ok((30, Mult::zero())),
                Enhancement::Glass => Ok((0, mult)),
                Enhancement::Mult => Ok((0, Mult::from_int(4))),
                _ => Ok((0, Mult::zero())),
            }
        } else {
            match *self {
                Enhancement::Steel => match mult.checked_half() {
                    Some(half) => Ok((0, half)),
                    None => Err(ScoreError::Overflow),
                },
                _ => Ok((0, Mult::zero())),
            }
        }
    }
}

/// Whether a group of `n` cards has the asked size: exactly `least`, or at
/// least `least`.
pub open spec fn size_asked(n: nat, least: nat, exact: bool) -> bool {
    if exact {
        n == least
    } else {
        n >= least
    }
}

/// The highest rank with a straight value under `below` whose group has the
/// asked size.
pub open spec fn top_rank(cards: Seq<Card>, least: nat, exact: bool, below: int) -> Option<Rank>
    decreases below,
{
    if below <= 2 {
        None
    } else if size_asked(rank_count(cards, Rank::at(below - 1)), least, exact) {
        Some(Rank::at(below - 1))
    } else {
        top_rank(cards, least, exact, below - 1)
    }
}

/// The cards that score for a hand of the given category.
///
/// Four of a kind: the highest rank of exactly four cards, all four. Three
/// of a kind: the largest group, the highest rank among equals, all of it.
/// Two pair: the first two cards of each of the two highest ranks that occur
/// twice, higher rank first. Pair: the first two cards of the highest such
/// rank. High card: the last played card of the highest rank. Where no rank
/// qualifies, nothing scores. For every other category all cards score, in
/// the order played.
pub open spec fn scored_cards(cards: Seq<Card>, hand: PokerHand) -> Seq<Card> {
    match hand {
        PokerHand::FourOfAKind => match top_rank(cards, 4, true, 15) {
            Some(rank) => cards_of_rank(cards, rank),
            None => Seq::empty(),
        },
        PokerHand::ThreeOfAKind => if max_rank_count(cards) >= 3 {
            match top_rank(cards, max_rank_count(cards), true, 15) {
                Some(rank) => cards_of_rank(cards, rank),
                None => Seq::empty(),
            }
        } else {
            Seq::empty()
        },
        PokerHand::TwoPair => match top_rank(cards, 2, false, 15) {
            Some(high) => match top_rank(cards, 2, false, high.straight()) {
                Some(low) => cards_of_rank(cards, high).take(2) + cards_of_rank(cards, low).take(
                    2,
                ),
                None => Seq::empty(),
            },
            None => Seq::empty(),
        },
        PokerHand::Pair => match top_rank(cards, 2, false, 15) {
            Some(rank) => cards_of_rank(cards, rank).take(2),
            None => Seq::empty(),
        },
        PokerHand::HighCard => match top_rank(cards, 1, false, 15) {
            Some(rank) => seq![cards_of_rank(cards, rank).last()],
            None => Seq::empty(),
        },
        _ => cards,
    }
}

/// What `top_rank` finds: a rank under the bound whose group has the asked
/// size, above every other such rank; and nothing only where there is none.
pub proof fn lemma_top_rank(cards: Seq<Card>, least: nat, exact: bool, below: int)
    requires
        below <= 15,
    ensures
        match top_rank(cards, least, exact, below) {
            Some(top) => {
                &&& top.straight() < below
                &&& size_asked(rank_count(cards, top), least, exact)
                &&& forall|rank: Rank|
                    rank.straight() < below && size_asked(
                        #[trigger] rank_count(cards, rank),
                        least,
                        exact,
                    ) ==> rank.straight() <= top.straight()
            },
            None => forall|rank: Rank|
                rank.straight() < below ==> !size_asked(
                    #[trigger] rank_count(cards, rank),
                    least,
                    exact,
                ),
        },
    decreases below,
{
    if below > 2 {
        lemma_top_rank(cards, least, exact, below - 1);
        lemma_straight_at(below - 1);
        assert forall|rank: Rank| rank.straight() == below - 1 implies rank == Rank::at(
            below - 1,
        ) by {
            lemma_rank_at_straight(rank);
        }
    } else {
        assert forall|rank: Rank| !(rank.straight() < below) by {
            lemma_rank_at_straight(rank);
        }
    }
}

/// The highest rank under `below` whose count has the asked size.
fn find_top_rank(
    counts: &HashMap<u8, usize>,
    least: usize,
    exact: bool,
    below: u8,
    Ghost(cards): Ghost<Seq<Card>>,
) -> (top: Option<Rank>)
    requires
        counts_match(counts@, cards),
        below <= 15,
    ensures
        top == top_rank(cards, least as nat, exact, below as int),
{
    let mut v: u8 = below;
    while v > 2
        invariant
            v <= below <= 15,
            counts_match(counts@, cards),
            top_rank(cards, least as nat, exact, below as int) == top_rank(
                cards,
                least as nat,
                exact,
                v as int,
            ),
        decreases v,
    {
        let n = count_at(counts, v - 1, Ghost(cards));
        if (exact && n == least) || (!exact && n >= least) {
            return Rank::from_straight_value(v - 1);
        }
        v -= 1;
    }
    None
}

/// The first `n` cards of a group.
fn first_cards(group: &Vec<Card>, n: usize) -> (cards: Vec<Card>)
    requires
        n <= group.len(),
    ensures
        cards@ == group@.take(n as int),
{
    let mut cards: Vec<Card> = Vec::new();
    let mut i: usize = 0;
    while i < n
        invariant
            i <= n <= group.len(),
            cards@ == group@.take(i as int),
        decreases n - i,
    {
        cards.push(group[i]);
        proof {
            assert(group@.take(i + 1) =~= group@.take(i as int).push(group@[i as int]));
        }
        i += 1;
    }
    cards
}

/// The cards of a rank that occurs, as grouped.
fn group_of<'a>(
    groups: &'a HashMap<u8, Vec<Card>>,
    rank: Rank,
    Ghost(cards): Ghost<Seq<Card>>,
) -> (group: &'a Vec<Card>)
    requires
        groups_match(groups@, cards),
        rank_count(cards, rank) > 0,
    ensures
        group@ == cards_of_rank(cards, rank),
{
    broadcast use group_hash_axioms;

    proof {
        lemma_rank_at_straight(rank);
    }
    let key = rank.straight_value();
    match groups.get(&key) {
        Some(group) => group,
        None => {
            proof {
                assert(groups@.contains_key(key));
            }
            unreached()
        },
    }
}

pub trait ScoredCardGetter {
    /// The played cards that score for a hand of the given category.
    fn get_scored_cards(&self, poker_hand: PokerHand) -> Vec<Card>;
}

impl ScoredCardGetter for Round {
    fn get_scored_cards(&self, poker_hand: PokerHand) -> (scored: Vec<Card>)
        ensures
            scored@ == scored_cards(self.cards_played@, poker_hand),
    {
        let ghost cards = self.cards_played@;
        let counts = count_poker_by_rank(&self.cards_played);
        let groups = group_poker_by_rank(&self.cards_played);
        proof {
            lemma_top_rank(cards, 4, true, 15);
            lemma_top_rank(cards, max_rank_count(cards), true, 15);
            lemma_top_rank(cards, 2, false, 15);
            lemma_top_rank(cards, 1, false, 15);
        }
        match poker_hand {
            PokerHand::FourOfAKind => {
                match find_top_rank(&counts, 4, true, 15, Ghost(cards)) {
                    Some(rank) => {
                        let group = group_of(&groups, rank, Ghost(cards));
                        let all = first_cards(group, group.len());
                        assert(group@.take(group@.len() as int) =~= group@);
                        all
                    },
                    None => Vec::new(),
                }
            },
            PokerHand::ThreeOfAKind => {
                let largest = max_num_of_rank(&self.cards_played);
                if largest < 3 {
                    return Vec::new();
                }
                match find_top_rank(&counts, largest, true, 15, Ghost(cards)) {
                    Some(rank) => {
                        let group = group_of(&groups, rank, Ghost(cards));
                        let all = first_cards(group, group.len());
                        assert(group@.take(group@.len() as int) =~= group@);
                        all
                    },
                    None => Vec::new(),
                }
            },
            PokerHand::TwoPair => {
                match find_top_rank(&counts, 2, false, 15, Ghost(cards)) {
                    Some(high) => {
                        match find_top_rank(
                            &counts,
                            2,
                            false,
                            high.straight_value(),
                            Ghost(cards),
                        ) {
                            Some(low) => {
                                proof {
                                    lemma_top_rank(cards, 2, false, high.straight());
                                }
                                let mut pairs = first_cards(
                                    group_of(&groups, high, Ghost(cards)),
                                    2,
                                );
                                let second = first_cards(group_of(&groups, low, Ghost(cards)), 2);
                                pairs.push(second[0]);
                                pairs.push(second[1]);
                                assert(pairs@ =~= cards_of_rank(cards, high).take(2)
                                    + cards_of_rank(cards, low).take(2));
                                pairs
                            },
                            None => Vec::new(),
                        }
                    },
                    None => Vec::new(),
                }
            },
            PokerHand::Pair => {
                match find_top_rank(&counts, 2, false, 15, Ghost(cards)) {
                    Some(rank) => first_cards(group_of(&groups, rank, Ghost(cards)), 2),
                    None => Vec::new(),
                }
            },
            PokerHand::HighCard => {
                match find_top_rank(&counts, 1, false, 15, Ghost(cards)) {
                    Some(rank) => {
                        let group = group_of(&groups, rank, Ghost(cards));
                        let mut highest: Vec<Card> = Vec::new();
                        highest.push(group[group.len() - 1]);
                        assert(highest@ =~= seq![cards_of_rank(cards, rank).last()]);
                        highest
                    },
                    None => Vec::new(),
                }
            },
            _ => {
                let all = first_cards(&self.cards_played, self.cards_played.len());
                assert(cards.take(cards.len() as int) =~= cards);
                all
            },
        }
    }
}

} // verus!
