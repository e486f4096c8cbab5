//! Classification of the played cards against the twelve hand categories.

use vstd::prelude::*;

use crate::card::CardUtils;
use crate::error::ScoreError;
use crate::mult::{Chips, Dyadic, Mult};
use crate::types::{Card, PokerHand, Rank, Round, Suit};
use crate::utils::{
    count_at,
    count_poker_by_rank,
    counts_match,
    lemma_count_all,
    lemma_count_between_none,
    lemma_count_between_single,
    lemma_count_between_split,
    lemma_rank_at_straight,
    lemma_rank_count_at,
    lemma_straight_at,
    max_num_of_rank,
    max_rank_count,
    rank_count,
};

verus! {

/// Whether the cards that are not wild are all of one suit. Cards that are
/// all wild are.
pub open spec fn same_suit(cards: Seq<Card>) -> bool {
    forall|i: int, j: int|
        0 <= i < cards.len() && 0 <= j < cards.len() && !cards[i].wild() && !cards[j].wild()
            ==> cards[i].suit == cards[j].suit
}

/// At least five cards, each of them wild or of the suit of the first.
pub open spec fn flush_holds(cards: Seq<Card>) -> bool {
    &&& cards.len() >= 5
    &&& forall|i: int| 0 <= i < cards.len() ==> cards[i].wild() || cards[i].suit == cards[0].suit
}

/// Whether the cards fill the positions of the straight order from `low`
/// on, one card to each position and as many positions as there are cards.
pub open spec fn run_from(cards: Seq<Card>, low: int) -> bool {
    &&& 2 <= low
    &&& low + cards.len() <= 15
    &&& forall|v: int| low <= v < low + cards.len() ==> rank_count(cards, Rank::at(v)) == 1
}

/// Whether the cards, put in the order of their straight values, rise by
/// exactly one from each to the next.
pub open spec fn run_holds(cards: Seq<Card>) -> bool {
    exists|low: int| run_from(cards, low)
}

/// No rank occurs twice, and the ranks that occur span fewer positions of
/// the straight order than there are cards.
pub open spec fn close_and_single(cards: Seq<Card>) -> bool {
    &&& forall|rank: Rank| #[trigger] rank_count(cards, rank) <= 1
    &&& forall|low: Rank, high: Rank|
        rank_count(cards, low) >= 1 && rank_count(cards, high) >= 1 ==> high.straight()
            - low.straight() < cards.len()
}

/// Ace, two, three, four and five all occur.
pub open spec fn wheel_holds(cards: Seq<Card>) -> bool {
    &&& rank_count(cards, Rank::Ace) >= 1
    &&& rank_count(cards, Rank::Two) >= 1
    &&& rank_count(cards, Rank::Three) >= 1
    &&& rank_count(cards, Rank::Four) >= 1
    &&& rank_count(cards, Rank::Five) >= 1
}

/// At least five cards that form a run, or that hold the ace-low wheel.
pub open spec fn straight_holds(cards: Seq<Card>) -> bool {
    cards.len() >= 5 && (run_holds(cards) || wheel_holds(cards))
}

/// Some rank occurs at least twice.
pub open spec fn pair_holds(cards: Seq<Card>) -> bool {
    exists|rank: Rank| #[trigger] rank_count(cards, rank) >= 2
}

/// Two different ranks occur at least twice each.
pub open spec fn two_pair_holds(cards: Seq<Card>) -> bool {
    exists|a: Rank, b: Rank|
        a != b && #[trigger] rank_count(cards, a) >= 2 && #[trigger] rank_count(cards, b) >= 2
}

/// Three of a kind together with two pair.
pub open spec fn full_house_holds(cards: Seq<Card>) -> bool {
    max_rank_count(cards) >= 3 && two_pair_holds(cards)
}

/// Whether the cards satisfy the category. A hand may satisfy several.
pub open spec fn holds(hand: PokerHand, cards: Seq<Card>) -> bool {
    match hand {
        PokerHand::FlushFive => max_rank_count(cards) == 5 && same_suit(cards),
        PokerHand::FlushHouse => full_house_holds(cards) && same_suit(cards),
        PokerHand::FiveOfAKind => max_rank_count(cards) == 5,
        PokerHand::StraightFlush => flush_holds(cards) && straight_holds(cards),
        PokerHand::FourOfAKind => max_rank_count(cards) >= 4,
        PokerHand::FullHouse => full_house_holds(cards),
        PokerHand::Flush => flush_holds(cards),
        PokerHand::Straight => straight_holds(cards),
        PokerHand::ThreeOfAKind => max_rank_count(cards) >= 3,
        PokerHand::TwoPair => two_pair_holds(cards),
        PokerHand::Pair => pair_holds(cards),
        PokerHand::HighCard => max_rank_count(cards) == 1,
    }
}

/// The category at a place of the strength order. Places outside 0..=11 are
/// read as the flush five.
pub open spec fn hand_at(strength: int) -> PokerHand {
    if strength == 0 {
        PokerHand::HighCard
    } else if strength == 1 {
        PokerHand::Pair
    } else if strength == 2 {
        PokerHand::TwoPair
    } else if strength == 3 {
        PokerHand::ThreeOfAKind
    } else if strength == 4 {
        PokerHand::Straight
    } else if strength == 5 {
        PokerHand::Flush
    } else if strength == 6 {
        PokerHand::FullHouse
    } else if strength == 7 {
        PokerHand::FourOfAKind
    } else if strength == 8 {
        PokerHand::StraightFlush
    } else if strength == 9 {
        PokerHand::FiveOfAKind
    } else if strength == 10 {
        PokerHand::FlushHouse
    } else {
        PokerHand::FlushFive
    }
}

/// The twelve categories, strongest first.
pub open spec fn hand_ladder() -> Seq<PokerHand> {
    Seq::new(12, |i: int| hand_at(11 - i))
}

/// The categories weaker than place `below` that the cards satisfy,
/// strongest first.
pub open spec fn classify_below(cards: Seq<Card>, below: int) -> Seq<PokerHand>
    decreases below,
{
    if below <= 0 {
        Seq::empty()
    } else {
        let hand = hand_at(below - 1);
        let weaker = classify_below(cards, below - 1);
        if holds(hand, cards) {
            seq![hand] + weaker
        } else {
            weaker
        }
    }
}

/// Every category that the cards satisfy, strongest first.
pub open spec fn classify(cards: Seq<Card>) -> Seq<PokerHand> {
    classify_below(cards, 12)
}

/// The first of the categories, or the high card where there is none.
pub open spec fn best_of(hands: Seq<PokerHand>) -> PokerHand {
    if hands.len() > 0 {
        hands[0]
    } else {
        PokerHand::HighCard
    }
}

/// The strongest category that the cards satisfy.
pub open spec fn best_hand(cards: Seq<Card>) -> PokerHand {
    best_of(classify(cards))
}

/// `hand_at` undoes `strength`.
pub proof fn lemma_hand_at_strength(hand: PokerHand)
    ensures
        0 <= hand.strength() <= 11,
        hand_at(hand.strength()) == hand,
{
}

/// What `classify_below` holds: exactly the satisfied categories below the
/// bound, each once, in falling strength.
pub proof fn lemma_classify_below(cards: Seq<Card>, below: int)
    requires
        0 <= below <= 12,
    ensures
        forall|i: int|
            0 <= i < classify_below(cards, below).len() ==> holds(
                #[trigger] classify_below(cards, below)[i],
                cards,
            ) && classify_below(cards, below)[i].strength() < below,
        forall|i: int, j: int|
            0 <= i < j < classify_below(cards, below).len() ==> classify_below(
                cards,
                below,
            )[i].strength() > classify_below(cards, below)[j].strength(),
        forall|hand: PokerHand|
            holds(hand, cards) && hand.strength() < below ==> classify_below(
                cards,
                below,
            ).contains(hand),
    decreases below,
{
    if below > 0 {
        lemma_classify_below(cards, below - 1);
        let hand = hand_at(below - 1);
        let weaker = classify_below(cards, below - 1);
        let all = classify_below(cards, below);
        assert forall|other: PokerHand|
            holds(other, cards) && other.strength() < below implies all.contains(other) by {
            lemma_hand_at_strength(other);
            if other.strength() == below - 1 {
                assert(all[0] == other);
            } else {
                assert(weaker.contains(other));
                let k = choose|k: int| 0 <= k < weaker.len() && weaker[k] == other;
                if holds(hand, cards) {
                    assert(all[k + 1] == other);
                } else {
                    assert(all[k] == other);
                }
            }
        }
    }
}

/// The lowest straight value from `from` on of a rank that occurs.
proof fn lowest_present(cards: Seq<Card>, from: int) -> (low: int)
    requires
        2 <= from <= 14,
        exists|v: int| from <= v <= 14 && rank_count(cards, Rank::at(v)) >= 1,
    ensures
        from <= low <= 14,
        rank_count(cards, Rank::at(low)) >= 1,
        forall|v: int| from <= v < low ==> rank_count(cards, Rank::at(v)) == 0,
    decreases 14 - from,
{
    if rank_count(cards, Rank::at(from)) >= 1 {
        from
    } else {
        let v = choose|v: int| from <= v <= 14 && rank_count(cards, Rank::at(v)) >= 1;
        assert(from + 1 <= v <= 14);
        lowest_present(cards, from + 1)
    }
}

/// At least one card is a run exactly where no rank occurs twice and the
/// ranks that occur span fewer positions than there are cards.
pub proof fn lemma_run_is_close_and_single(cards: Seq<Card>)
    requires
        cards.len() >= 1,
    ensures
        run_holds(cards) <==> close_and_single(cards),
{
    let n = cards.len() as int;
    lemma_count_all(cards);
    if run_holds(cards) {
        let low = choose|low: int| run_from(cards, low);
        lemma_count_between_single(cards, low, low + n);
        lemma_count_between_split(cards, 2, low, 15);
        lemma_count_between_split(cards, low, low + n, 15);
        lemma_count_between_none(cards, 2, low);
        lemma_count_between_none(cards, low + n, 15);
        assert forall|rank: Rank| #[trigger] rank_count(cards, rank) <= 1 by {
            lemma_rank_at_straight(rank);
        }
        assert forall|a: Rank, b: Rank|
            rank_count(cards, a) >= 1 && rank_count(cards, b) >= 1 implies b.straight()
            - a.straight() < cards.len() by {
            lemma_rank_at_straight(a);
            lemma_rank_at_straight(b);
        }
    }
    if close_and_single(cards) {
        lemma_rank_count_at(cards, 0);
        lemma_rank_at_straight(cards[0].rank);
        let low = lowest_present(cards, 2);
        let top = if low + n <= 15 {
            low + n
        } else {
            15
        };
        lemma_straight_at(low);
        assert forall|v: int| 2 <= v < low implies rank_count(cards, Rank::at(v)) == 0 by {}
        assert forall|v: int| top <= v < 15 implies rank_count(cards, Rank::at(v)) == 0 by {
            lemma_straight_at(v);
            if rank_count(cards, Rank::at(v)) >= 1 {
                assert(Rank::at(v).straight() - Rank::at(low).straight() < cards.len());
            }
        }
        assert forall|v: int| low <= v < top implies rank_count(cards, Rank::at(v)) <= 1 by {}
        lemma_count_between_none(cards, 2, low);
        lemma_count_between_none(cards, top, 15);
        lemma_count_between_split(cards, 2, low, 15);
        lemma_count_between_split(cards, low, top, 15);
        lemma_count_between_single(cards, low, top);
        assert(top == low + n);
        assert(run_from(cards, low));
    }
}

/// Whether the cards that are not wild are all of one suit.
pub fn same_suite(cards_played: &Vec<Card>) -> (b: bool)
    ensures
        b == same_suit(cards_played@),
{
    let mut suit: Option<Suit> = None;
    let ghost mut witness: int = 0;
    let mut i: usize = 0;
    while i < cards_played.len()
        invariant
            i <= cards_played.len(),
            suit.is_none() ==> forall|j: int| 0 <= j < i ==> cards_played@[j].wild(),
            suit.is_some() ==> 0 <= witness < i && !cards_played@[witness].wild()
                && cards_played@[witness].suit == suit.unwrap(),
            suit.is_some() ==> forall|j: int|
                0 <= j < i ==> cards_played@[j].wild() || cards_played@[j].suit == suit.unwrap(),
        decreases cards_played.len() - i,
    {
        let card = cards_played[i];
        if !card.is_wild() {
            match suit {
                None => {
                    suit = Some(card.suit);
                    proof {
                        witness = i as int;
                    }
                },
                Some(first) => {
                    if first != card.suit {
                        return false;
                    }
                },
            }
        }
        i += 1;
    }
    true
}

/// The straight value that stands for "no rank": one above the ace.
const NO_RANK: u8 = 15;

/// Whether the cards form a run: no rank twice, and the ranks that occur span
/// fewer positions than there are cards.
fn is_run(cards_played: &Vec<Card>) -> (b: bool)
    requires
        cards_played.len() >= 1,
    ensures
        b == run_holds(cards_played@),
{
    let counts = count_poker_by_rank(cards_played);
    let ghost cards = cards_played@;
    let mut lowest: u8 = NO_RANK;
    let mut highest: u8 = 0;
    let mut repeated: bool = false;
    let mut v: u8 = 2;
    while v <= 14
        invariant
            2 <= v <= 15,
            cards == cards_played@,
            counts_match(counts@, cards),
            repeated <==> exists|u: int| 2 <= u < v && rank_count(cards, Rank::at(u)) > 1,
            lowest == NO_RANK <==> highest == 0,
            lowest == NO_RANK <==> forall|u: int|
                2 <= u < v ==> rank_count(cards, Rank::at(u)) == 0,
            lowest != NO_RANK ==> 2 <= lowest <= highest < v && rank_count(
                cards,
                Rank::at(lowest as int),
            ) >= 1 && rank_count(cards, Rank::at(highest as int)) >= 1,
            lowest != NO_RANK ==> forall|u: int|
                2 <= u < v && rank_count(cards, Rank::at(u)) >= 1 ==> lowest <= u <= highest,
        decreases 15 - v,
    {
        let n = count_at(&counts, v, Ghost(cards));
        if n >= 1 {
            if lowest == NO_RANK {
                lowest = v;
            }
            highest = v;
            if n > 1 {
                repeated = true;
            }
        }
        v += 1;
    }
    proof {
        lemma_run_is_close_and_single(cards);
        lemma_rank_count_at(cards, 0);
        lemma_rank_at_straight(cards[0].rank);
        assert(lowest != NO_RANK);
        if repeated {
            let u = choose|u: int| 2 <= u < 15 && rank_count(cards, Rank::at(u)) > 1;
            assert(!(rank_count(cards, Rank::at(u)) <= 1));
        } else {
            assert forall|rank: Rank| #[trigger] rank_count(cards, rank) <= 1 by {
                lemma_rank_at_straight(rank);
            }
        }
        if highest - lowest < cards.len() {
            assert forall|low: Rank, high: Rank|
                rank_count(cards, low) >= 1 && rank_count(cards, high) >= 1 implies high.straight()
                - low.straight() < cards.len() by {
                lemma_rank_at_straight(low);
                lemma_rank_at_straight(high);
            }
        } else {
            lemma_straight_at(lowest as int);
            lemma_straight_at(highest as int);
        }
    }
    !repeated && ((highest - lowest) as usize) < cards_played.len()
}

/// Whether ace, two, three, four and five all occur.
fn is_wheel(cards_played: &Vec<Card>) -> (b: bool)
    ensures
        b == wheel_holds(cards_played@),
{
    let counts = count_poker_by_rank(cards_played);
    let ghost cards = cards_played@;
    count_at(&counts, 14, Ghost(cards)) >= 1 && count_at(&counts, 2, Ghost(cards)) >= 1
        && count_at(&counts, 3, Ghost(cards)) >= 1 && count_at(&counts, 4, Ghost(cards)) >= 1
        && count_at(&counts, 5, Ghost(cards)) >= 1
}

/// How many ranks occur at least twice, counted up to two.
fn paired_ranks(cards_played: &Vec<Card>) -> (k: u8)
    ensures
        k <= 2,
        k >= 1 <==> pair_holds(cards_played@),
        k >= 2 <==> two_pair_holds(cards_played@),
{
    let counts = count_poker_by_rank(cards_played);
    let ghost cards = cards_played@;
    let ghost mut first: int = 0;
    let ghost mut second: int = 0;
    let mut k: u8 = 0;
    let mut v: u8 = 2;
    while v <= 14
        invariant
            2 <= v <= 15,
            k <= 2,
            cards == cards_played@,
            counts_match(counts@, cards),
            k == 0 ==> forall|u: int| 2 <= u < v ==> rank_count(cards, Rank::at(u)) < 2,
            k >= 1 ==> 2 <= first < v && rank_count(cards, Rank::at(first)) >= 2,
            k == 1 ==> forall|u: int|
                2 <= u < v && u != first ==> rank_count(cards, Rank::at(u)) < 2,
            k == 2 ==> 2 <= second < v && second != first && rank_count(cards, Rank::at(second))
                >= 2,
        decreases 15 - v,
    {
        let n = count_at(&counts, v, Ghost(cards));
        if n >= 2 && k < 2 {
            proof {
                if k == 0 {
                    first = v as int;
                } else {
                    second = v as int;
                }
            }
            k += 1;
        }
        v += 1;
    }
    proof {
        if k >= 1 {
            assert(rank_count(cards, Rank::at(first)) >= 2);
        } else {
            assert forall|rank: Rank| !(#[trigger] rank_count(cards, rank) >= 2) by {
                lemma_rank_at_straight(rank);
            }
        }
        if k >= 2 {
            lemma_straight_at(first);
            lemma_straight_at(second);
            assert(Rank::at(first) != Rank::at(second));
            assert(rank_count(cards, Rank::at(first)) >= 2 && rank_count(cards, Rank::at(second))
                >= 2);
        } else {
            assert forall|a: Rank, b: Rank|
                !(a != b && #[trigger] rank_count(cards, a) >= 2 && #[trigger] rank_count(cards, b)
                    >= 2) by {
                lemma_rank_at_straight(a);
                lemma_rank_at_straight(b);
            }
        }
    }
    k
}

pub trait HandPokerRecognizer {
    /// The strongest category that the round's played cards satisfy.
    fn recognize_hand_type(&self) -> PokerHand;

    /// Whether the cards are a flush.
    fn is_flush(cards_played: &Vec<Card>) -> (b: bool)
        ensures
            b == flush_holds(cards_played@),
    ;

    /// Whether the cards are a straight.
    fn is_straight(cards_played: &Vec<Card>) -> (b: bool)
        ensures
            b == straight_holds(cards_played@),
    ;
}

impl HandPokerRecognizer for Round {
    fn recognize_hand_type(&self) -> (hand: PokerHand)
        ensures
            hand == best_hand(self.cards_played@),
    {
        let hands = PokerHand::recogonize(&self.cards_played);
        if hands.len() > 0 {
            hands[0]
        } else {
            PokerHand::HighCard
        }
    }

    fn is_flush(cards_played: &Vec<Card>) -> (b: bool) {
        if cards_played.len() < 5 {
            return false;
        }
        let suit = cards_played[0].suit;
        let mut i: usize = 0;
        while i < cards_played.len()
            invariant
                i <= cards_played.len(),
                cards_played.len() >= 5,
                suit == cards_played@[0].suit,
                forall|j: int|
                    0 <= j < i ==> cards_played@[j].wild() || cards_played@[j].suit == suit,
            decreases cards_played.len() - i,
        {
            let card = cards_played[i];
            if !(card.suit == suit || card.is_wild()) {
                return false;
            }
            i += 1;
        }
        true
    }

    fn is_straight(cards_played: &Vec<Card>) -> (b: bool) {
        if cards_played.len() < 5 {
            return false;
        }
        if is_run(cards_played) {
            return true;
        }
        is_wheel(cards_played)
    }
}

pub trait PokerHandUtils: Sized {
    /// Whether the cards satisfy this category.
    fn is(&self, cards_played: &Vec<Card>) -> bool;

    /// Every category that the cards satisfy, strongest first.
    fn recogonize(cards_played: &Vec<Card>) -> (hands: Vec<Self>);

    /// The categories, strongest first.
    fn vector() -> (hands: Vec<Self>);

    /// Adds the category's base chips and base multiplier.
    fn apply(&self, chips: &mut Chips, mult: &mut Mult) -> Result<(), ScoreError>;
}

impl PokerHandUtils for PokerHand {
    fn apply(&self, chips: &mut Chips, mult: &mut Mult) -> (r: Result<(), ScoreError>)
        ensures
            match r {
                Ok(()) => *final(chips) == *old(chips) + self.base_chips() && final(mult)@
                    == old(mult)@.plus(Dyadic::from_int(self.base_mult())),
                Err(e) => e == ScoreError::Overflow && *final(chips) == *old(chips) && *final(mult)
                    == *old(mult) && !(*old(chips) + self.base_chips() <= u64::MAX && old(mult)@.plus(
                    Dyadic::from_int(self.base_mult()),
                ).fits()),
            },
    {
        let (base_chips, base_mult) = self.hand_value();
        match (chips.checked_add(base_chips), mult.checked_plus(base_mult)) {
            (Some(c), Some(m)) => {
                *chips = c;
                *mult = m;
                Ok(())
            },
            _ => Err(ScoreError::Overflow),
        }
    }

    fn recogonize(cards_played: &Vec<Card>) -> (hands: Vec<PokerHand>)
        ensures
            hands@ == classify(cards_played@),
            cards_played.len() > 0 ==> hands.len() > 0,
            forall|i: int, j: int|
                0 <= i < j < hands.len() ==> hands@[i].strength() > hands@[j].strength(),
            forall|hand: PokerHand| hands@.contains(hand) <==> holds(hand, cards_played@),
    {
        let ladder = Self::vector();
        let mut matches: Vec<PokerHand> = Vec::new();
        let mut i: usize = 0;
        while i < ladder.len()
            invariant
                i <= 12,
                ladder@ == hand_ladder(),
                classify(cards_played@) == matches@ + classify_below(cards_played@, 12 - i),
            decreases 12 - i,
        {
            let hand = ladder[i];
            if hand.is(cards_played) {
                matches.push(hand);
            }
            i += 1;
        }
        proof {
            crate::laws::lemma_classify(cards_played@);
        }
        matches
    }

    fn is(&self, cards_played: &Vec<Card>) -> (b: bool)
        ensures
            b == holds(*self, cards_played@),
    {
        match *self {
            PokerHand::FlushFive => max_num_of_rank(cards_played) == 5 && same_suite(
                cards_played,
            ),
            PokerHand::FlushHouse => max_num_of_rank(cards_played) >= 3 && paired_ranks(
                cards_played,
            ) >= 2 && same_suite(cards_played),
            PokerHand::FiveOfAKind => max_num_of_rank(cards_played) == 5,
            PokerHand::StraightFlush => Round::is_flush(cards_played) && Round::is_straight(
                cards_played,
            ),
            PokerHand::FourOfAKind => max_num_of_rank(cards_played) >= 4,
            PokerHand::FullHouse => max_num_of_rank(cards_played) >= 3 && paired_ranks(
                cards_played,
            ) >= 2,
            PokerHand::Flush => Round::is_flush(cards_played),
            PokerHand::Straight => Round::is_straight(cards_played),
            PokerHand::ThreeOfAKind => max_num_of_rank(cards_played) >= 3,
            PokerHand::TwoPair => paired_ranks(cards_played) >= 2,
            PokerHand::Pair => paired_ranks(cards_played) >= 1,
            PokerHand::HighCard => max_num_of_rank(cards_played) == 1,
        }
    }

    fn vector() -> (hands: Vec<PokerHand>)
        ensures
            hands@ == hand_ladder(),
    {
        let hands = vec![
            PokerHand::FlushFive,
            PokerHand::FlushHouse,
            PokerHand::FiveOfAKind,
            PokerHand::StraightFlush,
            PokerHand::FourOfAKind,
            PokerHand::FullHouse,
            PokerHand::Flush,
            PokerHand::Straight,
            PokerHand::ThreeOfAKind,
            PokerHand::TwoPair,
            PokerHand::Pair,
            PokerHand::HighCard,
        ];
        assert(hands@ =~= hand_ladder());
        hands
    }
}

} // verus!
