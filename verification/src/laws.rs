//! What holds of classification and scoring on every input.

use vstd::prelude::*;
use vstd::arithmetic::power2::{lemma2_to64, lemma_pow2_adds, pow2};

use crate::card::CardUtils;
use crate::jokers::{on_held_effect, on_scored_effect};
use crate::modifiers::{edition_effect, enhancement_effect};
use crate::mult::Dyadic;
use crate::poker_hand::{
    classify,
    flush_holds,
    holds,
    lemma_classify_below,
    lemma_run_is_close_and_single,
    pair_holds,
    run_holds,
    straight_holds,
    two_pair_holds,
    wheel_holds,
};
use crate::score::{
    hold_cards,
    independent_pass,
    lemma_hold_cards_grows,
    lemma_independent_pass_grows,
    lemma_score_cards_grows,
    score_cards,
    Tally,
};
use crate::types::{Card, Edition, Enhancement, Joker, JokerCard, PokerHand, Rank};
use crate::utils::{lemma_max_rank_count, lemma_rank_count_at, max_rank_count, rank_count};

verus! {

/// The classification of a hand lists exactly the categories that the hand
/// satisfies, each once and in falling strength; and a hand of at least one
/// card satisfies some category.
pub proof fn lemma_classify(cards: Seq<Card>)
    ensures
        forall|hand: PokerHand| classify(cards).contains(hand) <==> holds(hand, cards),
        forall|i: int, j: int|
            0 <= i < j < classify(cards).len() ==> classify(cards)[i].strength() > classify(
                cards,
            )[j].strength(),
        cards.len() > 0 ==> classify(cards).len() > 0,
{
    lemma_classify_below(cards, 12);
    if cards.len() > 0 {
        lemma_rank_count_at(cards, 0);
        lemma_max_rank_count(cards);
        assert(rank_count(cards, cards[0].rank) <= max_rank_count(cards));
        if max_rank_count(cards) == 1 {
            assert(holds(PokerHand::HighCard, cards));
            assert(classify(cards).contains(PokerHand::HighCard));
        } else {
            lemma_large_group_is_pair(cards);
            assert(holds(PokerHand::Pair, cards));
            assert(classify(cards).contains(PokerHand::Pair));
        }
    }
}

/// A largest group of two or more cards is a pair.
pub proof fn lemma_large_group_is_pair(cards: Seq<Card>)
    requires
        max_rank_count(cards) >= 2,
    ensures
        pair_holds(cards),
{
    lemma_max_rank_count(cards);
    let rank = choose|rank: Rank| #[trigger] rank_count(cards, rank) == max_rank_count(cards);
    assert(rank_count(cards, rank) >= 2);
}

/// A hand that satisfies a category satisfies the weaker categories that it
/// implies, and the classification lists them: a full house is three of a
/// kind and two pair; four of a kind is three of a kind and a pair; five of
/// a kind is four of a kind; a flush five is five of a kind; a flush house is
/// a full house; a straight flush is a straight and a flush; two pair and
/// three of a kind are a pair.
pub proof fn lemma_classify_implied(cards: Seq<Card>)
    ensures
        holds(PokerHand::FullHouse, cards) ==> classify(cards).contains(PokerHand::ThreeOfAKind)
            && classify(cards).contains(PokerHand::TwoPair),
        holds(PokerHand::FourOfAKind, cards) ==> classify(cards).contains(PokerHand::ThreeOfAKind)
            && classify(cards).contains(PokerHand::Pair),
        holds(PokerHand::FiveOfAKind, cards) ==> classify(cards).contains(PokerHand::FourOfAKind),
        holds(PokerHand::FlushFive, cards) ==> classify(cards).contains(PokerHand::FiveOfAKind)
            && classify(cards).contains(PokerHand::FourOfAKind) && classify(cards).contains(
            PokerHand::ThreeOfAKind,
        ) && classify(cards).contains(PokerHand::Pair),
        holds(PokerHand::FlushHouse, cards) ==> classify(cards).contains(PokerHand::FullHouse)
            && classify(cards).contains(PokerHand::ThreeOfAKind) && classify(cards).contains(
            PokerHand::TwoPair,
        ) && classify(cards).contains(PokerHand::Pair),
        holds(PokerHand::StraightFlush, cards) ==> classify(cards).contains(PokerHand::Straight)
            && classify(cards).contains(PokerHand::Flush),
        holds(PokerHand::TwoPair, cards) ==> classify(cards).contains(PokerHand::Pair),
        holds(PokerHand::ThreeOfAKind, cards) ==> classify(cards).contains(PokerHand::Pair),
{
    if max_rank_count(cards) >= 2 {
        lemma_large_group_is_pair(cards);
    }
    if two_pair_holds(cards) {
        let (a, b) = choose|a: Rank, b: Rank|
            a != b && #[trigger] rank_count(cards, a) >= 2 && #[trigger] rank_count(cards, b) >= 2;
        assert(rank_count(cards, a) >= 2);
    }
    assert forall|hand: PokerHand| holds(hand, cards) implies #[trigger] classify(cards).contains(
        hand,
    ) by {
        lemma_listed(cards, hand);
    }
    if holds(PokerHand::FullHouse, cards) {
        assert(holds(PokerHand::ThreeOfAKind, cards) && holds(PokerHand::TwoPair, cards));
    }
    if holds(PokerHand::FourOfAKind, cards) {
        assert(holds(PokerHand::ThreeOfAKind, cards) && holds(PokerHand::Pair, cards));
    }
    if holds(PokerHand::FiveOfAKind, cards) {
        assert(holds(PokerHand::FourOfAKind, cards));
    }
    if holds(PokerHand::FlushFive, cards) {
        assert(holds(PokerHand::FiveOfAKind, cards) && holds(PokerHand::FourOfAKind, cards)
            && holds(PokerHand::ThreeOfAKind, cards) && holds(PokerHand::Pair, cards));
    }
    if holds(PokerHand::FlushHouse, cards) {
        assert(holds(PokerHand::FullHouse, cards) && holds(PokerHand::ThreeOfAKind, cards)
            && holds(PokerHand::TwoPair, cards) && holds(PokerHand::Pair, cards));
    }
    if holds(PokerHand::StraightFlush, cards) {
        assert(holds(PokerHand::Straight, cards) && holds(PokerHand::Flush, cards));
    }
    if holds(PokerHand::TwoPair, cards) {
        assert(holds(PokerHand::Pair, cards));
    }
    if holds(PokerHand::ThreeOfAKind, cards) {
        assert(holds(PokerHand::Pair, cards));
    }
}

/// The classification lists a category that the hand satisfies.
pub proof fn lemma_listed(cards: Seq<Card>, hand: PokerHand)
    requires
        holds(hand, cards),
    ensures
        classify(cards).contains(hand),
{
    lemma_classify_below(cards, 12);
}

/// A flush five is a flush, unless its first card is wild and of another
/// suit than a card that is not wild: the flush goes by the suit of the
/// first card.
pub proof fn lemma_flush_five_is_flush(cards: Seq<Card>)
    requires
        holds(PokerHand::FlushFive, cards),
        cards.len() > 0 && cards[0].wild() ==> forall|i: int|
            0 <= i < cards.len() && !cards[i].wild() ==> cards[i].suit == cards[0].suit,
    ensures
        classify(cards).contains(PokerHand::Flush),
{
    lemma_max_rank_count(cards);
    assert(flush_holds(cards));
    lemma_listed(cards, PokerHand::Flush);
}

/// A hand in which a rank occurs twice is no run. So five of a kind, and
/// with it a flush five, is a straight only by the wheel.
pub proof fn lemma_repeated_rank_is_no_run(cards: Seq<Card>)
    requires
        max_rank_count(cards) >= 2,
    ensures
        !run_holds(cards),
        straight_holds(cards) <==> cards.len() >= 5 && wheel_holds(cards),
{
    lemma_max_rank_count(cards);
    let rank = choose|rank: Rank| #[trigger] rank_count(cards, rank) == max_rank_count(cards);
    assert(!(rank_count(cards, rank) <= 1));
    lemma_run_is_close_and_single(cards);
}

/// Effects that are relative to the multiplier are taken one after the
/// other: glass on a polychrome card doubles the multiplier that the edition
/// has already grown by a half, so the two together triple it.
pub proof fn lemma_relative_effects_compose(tally: Tally)
    ensures
        ({
            let grown = edition_effect(tally, Some(Edition::Polychrome));
            let doubled = enhancement_effect(grown, Some(Enhancement::Glass), false);
            &&& grown.mult == tally.mult.times_three_halves()
            &&& doubled.mult == grown.mult.plus(grown.mult)
            &&& doubled.mult == (Dyadic { num: tally.mult.num * 6, exp: tally.mult.exp + 1 })
            &&& doubled.mult.same_value(tally.mult.times(3))
            &&& doubled.chips == tally.chips
        }),
{
    let grown = edition_effect(tally, Some(Edition::Polychrome));
    let doubled = enhancement_effect(grown, Some(Enhancement::Glass), false);
    tally.mult.lemma_times_three_halves();
    lemma2_to64();
    let n = tally.mult.num;
    let e = tally.mult.exp;
    assert(grown.mult == (Dyadic { num: n * 3, exp: e + 1 }));
    assert((n * 3) * pow2(0) + (n * 3) * pow2(0) == n * 6) by (nonlinear_arith)
        requires
            pow2(0) == 1,
    ;
    lemma_pow2_adds(e, 1);
    assert((n * 6) * pow2(e) == (n * 3) * pow2(e + 1)) by (nonlinear_arith)
        requires
            pow2(e + 1) == pow2(e) * 2,
            pow2(1) == 2,
    ;
}

/// The jokers that fire once per run fire once: a photograph or a raised
/// fist that has fired does nothing when asked again, and firing sets the
/// flag that says so.
pub proof fn lemma_one_shot(tally: Tally, card: Card, is_last: bool)
    ensures
        tally.photograph_triggered ==> on_scored_effect(tally, Joker::Photograph, card) == tally,
        on_scored_effect(tally, Joker::Photograph, card) != tally ==> on_scored_effect(
            tally,
            Joker::Photograph,
            card,
        ).photograph_triggered && on_scored_effect(tally, Joker::Photograph, card).mult
            == tally.mult.times(2),
        tally.raised_fist_triggered ==> on_held_effect(tally, Joker::RaisedFist, card, is_last)
            == tally,
        on_held_effect(tally, Joker::RaisedFist, card, is_last) != tally ==> on_held_effect(
            tally,
            Joker::RaisedFist,
            card,
            is_last,
        ).raised_fist_triggered,
{
}

/// A joker that has fired stays fired to the end of the run: no scored
/// card, held card or joker that comes later clears its flag.
pub proof fn lemma_fired_stays_fired(
    tally: Tally,
    scored: Seq<Card>,
    held: Seq<Card>,
    jokers: Seq<JokerCard>,
    hands: Seq<PokerHand>,
    from: int,
    upto: int,
)
    requires
        0 <= from <= upto,
    ensures
        score_cards(tally, scored, from, jokers).photograph_triggered ==> score_cards(
            tally,
            scored,
            upto,
            jokers,
        ).photograph_triggered,
        hold_cards(tally, held, from, jokers).raised_fist_triggered ==> hold_cards(
            tally,
            held,
            upto,
            jokers,
        ).raised_fist_triggered,
        independent_pass(tally, jokers, from, hands, held, scored).photograph_triggered
            ==> independent_pass(tally, jokers, upto, hands, held, scored).photograph_triggered,
        independent_pass(tally, jokers, from, hands, held, scored).raised_fist_triggered
            ==> independent_pass(tally, jokers, upto, hands, held, scored).raised_fist_triggered,
{
    lemma_score_cards_grows(tally, scored, from, upto, jokers);
    lemma_hold_cards_grows(tally, held, from, upto, jokers);
    lemma_independent_pass_grows(tally, jokers, from, upto, hands, held, scored);
}

} // verus!
