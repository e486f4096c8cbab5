//! The running totals of a round and the pipeline that fills them.

use vstd::prelude::*;

use crate::error::ScoreError;
use crate::getters::{scored_cards, ScoredCardGetter};
use crate::jokers::{
    independent,
    independent_effect,
    lemma_independent_grows,
    lemma_on_held_grows,
    lemma_on_scored_grows,
    on_held,
    on_held_effect,
    on_scored,
    on_scored_effect,
    supported,
    JokerUtils,
};
use crate::modifiers::{
    edition_effect,
    enhancement_effect,
    lemma_edition_grows,
    lemma_enhancement_grows,
    EditionUtils,
    EnhancementUtils,
};
use crate::mult::{Chips, Dyadic, Mult};
use crate::poker_hand::{best_hand, classify, PokerHandUtils};
use crate::types::{Card, Joker, JokerCard, PokerHand, Round};

verus! {

/// The mathematical value of the running totals: the chips, the multiplier,
/// and the two flags of the jokers that fire once per round.
pub struct Tally {
    pub chips: nat,
    pub mult: Dyadic,
    pub photograph_triggered: bool,
    pub raised_fist_triggered: bool,
}

impl Tally {
    /// Nothing scored yet.
    pub open spec fn zero() -> Tally {
        Tally {
            chips: 0,
            mult: Dyadic::zero(),
            photograph_triggered: false,
            raised_fist_triggered: false,
        }
    }

    /// Whether a `Score` can hold these totals.
    pub open spec fn fits(self) -> bool {
        self.chips <= u64::MAX && self.mult.fits()
    }

    /// Whether `other` can come after these totals in a run: neither the
    /// chips nor the multiplier's numerator or exponent is smaller in it, and
    /// a flag that is set here is set there.
    pub open spec fn within(self, other: Tally) -> bool {
        &&& self.chips <= other.chips
        &&& self.mult.within(other.mult)
        &&& self.photograph_triggered ==> other.photograph_triggered
        &&& self.raised_fist_triggered ==> other.raised_fist_triggered
    }

    /// The totals after adding chips and an amount of multiplier.
    pub open spec fn plus(self, delta: (nat, Dyadic)) -> Tally {
        Tally { chips: self.chips + delta.0, mult: self.mult.plus(delta.1), ..self }
    }

    /// The totals after adding chips.
    pub open spec fn plus_chips(self, chips: nat) -> Tally {
        Tally { chips: self.chips + chips, ..self }
    }

    /// The totals after adding a whole amount of multiplier.
    pub open spec fn plus_mult(self, mult: nat) -> Tally {
        Tally { mult: self.mult.plus(Dyadic::from_int(mult)), ..self }
    }

    /// The totals with the multiplier replaced.
    pub open spec fn with_mult(self, mult: Dyadic) -> Tally {
        Tally { mult, ..self }
    }

    /// Adding chips and multiplier does not shrink the totals.
    pub proof fn lemma_plus_grows(self, delta: (nat, Dyadic))
        ensures
            self.within(self.plus(delta)),
            delta.1.within(self.plus(delta).mult),
    {
        self.mult.lemma_plus_grows(delta.1);
    }

}

/// The state of one scoring run: the running totals, and what the round
/// gave to score.
#[derive(Clone, PartialEq, Eq, Debug)]
pub struct Score {
    pub mult: Mult,
    pub chips: Chips,
    /// The strongest category of the played hand.
    pub best_poker_hand: PokerHand,
    /// Every category of the played hand, strongest first.
    pub poker_hands: Vec<PokerHand>,
    /// The played cards that score.
    pub scored_cards: Vec<Card>,
    pub cards_held_in_hand: Vec<Card>,
    pub jokers: Vec<JokerCard>,
    /// Whether the raised fist has fired in this run.
    pub raised_first_triggered: bool,
    /// Whether the photograph has fired in this run.
    pub photograph_triggered: bool,
}

impl Score {
    /// The running totals.
    pub open spec fn tally(&self) -> Tally {
        Tally {
            chips: self.chips as nat,
            mult: self.mult@,
            photograph_triggered: self.photograph_triggered,
            raised_fist_triggered: self.raised_first_triggered,
        }
    }

    /// Whether the two states score the same round: they may differ in the
    /// running totals only.
    pub open spec fn same_round(&self, other: &Score) -> bool {
        &&& self.best_poker_hand == other.best_poker_hand
        &&& self.poker_hands == other.poker_hands
        &&& self.scored_cards == other.scored_cards
        &&& self.cards_held_in_hand == other.cards_held_in_hand
        &&& self.jokers == other.jokers
    }

    /// Takes totals that were computed apart and that fit.
    pub(crate) fn set_totals(&mut self, chips: Chips, mult: Mult)
        ensures
            final(self).chips == chips,
            final(self).mult == mult,
            final(self).same_round(old(self)),
            final(self).photograph_triggered == old(self).photograph_triggered,
            final(self).raised_first_triggered == old(self).raised_first_triggered,
    {
        self.chips = chips;
        self.mult = mult;
    }

    /// Adds chips, or changes nothing where the sum does not fit.
    pub(crate) fn add_chips(&mut self, chips: Chips) -> (r: Result<(), ScoreError>)
        ensures
            match r {
                Ok(()) => final(self).tally() == old(self).tally().plus_chips(chips as nat)
                    && final(self).same_round(old(self)),
                Err(e) => e == ScoreError::Overflow && !old(self).tally().plus_chips(
                    chips as nat,
                ).fits() && *final(self) == *old(self),
            },
    {
        match self.chips.checked_add(chips) {
            Some(c) => {
                self.chips = c;
                Ok(())
            },
            None => Err(ScoreError::Overflow),
        }
    }

    /// Adds a whole amount of multiplier, or changes nothing where the sum
    /// does not fit.
    pub(crate) fn add_mult(&mut self, mult: u64) -> (r: Result<(), ScoreError>)
        ensures
            match r {
                Ok(()) => final(self).tally() == old(self).tally().plus_mult(mult as nat)
                    && final(self).same_round(old(self)),
                Err(e) => e == ScoreError::Overflow && !old(self).tally().plus_mult(
                    mult as nat,
                ).fits() && *final(self) == *old(self),
            },
    {
        match self.mult.checked_plus(Mult::from_int(mult)) {
            Some(m) => {
                self.mult = m;
                Ok(())
            },
            None => Err(ScoreError::Overflow),
        }
    }

    /// Adds chips and an amount of multiplier, or changes nothing where the
    /// sums do not fit.
    pub(crate) fn add_delta(&mut self, chips: Chips, mult: Mult) -> (r: Result<(), ScoreError>)
        ensures
            match r {
                Ok(()) => final(self).tally() == old(self).tally().plus((chips as nat, mult@))
                    && final(self).same_round(old(self)),
                Err(e) => e == ScoreError::Overflow && !old(self).tally().plus(
                    (chips as nat, mult@),
                ).fits() && *final(self) == *old(self),
            },
    {
        match (self.chips.checked_add(chips), self.mult.checked_plus(mult)) {
            (Some(c), Some(m)) => {
                self.chips = c;
                self.mult = m;
                Ok(())
            },
            _ => Err(ScoreError::Overflow),
        }
    }
}

/// The totals after the first `upto` jokers have seen a scored card. Only
/// the jokers of the per-scored-card class look at it, in the order of the
/// list.
pub open spec fn on_scored_pass(tally: Tally, jokers: Seq<JokerCard>, upto: int, card: Card) -> Tally
    decreases upto,
{
    if upto <= 0 {
        tally
    } else {
        let before = on_scored_pass(tally, jokers, upto - 1, card);
        let joker = jokers[upto - 1].joker;
        if on_scored(joker) {
            on_scored_effect(before, joker, card)
        } else {
            before
        }
    }
}

/// The totals after one scored card: its chips, its enhancement, its
/// edition, then the jokers.
pub open spec fn score_card(tally: Tally, card: Card, jokers: Seq<JokerCard>) -> Tally {
    let with_chips = tally.plus_chips(card.rank.chip_value());
    let enhanced = enhancement_effect(with_chips, card.enhancement, false);
    let own = edition_effect(enhanced, card.edition);
    on_scored_pass(own, jokers, jokers.len() as int, card)
}

/// The totals after the first `upto` scored cards.
pub open spec fn score_cards(tally: Tally, cards: Seq<Card>, upto: int, jokers: Seq<JokerCard>) -> Tally
    decreases upto,
{
    if upto <= 0 {
        tally
    } else {
        score_card(score_cards(tally, cards, upto - 1, jokers), cards[upto - 1], jokers)
    }
}

/// The totals after the first `upto` jokers have seen a held card. Only the
/// jokers of the per-held-card class look at it.
pub open spec fn on_held_pass(
    tally: Tally,
    jokers: Seq<JokerCard>,
    upto: int,
    card: Card,
    is_last: bool,
) -> Tally
    decreases upto,
{
    if upto <= 0 {
        tally
    } else {
        let before = on_held_pass(tally, jokers, upto - 1, card, is_last);
        let joker = jokers[upto - 1].joker;
        if on_held(joker) {
            on_held_effect(before, joker, card, is_last)
        } else {
            before
        }
    }
}

/// The totals after one held card: its enhancement, then the jokers.
pub open spec fn hold_card(tally: Tally, card: Card, is_last: bool, jokers: Seq<JokerCard>) -> Tally {
    let enhanced = enhancement_effect(tally, card.enhancement, true);
    on_held_pass(enhanced, jokers, jokers.len() as int, card, is_last)
}

/// The totals after the first `upto` held cards. The last card of the list
/// is shown to the jokers as the last.
pub open spec fn hold_cards(tally: Tally, held: Seq<Card>, upto: int, jokers: Seq<JokerCard>) -> Tally
    decreases upto,
{
    if upto <= 0 {
        tally
    } else {
        hold_card(
            hold_cards(tally, held, upto - 1, jokers),
            held[upto - 1],
            upto == held.len(),
            jokers,
        )
    }
}

/// The totals after the once-per-round jokers among the first `upto`.
pub open spec fn independent_pass(
    tally: Tally,
    jokers: Seq<JokerCard>,
    upto: int,
    hands: Seq<PokerHand>,
    held: Seq<Card>,
    scored: Seq<Card>,
) -> Tally
    decreases upto,
{
    if upto <= 0 {
        tally
    } else {
        let before = independent_pass(tally, jokers, upto - 1, hands, held, scored);
        let card = jokers[upto - 1];
        if independent(card.joker) {
            independent_effect(before, card, hands, held, scored, jokers.len())
        } else {
            before
        }
    }
}

/// The totals after the base value of the strongest category.
pub open spec fn base_value(tally: Tally, best: PokerHand) -> Tally {
    tally.plus((best.base_chips(), Dyadic::from_int(best.base_mult())))
}

/// The totals after a whole round: the base value of the strongest
/// category, the scored cards, the held cards, the once-per-round jokers.
pub open spec fn round_total(
    tally: Tally,
    best: PokerHand,
    hands: Seq<PokerHand>,
    scored: Seq<Card>,
    held: Seq<Card>,
    jokers: Seq<JokerCard>,
) -> Tally {
    let based = base_value(tally, best);
    let played = score_cards(based, scored, scored.len() as int, jokers);
    let kept = hold_cards(played, held, held.len() as int, jokers);
    independent_pass(kept, jokers, jokers.len() as int, hands, held, scored)
}

/// The first joker from place `from` on that has no scoring rule.
pub open spec fn unsupported_from(jokers: Seq<JokerCard>, from: int) -> Option<Joker>
    decreases jokers.len() - from,
{
    if from < 0 || from >= jokers.len() {
        None
    } else if !supported(jokers[from].joker) {
        Some(jokers[from].joker)
    } else {
        unsupported_from(jokers, from + 1)
    }
}

/// The first joker of the list that has no scoring rule.
pub open spec fn first_unsupported(jokers: Seq<JokerCard>) -> Option<Joker> {
    unsupported_from(jokers, 0)
}

/// The totals of a round scored from nothing.
pub open spec fn round_score(played: Seq<Card>, held: Seq<Card>, jokers: Seq<JokerCard>) -> Tally {
    let best = best_hand(played);
    round_total(Tally::zero(), best, classify(played), scored_cards(played, best), held, jokers)
}

/// Whether place `at` holds the first joker from place `from` on that has
/// no scoring rule.
pub open spec fn first_unsupported_at(jokers: Seq<JokerCard>, from: int, at: int) -> bool {
    &&& from <= at < jokers.len()
    &&& !supported(jokers[at].joker)
    &&& forall|j: int| from <= j < at ==> supported(#[trigger] jokers[j].joker)
}

/// What `unsupported_from` finds: the joker at the first place from `from`
/// on that has no scoring rule; and nothing only where every joker from
/// there on has one.
pub proof fn lemma_unsupported_from(jokers: Seq<JokerCard>, from: int)
    requires
        0 <= from,
    ensures
        match unsupported_from(jokers, from) {
            Some(joker) => exists|at: int| #[trigger]
                first_unsupported_at(jokers, from, at) && jokers[at].joker == joker,
            None => forall|i: int| from <= i < jokers.len() ==> supported(#[trigger] jokers[i].joker),
        },
    decreases jokers.len() - from,
{
    if from < jokers.len() {
        if !supported(jokers[from].joker) {
            assert(first_unsupported_at(jokers, from, from));
        } else {
            lemma_unsupported_from(jokers, from + 1);
            if let Some(joker) = unsupported_from(jokers, from + 1) {
                let at = choose|at: int| #[trigger]
                    first_unsupported_at(jokers, from + 1, at) && jokers[at].joker == joker;
                assert(first_unsupported_at(jokers, from, at));
            }
        }
    }
}

/// The jokers do not shrink the totals over a scored card.
pub proof fn lemma_on_scored_pass_grows(
    tally: Tally,
    jokers: Seq<JokerCard>,
    from: int,
    upto: int,
    card: Card,
)
    requires
        0 <= from <= upto,
    ensures
        on_scored_pass(tally, jokers, from, card).within(
            on_scored_pass(tally, jokers, upto, card),
        ),
    decreases upto,
{
    if from < upto {
        lemma_on_scored_pass_grows(tally, jokers, from, upto - 1, card);
        lemma_on_scored_grows(
            on_scored_pass(tally, jokers, upto - 1, card),
            jokers[upto - 1].joker,
            card,
        );
    }
}

/// A scored card does not shrink the totals, nor does any step of it.
pub proof fn lemma_score_card_grows(tally: Tally, card: Card, jokers: Seq<JokerCard>)
    ensures
        tally.within(score_card(tally, card, jokers)),
        tally.plus_chips(card.rank.chip_value()).within(score_card(tally, card, jokers)),
        enhancement_effect(
            tally.plus_chips(card.rank.chip_value()),
            card.enhancement,
            false,
        ).within(score_card(tally, card, jokers)),
        edition_effect(
            enhancement_effect(tally.plus_chips(card.rank.chip_value()), card.enhancement, false),
            card.edition,
        ).within(score_card(tally, card, jokers)),
{
    let with_chips = tally.plus_chips(card.rank.chip_value());
    let enhanced = enhancement_effect(with_chips, card.enhancement, false);
    let own = edition_effect(enhanced, card.edition);
    lemma_enhancement_grows(with_chips, card.enhancement, false);
    lemma_edition_grows(enhanced, card.edition);
    lemma_on_scored_pass_grows(own, jokers, 0, jokers.len() as int, card);
}

/// The scored cards do not shrink the totals.
pub proof fn lemma_score_cards_grows(
    tally: Tally,
    cards: Seq<Card>,
    from: int,
    upto: int,
    jokers: Seq<JokerCard>,
)
    requires
        0 <= from <= upto,
    ensures
        score_cards(tally, cards, from, jokers).within(score_cards(tally, cards, upto, jokers)),
    decreases upto,
{
    if from < upto {
        lemma_score_cards_grows(tally, cards, from, upto - 1, jokers);
        lemma_score_card_grows(
            score_cards(tally, cards, upto - 1, jokers),
            cards[upto - 1],
            jokers,
        );
    }
}

/// The jokers do not shrink the totals over a held card.
pub proof fn lemma_on_held_pass_grows(
    tally: Tally,
    jokers: Seq<JokerCard>,
    from: int,
    upto: int,
    card: Card,
    is_last: bool,
)
    requires
        0 <= from <= upto,
    ensures
        on_held_pass(tally, jokers, from, card, is_last).within(
            on_held_pass(tally, jokers, upto, card, is_last),
        ),
    decreases upto,
{
    if from < upto {
        lemma_on_held_pass_grows(tally, jokers, from, upto - 1, card, is_last);
        lemma_on_held_grows(
            on_held_pass(tally, jokers, upto - 1, card, is_last),
            jokers[upto - 1].joker,
            card,
            is_last,
        );
    }
}

/// A held card does not shrink the totals, nor does its enhancement.
pub proof fn lemma_hold_card_grows(tally: Tally, card: Card, is_last: bool, jokers: Seq<JokerCard>)
    ensures
        tally.within(hold_card(tally, card, is_last, jokers)),
        enhancement_effect(tally, card.enhancement, true).within(
            hold_card(tally, card, is_last, jokers),
        ),
{
    let enhanced = enhancement_effect(tally, card.enhancement, true);
    lemma_enhancement_grows(tally, card.enhancement, true);
    lemma_on_held_pass_grows(enhanced, jokers, 0, jokers.len() as int, card, is_last);
}

/// The held cards do not shrink the totals.
pub proof fn lemma_hold_cards_grows(
    tally: Tally,
    held: Seq<Card>,
    from: int,
    upto: int,
    jokers: Seq<JokerCard>,
)
    requires
        0 <= from <= upto,
    ensures
        hold_cards(tally, held, from, jokers).within(hold_cards(tally, held, upto, jokers)),
    decreases upto,
{
    if from < upto {
        lemma_hold_cards_grows(tally, held, from, upto - 1, jokers);
        lemma_hold_card_grows(
            hold_cards(tally, held, upto - 1, jokers),
            held[upto - 1],
            upto == held.len(),
            jokers,
        );
    }
}

/// The once-per-round jokers do not shrink the totals.
pub proof fn lemma_independent_pass_grows(
    tally: Tally,
    jokers: Seq<JokerCard>,
    from: int,
    upto: int,
    hands: Seq<PokerHand>,
    held: Seq<Card>,
    scored: Seq<Card>,
)
    requires
        0 <= from <= upto,
    ensures
        independent_pass(tally, jokers, from, hands, held, scored).within(
            independent_pass(tally, jokers, upto, hands, held, scored),
        ),
    decreases upto,
{
    if from < upto {
        lemma_independent_pass_grows(tally, jokers, from, upto - 1, hands, held, scored);
        lemma_independent_grows(
            independent_pass(tally, jokers, upto - 1, hands, held, scored),
            jokers[upto - 1],
            hands,
            held,
            scored,
            jokers.len(),
        );
    }
}

/// No stage of a round shrinks the totals: what does not fit after the base
/// value, after the scored cards or after the held cards does not fit at the
/// end.
pub proof fn lemma_round_total_grows(
    tally: Tally,
    best: PokerHand,
    hands: Seq<PokerHand>,
    scored: Seq<Card>,
    held: Seq<Card>,
    jokers: Seq<JokerCard>,
)
    ensures
        tally.within(round_total(tally, best, hands, scored, held, jokers)),
        base_value(tally, best).within(round_total(tally, best, hands, scored, held, jokers)),
        score_cards(base_value(tally, best), scored, scored.len() as int, jokers).within(
            round_total(tally, best, hands, scored, held, jokers),
        ),
        hold_cards(
            score_cards(base_value(tally, best), scored, scored.len() as int, jokers),
            held,
            held.len() as int,
            jokers,
        ).within(round_total(tally, best, hands, scored, held, jokers)),
{
    let based = base_value(tally, best);
    let played = score_cards(based, scored, scored.len() as int, jokers);
    let kept = hold_cards(played, held, held.len() as int, jokers);
    tally.lemma_plus_grows((best.base_chips(), Dyadic::from_int(best.base_mult())));
    lemma_score_cards_grows(based, scored, 0, scored.len() as int, jokers);
    lemma_hold_cards_grows(played, held, 0, held.len() as int, jokers);
    lemma_independent_pass_grows(kept, jokers, 0, jokers.len() as int, hands, held, scored);
}

impl Score {
    /// Classifies the played cards of the round and picks those that score.
    /// The totals start at nothing.
    pub fn new(round: Round) -> (s: Score)
        ensures
            s.tally() == Tally::zero(),
            s.poker_hands@ == classify(round.cards_played@),
            s.best_poker_hand == best_hand(round.cards_played@),
            s.scored_cards@ == scored_cards(round.cards_played@, s.best_poker_hand),
            s.cards_held_in_hand == round.cards_held_in_hand,
            s.jokers == round.jokers,
    {
        let poker_hands = PokerHand::recogonize(&round.cards_played);
        let best_poker_hand = if poker_hands.len() > 0 {
            poker_hands[0]
        } else {
            PokerHand::HighCard
        };
        let scored_cards = round.get_scored_cards(best_poker_hand);
        Score {
            mult: Mult::zero(),
            chips: 0,
            best_poker_hand,
            poker_hands,
            scored_cards,
            cards_held_in_hand: round.cards_held_in_hand,
            jokers: round.jokers,
            raised_first_triggered: false,
            photograph_triggered: false,
        }
    }

    /// Puts back totals that were saved before a stage that failed.
    fn restore(&mut self, chips: Chips, mult: Mult, photograph: bool, raised_fist: bool)
        ensures
            final(self).chips == chips,
            final(self).mult == mult,
            final(self).photograph_triggered == photograph,
            final(self).raised_first_triggered == raised_fist,
            final(self).same_round(old(self)),
    {
        self.chips = chips;
        self.mult = mult;
        self.photograph_triggered = photograph;
        self.raised_first_triggered = raised_fist;
    }

    /// The first joker of the round that has no scoring rule.
    pub fn unsupported_joker(&self) -> (joker: Option<Joker>)
        ensures
            joker == first_unsupported(self.jokers@),
    {
        let mut i: usize = 0;
        while i < self.jokers.len()
            invariant
                i <= self.jokers.len(),
                first_unsupported(self.jokers@) == unsupported_from(self.jokers@, i as int),
            decreases self.jokers.len() - i,
        {
            let card = self.jokers[i];
            if !(card.is_on_scored() || card.is_on_held() || card.is_dependent()) {
                return Some(card.joker);
            }
            i += 1;
        }
        None
    }

    /// Shows a scored card to the jokers of the per-scored-card class.
    #[verifier::loop_isolation(false)]
    fn run_on_scored(&mut self, card: &Card) -> (r: Result<(), ScoreError>)
        ensures
            match r {
                Ok(()) => final(self).tally() == on_scored_pass(
                    old(self).tally(),
                    old(self).jokers@,
                    old(self).jokers@.len() as int,
                    *card,
                ) && final(self).same_round(old(self)),
                Err(e) => e == ScoreError::Overflow && !on_scored_pass(
                    old(self).tally(),
                    old(self).jokers@,
                    old(self).jokers@.len() as int,
                    *card,
                ).fits() && *final(self) == *old(self),
            },
    {
        let ghost start = *self;
        let chips = self.chips;
        let mult = self.mult;
        let photograph = self.photograph_triggered;
        let raised_fist = self.raised_first_triggered;
        let mut i: usize = 0;
        while i < self.jokers.len()
            invariant
                i <= self.jokers.len(),
                self.same_round(&start),
                self.tally() == on_scored_pass(start.tally(), start.jokers@, i as int, *card),
            decreases self.jokers.len() - i,
        {
            let joker = self.jokers[i];
            if joker.is_on_scored() {
                if joker.apply_on_scored(self, card).is_err() {
                    proof {
                        lemma_on_scored_pass_grows(
                            start.tally(),
                            start.jokers@,
                            i + 1,
                            start.jokers@.len() as int,
                            *card,
                        );
                    }
                    self.restore(chips, mult, photograph, raised_fist);
                    return Err(ScoreError::Overflow);
                }
            }
            i += 1;
        }
        Ok(())
    }

    /// Scores one card: its chips, its enhancement, its edition, the jokers.
    fn play_card(&mut self, card: &Card) -> (r: Result<(), ScoreError>)
        ensures
            match r {
                Ok(()) => final(self).tally() == score_card(
                    old(self).tally(),
                    *card,
                    old(self).jokers@,
                ) && final(self).same_round(old(self)),
                Err(e) => e == ScoreError::Overflow && !score_card(
                    old(self).tally(),
                    *card,
                    old(self).jokers@,
                ).fits() && *final(self) == *old(self),
            },
    {
        let ghost start = *self;
        let chips = self.chips;
        let mult = self.mult;
        let photograph = self.photograph_triggered;
        let raised_fist = self.raised_first_triggered;
        proof {
            lemma_score_card_grows(start.tally(), *card, start.jokers@);
        }
        if self.add_chips(card.rank.rank_value()).is_err() {
            return Err(ScoreError::Overflow);
        }
        if card.enhancement.apply(self, false).is_err() {
            self.restore(chips, mult, photograph, raised_fist);
            return Err(ScoreError::Overflow);
        }
        if card.edition.apply(self).is_err() {
            self.restore(chips, mult, photograph, raised_fist);
            return Err(ScoreError::Overflow);
        }
        if self.run_on_scored(card).is_err() {
            self.restore(chips, mult, photograph, raised_fist);
            return Err(ScoreError::Overflow);
        }
        Ok(())
    }

    /// Scores the scored cards in order.
    #[verifier::loop_isolation(false)]
    fn play_cards(&mut self) -> (r: Result<(), ScoreError>)
        ensures
            match r {
                Ok(()) => final(self).tally() == score_cards(
                    old(self).tally(),
                    old(self).scored_cards@,
                    old(self).scored_cards@.len() as int,
                    old(self).jokers@,
                ) && final(self).same_round(old(self)),
                Err(e) => e == ScoreError::Overflow && !score_cards(
                    old(self).tally(),
                    old(self).scored_cards@,
                    old(self).scored_cards@.len() as int,
                    old(self).jokers@,
                ).fits() && *final(self) == *old(self),
            },
    {
        let ghost start = *self;
        let chips = self.chips;
        let mult = self.mult;
        let photograph = self.photograph_triggered;
        let raised_fist = self.raised_first_triggered;
        let mut i: usize = 0;
        while i < self.scored_cards.len()
            invariant
                i <= self.scored_cards.len(),
                self.same_round(&start),
                self.tally() == score_cards(
                    start.tally(),
                    start.scored_cards@,
                    i as int,
                    start.jokers@,
                ),
            decreases self.scored_cards.len() - i,
        {
            let card = self.scored_cards[i];
            if self.play_card(&card).is_err() {
                proof {
                    lemma_score_cards_grows(
                        start.tally(),
                        start.scored_cards@,
                        i + 1,
                        start.scored_cards@.len() as int,
                        start.jokers@,
                    );
                }
                self.restore(chips, mult, photograph, raised_fist);
                return Err(ScoreError::Overflow);
            }
            i += 1;
        }
        Ok(())
    }

    /// Shows a held card to the jokers of the per-held-card class.
    #[verifier::loop_isolation(false)]
    fn run_on_held(&mut self, card: &Card, is_last: bool) -> (r: Result<(), ScoreError>)
        ensures
            match r {
                Ok(()) => final(self).tally() == on_held_pass(
                    old(self).tally(),
                    old(self).jokers@,
                    old(self).jokers@.len() as int,
                    *card,
                    is_last,
                ) && final(self).same_round(old(self)),
                Err(e) => e == ScoreError::Overflow && !on_held_pass(
                    old(self).tally(),
                    old(self).jokers@,
                    old(self).jokers@.len() as int,
                    *card,
                    is_last,
                ).fits() && *final(self) == *old(self),
            },
    {
        let ghost start = *self;
        let chips = self.chips;
        let mult = self.mult;
        let photograph = self.photograph_triggered;
        let raised_fist = self.raised_first_triggered;
        let mut i: usize = 0;
        while i < self.jokers.len()
            invariant
                i <= self.jokers.len(),
                self.same_round(&start),
                self.tally() == on_held_pass(
                    start.tally(),
                    start.jokers@,
                    i as int,
                    *card,
                    is_last,
                ),
            decreases self.jokers.len() - i,
        {
            let joker = self.jokers[i];
            if joker.is_on_held() {
                if joker.apply_on_held(self, card, is_last).is_err() {
                    proof {
                        lemma_on_held_pass_grows(
                            start.tally(),
                            start.jokers@,
                            i + 1,
                            start.jokers@.len() as int,
                            *card,
                            is_last,
                        );
                    }
                    self.restore(chips, mult, photograph, raised_fist);
                    return Err(ScoreError::Overflow);
                }
            }
            i += 1;
        }
        Ok(())
    }

    /// Takes one held card into account: its enhancement, then the jokers.
    fn keep_card(&mut self, card: &Card, is_last: bool) -> (r: Result<(), ScoreError>)
        ensures
            match r {
                Ok(()) => final(self).tally() == hold_card(
                    old(self).tally(),
                    *card,
                    is_last,
                    old(self).jokers@,
                ) && final(self).same_round(old(self)),
                Err(e) => e == ScoreError::Overflow && !hold_card(
                    old(self).tally(),
                    *card,
                    is_last,
                    old(self).jokers@,
                ).fits() && *final(self) == *old(self),
            },
    {
        let ghost start = *self;
        let chips = self.chips;
        let mult = self.mult;
        let photograph = self.photograph_triggered;
        let raised_fist = self.raised_first_triggered;
        proof {
            lemma_hold_card_grows(start.tally(), *card, is_last, start.jokers@);
        }
        if card.enhancement.apply(self, true).is_err() {
            return Err(ScoreError::Overflow);
        }
        if self.run_on_held(card, is_last).is_err() {
            self.restore(chips, mult, photograph, raised_fist);
            return Err(ScoreError::Overflow);
        }
        Ok(())
    }

    /// Takes the held cards into account, in order.
    #[verifier::loop_isolation(false)]
    fn keep_cards(&mut self) -> (r: Result<(), ScoreError>)
        ensures
            match r {
                Ok(()) => final(self).tally() == hold_cards(
                    old(self).tally(),
                    old(self).cards_held_in_hand@,
                    old(self).cards_held_in_hand@.len() as int,
                    old(self).jokers@,
                ) && final(self).same_round(old(self)),
                Err(e) => e == ScoreError::Overflow && !hold_cards(
                    old(self).tally(),
                    old(self).cards_held_in_hand@,
                    old(self).cards_held_in_hand@.len() as int,
                    old(self).jokers@,
                ).fits() && *final(self) == *old(self),
            },
    {
        let ghost start = *self;
        let chips = self.chips;
        let mult = self.mult;
        let photograph = self.photograph_triggered;
        let raised_fist = self.raised_first_triggered;
        let len = self.cards_held_in_hand.len();
        let mut i: usize = 0;
        while i < len
            invariant
                i <= len,
                len == self.cards_held_in_hand.len(),
                self.same_round(&start),
                self.tally() == hold_cards(
                    start.tally(),
                    start.cards_held_in_hand@,
                    i as int,
                    start.jokers@,
                ),
            decreases len - i,
        {
            let card = self.cards_held_in_hand[i];
            let is_last = i == len - 1;
            if self.keep_card(&card, is_last).is_err() {
                proof {
                    lemma_hold_cards_grows(
                        start.tally(),
                        start.cards_held_in_hand@,
                        i + 1,
                        len as int,
                        start.jokers@,
                    );
                }
                self.restore(chips, mult, photograph, raised_fist);
                return Err(ScoreError::Overflow);
            }
            i += 1;
        }
        Ok(())
    }

    /// Applies the once-per-round jokers, in order.
    #[verifier::loop_isolation(false)]
    fn run_independent(&mut self) -> (r: Result<(), ScoreError>)
        ensures
            match r {
                Ok(()) => final(self).tally() == independent_pass(
                    old(self).tally(),
                    old(self).jokers@,
                    old(self).jokers@.len() as int,
                    old(self).poker_hands@,
                    old(self).cards_held_in_hand@,
                    old(self).scored_cards@,
                ) && final(self).same_round(old(self)),
                Err(e) => e == ScoreError::Overflow && !independent_pass(
                    old(self).tally(),
                    old(self).jokers@,
                    old(self).jokers@.len() as int,
                    old(self).poker_hands@,
                    old(self).cards_held_in_hand@,
                    old(self).scored_cards@,
                ).fits() && *final(self) == *old(self),
            },
    {
        let ghost start = *self;
        let chips = self.chips;
        let mult = self.mult;
        let photograph = self.photograph_triggered;
        let raised_fist = self.raised_first_triggered;
        let mut i: usize = 0;
        while i < self.jokers.len()
            invariant
                i <= self.jokers.len(),
                self.same_round(&start),
                self.tally() == independent_pass(
                    start.tally(),
                    start.jokers@,
                    i as int,
                    start.poker_hands@,
                    start.cards_held_in_hand@,
                    start.scored_cards@,
                ),
            decreases self.jokers.len() - i,
        {
            let joker = self.jokers[i];
            if joker.is_dependent() {
                if joker.apply_independent(self).is_err() {
                    proof {
                        lemma_independent_pass_grows(
                            start.tally(),
                            start.jokers@,
                            i + 1,
                            start.jokers@.len() as int,
                            start.poker_hands@,
                            start.cards_held_in_hand@,
                            start.scored_cards@,
                        );
                    }
                    self.restore(chips, mult, photograph, raised_fist);
                    return Err(ScoreError::Overflow);
                }
            }
            i += 1;
        }
        Ok(())
    }

    /// Runs the round: the base value of the strongest category, the scored
    /// cards, the held cards, the once-per-round jokers.
    ///
    /// A joker without a scoring rule stops the run before anything is
    /// counted; the first such joker of the list is named. Totals that
    /// outgrow their types stop it too. A run that stops leaves the state as
    /// it was.
    pub fn calculate_score(&mut self) -> (r: Result<(), ScoreError>)
        ensures
            match r {
                Ok(()) => first_unsupported(old(self).jokers@).is_none() && final(self).tally()
                    == round_total(
                    old(self).tally(),
                    old(self).best_poker_hand,
                    old(self).poker_hands@,
                    old(self).scored_cards@,
                    old(self).cards_held_in_hand@,
                    old(self).jokers@,
                ) && final(self).same_round(old(self)),
                Err(e) => *final(self) == *old(self) && match first_unsupported(
                    old(self).jokers@,
                ) {
                    Some(joker) => e == ScoreError::UnsupportedJoker(joker),
                    None => e == ScoreError::Overflow && !round_total(
                        old(self).tally(),
                        old(self).best_poker_hand,
                        old(self).poker_hands@,
                        old(self).scored_cards@,
                        old(self).cards_held_in_hand@,
                        old(self).jokers@,
                    ).fits(),
                },
            },
    {
        if let Some(joker) = self.unsupported_joker() {
            return Err(ScoreError::UnsupportedJoker(joker));
        }
        let ghost start = *self;
        let chips = self.chips;
        let mult = self.mult;
        let photograph = self.photograph_triggered;
        let raised_fist = self.raised_first_triggered;
        proof {
            lemma_round_total_grows(
                start.tally(),
                start.best_poker_hand,
                start.poker_hands@,
                start.scored_cards@,
                start.cards_held_in_hand@,
                start.jokers@,
            );
        }
        let (base_chips, base_mult) = self.best_poker_hand.hand_value();
        if self.add_delta(base_chips, base_mult).is_err() {
            return Err(ScoreError::Overflow);
        }
        if self.play_cards().is_err() {
            self.restore(chips, mult, photograph, raised_fist);
            return Err(ScoreError::Overflow);
        }
        if self.keep_cards().is_err() {
            self.restore(chips, mult, photograph, raised_fist);
            return Err(ScoreError::Overflow);
        }
        if self.run_independent().is_err() {
            self.restore(chips, mult, photograph, raised_fist);
            return Err(ScoreError::Overflow);
        }
        Ok(())
    }
}

/// Scores a round: the chips and the multiplier that it ends with. Their
/// product, rounded down, is the score.
pub fn score(round: Round) -> (r: Result<(Chips, Mult), ScoreError>)
    ensures
        match r {
            Ok(totals) => first_unsupported(round.jokers@).is_none() && totals.0 == round_score(
                round.cards_played@,
                round.cards_held_in_hand@,
                round.jokers@,
            ).chips && totals.1@ == round_score(
                round.cards_played@,
                round.cards_held_in_hand@,
                round.jokers@,
            ).mult,
            Err(e) => match first_unsupported(round.jokers@) {
                Some(joker) => e == ScoreError::UnsupportedJoker(joker),
                None => e == ScoreError::Overflow && !round_score(
                    round.cards_played@,
                    round.cards_held_in_hand@,
                    round.jokers@,
                ).fits(),
            },
        },
{
    let mut state = Score::new(round);
    match state.calculate_score() {
        Ok(()) => Ok((state.chips, state.mult)),
        Err(e) => Err(e),
    }
}

} // verus!
