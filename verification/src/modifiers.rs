//! Applying editions and enhancements to the running totals.

use vstd::prelude::*;

use crate::error::ScoreError;
use crate::getters::{
    edition_delta,
    enhancement_delta,
    EditionValueGetter,
    EnhancementValueGetter,
};
use crate::score::{Score, Tally};
use crate::types::{Edition, Enhancement};

verus! {

/// The totals after an edition, if there is one. A polychrome edition is
/// taken against the multiplier as it stands.
pub open spec fn edition_effect(tally: Tally, edition: Option<Edition>) -> Tally {
    match edition {
        Some(e) => tally.plus(edition_delta(e, tally.mult)),
        None => tally,
    }
}

/// The totals after an enhancement, if there is one, on a held card or on a
/// scored one. Glass and steel are taken against the multiplier as it stands.
pub open spec fn enhancement_effect(
    tally: Tally,
    enhancement: Option<Enhancement>,
    held: bool,
) -> Tally {
    match enhancement {
        Some(e) => tally.plus(enhancement_delta(e, tally.mult, held)),
        None => tally,
    }
}

/// An edition does not shrink the totals.
pub proof fn lemma_edition_grows(tally: Tally, edition: Option<Edition>)
    ensures
        tally.within(edition_effect(tally, edition)),
{
    if let Some(e) = edition {
        tally.lemma_plus_grows(edition_delta(e, tally.mult));
    }
}

/// An enhancement does not shrink the totals.
pub proof fn lemma_enhancement_grows(tally: Tally, enhancement: Option<Enhancement>, held: bool)
    ensures
        tally.within(enhancement_effect(tally, enhancement, held)),
{
    if let Some(e) = enhancement {
        tally.lemma_plus_grows(enhancement_delta(e, tally.mult, held));
    }
}

pub trait EditionUtils {
    /// Applies the edition, if there is one, to the running totals.
    fn apply(&self, s: &mut Score) -> Result<(), ScoreError>;
}

impl EditionUtils for Option<Edition> {
    fn apply(&self, s: &mut Score) -> (r: Result<(), ScoreError>)
        ensures
            match r {
                Ok(()) => final(s).tally() == edition_effect(old(s).tally(), *self)
                    && final(s).same_round(old(s)),
                Err(e) => e == ScoreError::Overflow && !edition_effect(old(s).tally(), *self).fits()
                    && *final(s) == *old(s),
            },
    {
        match self {
            Some(e) => {
                proof {
                    s.tally().lemma_plus_grows(edition_delta(*e, s.mult@));
                }
                match e.eidtion_value(s.mult) {
                    Ok((chips, mult)) => s.add_delta(chips, mult),
                    Err(_) => Err(ScoreError::Overflow),
                }
            },
            None => Ok(()),
        }
    }
}

pub trait EnhancementUtils {
    /// Applies the enhancement, if there is one, to the running totals.
    fn apply(&self, s: &mut Score, is_held_in_hand: bool) -> Result<(), ScoreError>;
}

impl EnhancementUtils for Option<Enhancement> {
    fn apply(&self, s: &mut Score, is_held_in_hand: bool) -> (r: Result<(), ScoreError>)
        ensures
            match r {
                Ok(()) => final(s).tally() == enhancement_effect(
                    old(s).tally(),
                    *self,
                    is_held_in_hand,
                ) && final(s).same_round(old(s)),
                Err(e) => e == ScoreError::Overflow && !enhancement_effect(
                    old(s).tally(),
                    *self,
                    is_held_in_hand,
                ).fits() && *final(s) == *old(s),
            },
    {
        match self {
            Some(e) => {
                proof {
                    s.tally().lemma_plus_grows(enhancement_delta(*e, s.mult@, is_held_in_hand));
                }
                match e.enhancement_value(s.mult, is_held_in_hand) {
                    Ok((chips, mult)) => s.add_delta(chips, mult),
                    Err(_) => Err(ScoreError::Overflow),
                }
            },
            None => Ok(()),
        }
    }
}

} // verus!
