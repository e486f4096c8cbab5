//! The ways in which a scoring run can fail.

use vstd::prelude::*;

use crate::types::Joker;

verus! {

/// Why a round could not be scored.
#[derive(Clone, Copy, PartialEq, Eq, Structural, Debug, Hash)]
pub enum ScoreError {
    /// The joker is in the catalogue but has no scoring rule, or was asked
    /// for an effect outside its trigger class.
    UnsupportedJoker(Joker),
    /// The chips or the multiplier grew beyond what their types hold.
    Overflow,
}

} // verus!
