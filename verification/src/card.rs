//! Card predicates.

use vstd::prelude::*;

use crate::types::{Card, Enhancement};

verus! {

pub trait CardUtils {
    /// Whether the card counts as every suit.
    spec fn wild(&self) -> bool;

    fn is_wild(&self) -> (b: bool)
        ensures
            b == self.wild(),
    ;
}

impl CardUtils for Card {
    open spec fn wild(&self) -> bool {
        self.enhancement == Some(Enhancement::Wild)
    }

    fn is_wild(&self) -> (b: bool) {
        match self.enhancement {
            Some(Enhancement::Wild) => true,
            _ => false,
        }
    }
}

} // verus!
