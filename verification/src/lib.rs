//! Exact scoring of one round of a card-matching game.
//!
//! A round is a hand of played cards, the cards held back, and an ordered list
//! of jokers. The library classifies the played hand, selects the cards that
//! score, and applies enhancements, editions and jokers in a fixed order to a
//! running pair of chips and multiplier. All arithmetic is exact: chips are
//! integers and the multiplier is a dyadic rational. The score of the round
//! is the product of the two, rounded down.

pub mod card;
pub mod config;
pub mod error;
pub mod getters;
pub mod jokers;
pub mod laws;
pub mod modifiers;
pub mod mult;
pub mod poker_hand;
pub mod score;
pub mod types;
pub mod utils;

pub use card::CardUtils;
pub use config::{explain_enabled, init, ExplainMode};
pub use error::ScoreError;
pub use getters::{
    EditionValueGetter, EnhancementValueGetter, ScoredCardGetter, StraghtValueGetter,
};
pub use jokers::JokerUtils;
pub use modifiers::{EditionUtils, EnhancementUtils};
pub use mult::{Chips, Dyadic, Mult};
pub use poker_hand::{HandPokerRecognizer, PokerHandUtils};
pub use score::{score, Score, Tally};
pub use types::{Card, Edition, Enhancement, Joker, JokerCard, PokerHand, Rank, Round, Suit};
