//! The items that callers of the library use most.
pub use crate::cards::{Card, CardCollection, CardView, Deck, Hand, HandKind, Rank, Suit};
pub use crate::cardset::CardSet;
pub use crate::error::Error;
pub use crate::hand_evaluator::{HandEvaluator, Options};
pub use crate::scorer::Scorer;
