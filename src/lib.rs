//! Poker-hand classification and scoring over a standard 52-card deck.
//!
//! Cards, hands and the deck live in `cards`; `cardset` is a bitmask set of cards;
//! `hand_evaluator` classifies up to five cards into the strongest hand category;
//! `scorer` scores a classified hand. The laws that the classification obeys are proved in
//! `hand_evaluator`, `round_trip` and `sort_facts`.
pub mod cards;
pub mod cardset;
pub mod error;
pub mod hand_evaluator;
pub mod notation;
pub mod prelude;
pub mod round_trip;
pub mod scorer;
pub mod sort_facts;
