//! The library's error type.
use vstd::prelude::*;

verus! {

/// Failures that the card containers report.
#[derive(Copy, Clone, Debug, PartialEq, Eq, Structural)]
pub enum Error {
    /// A hand can hold at most five cards.
    OverfullHand,
}

impl Error {
    /// A human-readable description of the error.
    pub fn message(&self) -> (r: &'static str) {
        match self {
            Error::OverfullHand => "a hand can have a maximum of 5 cards",
        }
    }
}

} // verus!
