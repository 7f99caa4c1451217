//! Scores a classified hand: (base chips + chips of each card) x base multiplier.
use vstd::prelude::*;

use crate::cards::{Card, CardView, Hand, HandKind, Rank};

verus! {

/// The base chips of each category.
pub open spec fn base_chips(k: HandKind) -> nat {
    match k {
        HandKind::HighCard => 5,
        HandKind::Pair => 10,
        HandKind::TwoPair => 20,
        HandKind::ThreeOfAKind => 30,
        HandKind::Straight => 30,
        HandKind::Flush => 35,
        HandKind::FullHouse => 40,
        HandKind::FourOfAKind => 60,
        HandKind::StraightFlush => 100,
        HandKind::FiveOfAKind => 120,
        HandKind::FlushHouse => 140,
        HandKind::FlushFive => 160,
    }
}

/// The base multiplier of each category.
pub open spec fn base_mult(k: HandKind) -> nat {
    match k {
        HandKind::HighCard => 1,
        HandKind::Pair => 2,
        HandKind::TwoPair => 2,
        HandKind::ThreeOfAKind => 3,
        HandKind::Straight => 4,
        HandKind::Flush => 4,
        HandKind::FullHouse => 4,
        HandKind::FourOfAKind => 7,
        HandKind::StraightFlush => 8,
        HandKind::FiveOfAKind => 12,
        HandKind::FlushHouse => 14,
        HandKind::FlushFive => 16,
    }
}

/// The chips that a card of each rank adds.
pub open spec fn rank_chips(r: Rank) -> nat {
    match r {
        Rank::Deuce => 2,
        Rank::Three => 3,
        Rank::Four => 4,
        Rank::Five => 5,
        Rank::Six => 6,
        Rank::Seven => 7,
        Rank::Eight => 8,
        Rank::Nine => 9,
        Rank::Ten => 10,
        Rank::Jack => 10,
        Rank::Queen => 10,
        Rank::King => 10,
        Rank::Ace => 11,
    }
}

/// The chips that the cards of `s` add together.
pub open spec fn cards_chips(s: Seq<Card>) -> nat
    decreases s.len(),
{
    if s.len() == 0 {
        0
    } else {
        cards_chips(s.drop_last()) + rank_chips(s.last().rank)
    }
}

/// The score of category `k` with qualifying cards `s`.
pub open spec fn score_of(k: HandKind, s: Seq<Card>) -> nat {
    (base_chips(k) + cards_chips(s)) * base_mult(k)
}

fn hand_base_chips(k: HandKind) -> (r: u64)
    ensures
        r == base_chips(k),
{
    match k {
        HandKind::HighCard => 5,
        HandKind::Pair => 10,
        HandKind::TwoPair => 20,
        HandKind::ThreeOfAKind => 30,
        HandKind::Straight => 30,
        HandKind::Flush => 35,
        HandKind::FullHouse => 40,
        HandKind::FourOfAKind => 60,
        HandKind::StraightFlush => 100,
        HandKind::FiveOfAKind => 120,
        HandKind::FlushHouse => 140,
        HandKind::FlushFive => 160,
    }
}

fn hand_base_mult(k: HandKind) -> (r: u64)
    ensures
        r == base_mult(k),
{
    match k {
        HandKind::HighCard => 1,
        HandKind::Pair => 2,
        HandKind::TwoPair => 2,
        HandKind::ThreeOfAKind => 3,
        HandKind::Straight => 4,
        HandKind::Flush => 4,
        HandKind::FullHouse => 4,
        HandKind::FourOfAKind => 7,
        HandKind::StraightFlush => 8,
        HandKind::FiveOfAKind => 12,
        HandKind::FlushHouse => 14,
        HandKind::FlushFive => 16,
    }
}

fn card_rank_chips(r: Rank) -> (c: u64)
    ensures
        c == rank_chips(r),
        c <= 11,
{
    match r {
        Rank::Deuce => 2,
        Rank::Three => 3,
        Rank::Four => 4,
        Rank::Five => 5,
        Rank::Six => 6,
        Rank::Seven => 7,
        Rank::Eight => 8,
        Rank::Nine => 9,
        Rank::Ten => 10,
        Rank::Jack => 10,
        Rank::Queen => 10,
        Rank::King => 10,
        Rank::Ace => 11,
    }
}

/// Scores one category together with its qualifying hand.
pub struct Scorer<'a> {
    kind: HandKind,
    hand: &'a Hand,
}

impl<'a> Scorer<'a> {
    fn new(kind: HandKind, hand: &'a Hand) -> (r: Self)
        ensures
            r.kind == kind,
            r.hand == hand,
    {
        Scorer { kind, hand }
    }

    fn score(&self) -> (r: u64)
        ensures
            r == score_of(self.kind, self.hand.card_seq()),
    {
        let n = self.hand.len();
        let cards = self.hand.view();
        let ghost s = cards@;
        let mut chips = hand_base_chips(self.kind);
        let mult = hand_base_mult(self.kind);
        let mut i: usize = 0;
        while i < n
            invariant
                s == cards@,
                n == s.len(),
                n <= 5,
                i <= n,
                chips == base_chips(self.kind) + cards_chips(s.subrange(0, i as int)),
                chips <= 160 + 11 * i,
            decreases n - i,
        {
            assert(s.subrange(0, i + 1).drop_last() =~= s.subrange(0, i as int));
            chips += card_rank_chips(cards[i].rank);
            i += 1;
        }
        assert(s.subrange(0, i as int) =~= s);
        assert(chips * mult <= 215 * 16) by (nonlinear_arith)
            requires
                chips <= 215,
                mult <= 16,
        ;
        chips * mult
    }

    /// The score of `kind` with qualifying cards `hand`.
    pub fn score_hand(kind: HandKind, hand: &'a Hand) -> (r: u64)
        ensures
            r == score_of(kind, hand.card_seq()),
    {
        let scorer = Self::new(kind, hand);
        scorer.score()
    }
}

} // verus!
