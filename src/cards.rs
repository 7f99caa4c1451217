//! Card values: suits, ranks, cards, hands, collections and the deck.
use vstd::prelude::*;

use rand::rngs::SmallRng;
use rand::seq::SliceRandom;

use crate::error::Error;

verus! {

/// One of the four suits, ordered Spades < Clubs < Hearts < Diamonds.
#[derive(Copy, Clone, Debug, Hash, PartialEq, Eq, Structural, PartialOrd, Ord)]
pub enum Suit {
    Spades,
    Clubs,
    Hearts,
    Diamonds,
}

/// One of the thirteen ranks, ordered by face strength from Deuce to Ace.
#[derive(Copy, Clone, Debug, Hash, PartialEq, Eq, Structural, PartialOrd, Ord)]
pub enum Rank {
    Deuce,
    Three,
    Four,
    Five,
    Six,
    Seven,
    Eight,
    Nine,
    Ten,
    Jack,
    Queen,
    King,
    Ace,
}

impl Suit {
    /// The suit's ordinal, 0 to 3.
    pub open spec fn ord(self) -> int {
        match self {
            Suit::Spades => 0,
            Suit::Clubs => 1,
            Suit::Hearts => 2,
            Suit::Diamonds => 3,
        }
    }

    /// The suit with ordinal `i`.
    pub open spec fn from_ord(i: int) -> Suit {
        if i == 0 {
            Suit::Spades
        } else if i == 1 {
            Suit::Clubs
        } else if i == 2 {
            Suit::Hearts
        } else {
            Suit::Diamonds
        }
    }

    /// The ordinal, for indexing.
    pub fn index(self) -> (r: usize)
        ensures
            r as int == self.ord(),
    {
        match self {
            Suit::Spades => 0,
            Suit::Clubs => 1,
            Suit::Hearts => 2,
            Suit::Diamonds => 3,
        }
    }

    /// All four suits in ascending order.
    pub fn all() -> (r: Vec<Suit>)
        ensures
            r@.len() == 4,
            forall|i: int| 0 <= i < 4 ==> (#[trigger] r@[i]).ord() == i,
    {
        vec![Suit::Spades, Suit::Clubs, Suit::Hearts, Suit::Diamonds]
    }
}

impl Rank {
    /// The rank's ordinal, 0 (Deuce) to 12 (Ace).
    pub open spec fn ord(self) -> int {
        match self {
            Rank::Deuce => 0,
            Rank::Three => 1,
            Rank::Four => 2,
            Rank::Five => 3,
            Rank::Six => 4,
            Rank::Seven => 5,
            Rank::Eight => 6,
            Rank::Nine => 7,
            Rank::Ten => 8,
            Rank::Jack => 9,
            Rank::Queen => 10,
            Rank::King => 11,
            Rank::Ace => 12,
        }
    }

    /// The rank with ordinal `i`.
    pub open spec fn from_ord(i: int) -> Rank {
        if i == 0 {
            Rank::Deuce
        } else if i == 1 {
            Rank::Three
        } else if i == 2 {
            Rank::Four
        } else if i == 3 {
            Rank::Five
        } else if i == 4 {
            Rank::Six
        } else if i == 5 {
            Rank::Seven
        } else if i == 6 {
            Rank::Eight
        } else if i == 7 {
            Rank::Nine
        } else if i == 8 {
            Rank::Ten
        } else if i == 9 {
            Rank::Jack
        } else if i == 10 {
            Rank::Queen
        } else if i == 11 {
            Rank::King
        } else {
            Rank::Ace
        }
    }

    /// The ordinal, for indexing.
    pub fn index(self) -> (r: usize)
        ensures
            r as int == self.ord(),
    {
        match self {
            Rank::Deuce => 0,
            Rank::Three => 1,
            Rank::Four => 2,
            Rank::Five => 3,
            Rank::Six => 4,
            Rank::Seven => 5,
            Rank::Eight => 6,
            Rank::Nine => 7,
            Rank::Ten => 8,
            Rank::Jack => 9,
            Rank::Queen => 10,
            Rank::King => 11,
            Rank::Ace => 12,
        }
    }

    /// All thirteen ranks in ascending order.
    pub fn all() -> (r: Vec<Rank>)
        ensures
            r@.len() == 13,
            forall|i: int| 0 <= i < 13 ==> (#[trigger] r@[i]).ord() == i,
    {
        vec![
            Rank::Deuce,
            Rank::Three,
            Rank::Four,
            Rank::Five,
            Rank::Six,
            Rank::Seven,
            Rank::Eight,
            Rank::Nine,
            Rank::Ten,
            Rank::Jack,
            Rank::Queen,
            Rank::King,
            Rank::Ace,
        ]
    }
}

/// A playing card; cards compare by rank first, then by suit.
#[derive(Copy, Clone, Debug, Hash, PartialEq, Eq, Structural, PartialOrd, Ord)]
pub struct Card {
    pub rank: Rank,
    pub suit: Suit,
}

impl Card {
    /// The card's position in the (rank, suit) order, 0 to 51.
    pub open spec fn key(self) -> int {
        self.rank.ord() * 4 + self.suit.ord()
    }

    /// The card's position in the (rank, suit) order.
    pub fn sort_key(self) -> (r: usize)
        ensures
            r as int == self.key(),
    {
        self.rank.index() * 4 + self.suit.index()
    }
}

/// The twelve hand categories, from weakest to strongest.
#[derive(Copy, Clone, Debug, Hash, PartialEq, Eq, Structural, PartialOrd, Ord)]
pub enum HandKind {
    HighCard,
    Pair,
    TwoPair,
    ThreeOfAKind,
    Straight,
    Flush,
    FullHouse,
    FourOfAKind,
    StraightFlush,
    FiveOfAKind,
    FlushHouse,
    FlushFive,
}

impl HandKind {
    /// The category's strength, 0 (HighCard) to 11 (FlushFive).
    pub open spec fn strength(self) -> int {
        match self {
            HandKind::HighCard => 0,
            HandKind::Pair => 1,
            HandKind::TwoPair => 2,
            HandKind::ThreeOfAKind => 3,
            HandKind::Straight => 4,
            HandKind::Flush => 5,
            HandKind::FullHouse => 6,
            HandKind::FourOfAKind => 7,
            HandKind::StraightFlush => 8,
            HandKind::FiveOfAKind => 9,
            HandKind::FlushHouse => 10,
            HandKind::FlushFive => 11,
        }
    }

    /// The strength, for indexing and comparing.
    pub fn index(self) -> (r: usize)
        ensures
            r as int == self.strength(),
    {
        match self {
            HandKind::HighCard => 0,
            HandKind::Pair => 1,
            HandKind::TwoPair => 2,
            HandKind::ThreeOfAKind => 3,
            HandKind::Straight => 4,
            HandKind::Flush => 5,
            HandKind::FullHouse => 6,
            HandKind::FourOfAKind => 7,
            HandKind::StraightFlush => 8,
            HandKind::FiveOfAKind => 9,
            HandKind::FlushHouse => 10,
            HandKind::FlushFive => 11,
        }
    }

    /// All twelve categories from weakest to strongest.
    pub fn all() -> (r: Vec<HandKind>)
        ensures
            r@.len() == 12,
            forall|i: int| 0 <= i < 12 ==> (#[trigger] r@[i]).strength() == i,
    {
        vec![
            HandKind::HighCard,
            HandKind::Pair,
            HandKind::TwoPair,
            HandKind::ThreeOfAKind,
            HandKind::Straight,
            HandKind::Flush,
            HandKind::FullHouse,
            HandKind::FourOfAKind,
            HandKind::StraightFlush,
            HandKind::FiveOfAKind,
            HandKind::FlushHouse,
            HandKind::FlushFive,
        ]
    }
}

/// Category strength orders the twelve categories strictly, in declaration order.
pub proof fn lemma_kind_order(a: HandKind, b: HandKind)
    ensures
        0 <= a.strength() < 12,
        a.strength() == b.strength() <==> a == b,
        a.strength() < b.strength() || a == b || b.strength() < a.strength(),
{
}

/// A read-only view of a container's cards, in order.
pub trait CardView {
    /// The cards held, in order.
    spec fn card_seq(&self) -> Seq<Card>;

    fn view(&self) -> (r: &[Card])
        ensures
            r@ == self.card_seq(),
    ;
}

/// The canonical 52 cards: the thirteen ranks of Spades, then of Clubs, Hearts, Diamonds.
pub open spec fn base_deck_seq() -> Seq<Card> {
    Seq::new(52, |i: int| Card { rank: Rank::from_ord(i % 13), suit: Suit::from_ord(i / 13) })
}

/// The first `n` cards taken from the top (the end) of `s`, in the order they are taken.
pub open spec fn drawn(s: Seq<Card>, n: int) -> Seq<Card> {
    Seq::new(n as nat, |i: int| s[s.len() - 1 - i])
}

/// rand's small, fast generator, carried through to the shuffle.
#[verifier::external_type_specification]
#[verifier::external_body]
pub struct ExSmallRng(SmallRng);

/// heapless's fixed-capacity vector, which backs a hand.
#[verifier::external_type_specification]
#[verifier::external_body]
#[verifier::reject_recursive_types(T)]
pub struct ExHeaplessVec<T, const N: usize>(heapless::Vec<T, N>);

/// heapless's Vec::clone, which the derived `Clone` of a hand calls; nothing is assumed of it.
pub assume_specification<T, const N: usize>[ <heapless::Vec<T, N> as Clone>::clone ](
    v: &heapless::Vec<T, N>,
) -> heapless::Vec<T, N>
    where
        T: Clone,
;

/// Relies on rand's SliceRandom::shuffle, which only swaps elements of the slice.
#[verifier::external_body]
fn shuffle_cards(cards: &mut Vec<Card>, rng: &mut SmallRng)
    ensures
        final(cards)@.to_multiset() == old(cards)@.to_multiset(),
{
    cards.shuffle(rng)
}

/// A mutable stack of cards whose top is the end of the sequence.
#[derive(Clone, Debug)]
pub struct Deck {
    cards: Vec<Card>,
}

impl Deck {
    /// The full 52-card deck in canonical order.
    pub fn base_deck() -> (r: Self)
        ensures
            r.card_seq() == base_deck_seq(),
    {
        let suits = Suit::all();
        let ranks = Rank::all();
        let mut cards: Vec<Card> = Vec::new();
        let mut s: usize = 0;
        while s < 4
            invariant
                s <= 4,
                suits@.len() == 4,
                ranks@.len() == 13,
                forall|i: int| 0 <= i < 4 ==> (#[trigger] suits@[i]).ord() == i,
                forall|i: int| 0 <= i < 13 ==> (#[trigger] ranks@[i]).ord() == i,
                cards@ == base_deck_seq().subrange(0, 13 * s as int),
            decreases 4 - s,
        {
            let mut r: usize = 0;
            while r < 13
                invariant
                    s < 4,
                    r <= 13,
                    suits@.len() == 4,
                    ranks@.len() == 13,
                    forall|i: int| 0 <= i < 4 ==> (#[trigger] suits@[i]).ord() == i,
                    forall|i: int| 0 <= i < 13 ==> (#[trigger] ranks@[i]).ord() == i,
                    cards@ == base_deck_seq().subrange(0, 13 * s + r),
                decreases 13 - r,
            {
                let c = Card { rank: ranks[r], suit: suits[s] };
                proof {
                    lemma_rank_from_ord(ranks@[r as int]);
                    lemma_suit_from_ord(suits@[s as int]);
                    assert(base_deck_seq()[13 * s + r] == c);
                    assert(base_deck_seq().subrange(0, 13 * s + r + 1) =~= base_deck_seq().subrange(
                        0,
                        13 * s + r,
                    ).push(c));
                }
                cards.push(c);
                r += 1;
            }
            s += 1;
        }
        Deck { cards }
    }

    /// Shuffles the deck in place.
    pub fn shuffle(&mut self, rng: &mut SmallRng)
        ensures
            final(self).card_seq().to_multiset() == old(self).card_seq().to_multiset(),
    {
        shuffle_cards(&mut self.cards, rng);
    }

    /// A full deck in shuffled order: exactly the 52 canonical cards, each once.
    pub fn shuffled(rng: &mut SmallRng) -> (r: Self)
        ensures
            r.card_seq().to_multiset() == base_deck_seq().to_multiset(),
            r.card_seq().len() == 52,
            r.card_seq().no_duplicates(),
            forall|c: Card| #[trigger] r.card_seq().contains(c),
    {
        let mut deck = Self::base_deck();
        deck.shuffle(rng);
        proof {
            lemma_permutation_of_base_deck(deck.card_seq());
        }
        deck
    }

    /// The top card, if any, without removing it.
    pub fn peek_top_card(&self) -> (r: Option<Card>)
        ensures
            r == (if self.card_seq().len() == 0 {
                None
            } else {
                Some(self.card_seq().last())
            }),
    {
        if self.cards.len() == 0 {
            None
        } else {
            Some(self.cards[self.cards.len() - 1])
        }
    }

    /// Removes and returns the top card; an empty deck gives `None` and stays empty.
    pub fn draw(&mut self) -> (r: Option<Card>)
        ensures
            old(self).card_seq().len() == 0 ==> r == None::<Card> && final(self).card_seq()
                == old(self).card_seq(),
            old(self).card_seq().len() > 0 ==> r == Some(old(self).card_seq().last())
                && final(self).card_seq() == old(self).card_seq().drop_last(),
    {
        if self.count() == 0 {
            None
        } else {
            let n = self.count() - 1;
            Some(self.cards.remove(n))
        }
    }

    /// Draws `n` cards from the top, or none (deck unchanged) when fewer than `n` remain.
    pub fn draw_n(&mut self, n: usize) -> (r: Option<CardCollection>)
        ensures
            old(self).card_seq().len() < n ==> r.is_none() && final(self).card_seq() == old(
                self,
            ).card_seq(),
            old(self).card_seq().len() >= n ==> r.is_some() && r.unwrap().card_seq() == drawn(
                old(self).card_seq(),
                n as int,
            ) && final(self).card_seq() == old(self).card_seq().subrange(
                0,
                old(self).card_seq().len() - n,
            ),
    {
        if self.count() < n {
            None
        } else {
            let ghost start = self.cards@;
            let mut cards: Vec<Card> = Vec::new();
            let mut i: usize = 0;
            while i < n
                invariant
                    i <= n <= start.len(),
                    self.cards@ == start.subrange(0, start.len() - i),
                    cards@ == drawn(start, i as int),
                decreases n - i,
            {
                let c = self.draw();
                proof {
                    assert(start.subrange(0, start.len() - i).drop_last() =~= start.subrange(
                        0,
                        start.len() - i - 1,
                    ));
                }
                cards.push(c.unwrap());
                proof {
                    assert(cards@ =~= drawn(start, i + 1));
                }
                i += 1;
            }
            Some(CardCollection { cards })
        }
    }

    /// Draws five cards into a hand, or none (deck unchanged) when fewer than five remain.
    pub fn draw_hand(&mut self) -> (r: Option<Hand>)
        ensures
            old(self).card_seq().len() < 5 ==> r.is_none() && final(self).card_seq() == old(
                self,
            ).card_seq(),
            old(self).card_seq().len() >= 5 ==> r.is_some() && r.unwrap().card_seq() == drawn(
                old(self).card_seq(),
                5,
            ) && final(self).card_seq() == old(self).card_seq().subrange(
                0,
                old(self).card_seq().len() - 5,
            ),
    {
        match self.draw_n(5) {
            None => None,
            Some(coll) => Some(Hand::from_five(coll.view())),
        }
    }

    /// The number of cards left.
    pub fn count(&self) -> (r: usize)
        ensures
            r == self.card_seq().len(),
    {
        self.cards.len()
    }
}

impl CardView for Deck {
    closed spec fn card_seq(&self) -> Seq<Card> {
        self.cards@
    }

    fn view(&self) -> (r: &[Card]) {
        self.cards.as_slice()
    }
}

/// The cards that a fixed-capacity hand buffer holds.
pub uninterp spec fn buffer_cards(b: heapless::Vec<Card, 5>) -> Seq<Card>;

/// Relies on heapless::Vec::from_slice: it fails when the slice is longer than the
/// capacity of five, and otherwise holds a copy of the slice.
#[verifier::external_body]
fn buffer_from_slice(cards: &[Card]) -> (r: Result<heapless::Vec<Card, 5>, ()>)
    ensures
        cards@.len() <= 5 ==> r.is_ok() && buffer_cards(r.unwrap()) == cards@,
        cards@.len() > 5 ==> r.is_err(),
{
    heapless::Vec::from_slice(cards)
}

/// Relies on heapless::Vec::as_slice: the cards held, in order.
#[verifier::external_body]
fn buffer_as_slice(b: &heapless::Vec<Card, 5>) -> (r: &[Card])
    ensures
        r@ == buffer_cards(*b),
        r@.len() <= 5,
{
    b.as_slice()
}

/// An ordered hand of at most five cards.
#[derive(Clone, Debug)]
pub struct Hand {
    cards: heapless::Vec<Card, 5>,
}

impl Hand {
    /// A hand with no cards.
    pub fn empty() -> (r: Self)
        ensures
            r.card_seq() == Seq::<Card>::empty(),
    {
        let v: Vec<Card> = Vec::new();
        Self::from_five(v.as_slice())
    }

    /// A hand holding a copy of `cards`, which has at most five cards.
    pub(crate) fn from_five(cards: &[Card]) -> (r: Self)
        requires
            cards@.len() <= 5,
        ensures
            r.card_seq() == cards@,
    {
        Hand { cards: buffer_from_slice(cards).unwrap() }
    }

    /// A hand holding a copy of `cards`; more than five cards are refused.
    pub fn from_slice(cards: &[Card]) -> (r: Result<Self, Error>)
        ensures
            cards@.len() <= 5 ==> r.is_ok() && r.unwrap().card_seq() == cards@,
            cards@.len() > 5 ==> r == Err::<Self, Error>(Error::OverfullHand),
    {
        match buffer_from_slice(cards) {
            Ok(b) => Ok(Hand { cards: b }),
            Err(_) => Err(Error::OverfullHand),
        }
    }

    /// The number of cards held.
    pub fn len(&self) -> (r: usize)
        ensures
            r == self.card_seq().len(),
            r <= 5,
    {
        buffer_as_slice(&self.cards).len()
    }
}

impl CardView for Hand {
    closed spec fn card_seq(&self) -> Seq<Card> {
        buffer_cards(self.cards)
    }

    fn view(&self) -> (r: &[Card]) {
        buffer_as_slice(&self.cards)
    }
}

impl PartialEq for Hand {
    fn eq(&self, other: &Hand) -> (r: bool) {
        let a = self.view();
        let b = other.view();
        if a.len() != b.len() {
            return false;
        }
        let mut i: usize = 0;
        while i < a.len()
            invariant
                a@.len() == b@.len(),
                i <= a@.len(),
                a@ == self.card_seq(),
                b@ == other.card_seq(),
                a@.subrange(0, i as int) == b@.subrange(0, i as int),
            decreases a@.len() - i,
        {
            if a[i] != b[i] {
                assert(a@[i as int] != b@[i as int]);
                return false;
            }
            assert(a@.subrange(0, i + 1) =~= a@.subrange(0, i as int).push(a@[i as int]));
            assert(b@.subrange(0, i + 1) =~= b@.subrange(0, i as int).push(b@[i as int]));
            i += 1;
        }
        assert(a@ =~= a@.subrange(0, i as int));
        assert(b@ =~= b@.subrange(0, i as int));
        true
    }
}

impl vstd::std_specs::cmp::PartialEqSpecImpl for Hand {
    open spec fn obeys_eq_spec() -> bool {
        true
    }

    open spec fn eq_spec(&self, other: &Hand) -> bool {
        self.card_seq() == other.card_seq()
    }
}

/// An ordered group of cards with no bound on its length.
#[derive(Clone, Debug)]
pub struct CardCollection {
    cards: Vec<Card>,
}

impl CardCollection {
    /// A collection with no cards.
    pub fn empty() -> (r: Self)
        ensures
            r.card_seq() == Seq::<Card>::empty(),
    {
        CardCollection { cards: Vec::new() }
    }

    /// A collection holding a copy of `cards`.
    pub fn from_cards(cards: &[Card]) -> (r: Self)
        ensures
            r.card_seq() == cards@,
    {
        let mut v: Vec<Card> = Vec::new();
        let mut i: usize = 0;
        while i < cards.len()
            invariant
                i <= cards@.len(),
                v@ == cards@.subrange(0, i as int),
            decreases cards@.len() - i,
        {
            v.push(cards[i]);
            assert(v@ =~= cards@.subrange(0, i + 1));
            i += 1;
        }
        assert(v@ =~= cards@);
        CardCollection { cards: v }
    }

    /// The card at position `n`, if there is one.
    pub fn nth(&self, n: usize) -> (r: Option<Card>)
        ensures
            r == (if n < self.card_seq().len() {
                Some(self.card_seq()[n as int])
            } else {
                None
            }),
    {
        if n < self.cards.len() {
            Some(self.cards[n])
        } else {
            None
        }
    }
}

impl CardView for CardCollection {
    closed spec fn card_seq(&self) -> Seq<Card> {
        self.cards@
    }

    fn view(&self) -> (r: &[Card]) {
        self.cards.as_slice()
    }
}

/// A rank is the rank of its own ordinal.
pub proof fn lemma_rank_from_ord(r: Rank)
    ensures
        Rank::from_ord(r.ord()) == r,
{
}

/// A suit is the suit of its own ordinal.
pub proof fn lemma_suit_from_ord(s: Suit)
    ensures
        Suit::from_ord(s.ord()) == s,
{
}

/// The canonical deck holds every card exactly once.
pub proof fn lemma_base_deck()
    ensures
        base_deck_seq().len() == 52,
        base_deck_seq().no_duplicates(),
        forall|c: Card| #[trigger] base_deck_seq().contains(c),
{
    let b = base_deck_seq();
    assert forall|i: int, j: int| 0 <= i < 52 && 0 <= j < 52 && i != j implies b[i] != b[j] by {
        if b[i] == b[j] {
            assert(Rank::from_ord(i % 13).ord() == i % 13);
            assert(Rank::from_ord(j % 13).ord() == j % 13);
            assert(Suit::from_ord(i / 13).ord() == i / 13);
            assert(Suit::from_ord(j / 13).ord() == j / 13);
        }
    }
    assert forall|c: Card| #[trigger] b.contains(c) by {
        let k = c.suit.ord() * 13 + c.rank.ord();
        lemma_rank_from_ord(c.rank);
        lemma_suit_from_ord(c.suit);
        assert(k % 13 == c.rank.ord() && k / 13 == c.suit.ord());
        assert(b[k] == c);
    }
}

/// Any reordering of the canonical deck holds the 52 canonical cards, each exactly once.
pub proof fn lemma_permutation_of_base_deck(s: Seq<Card>)
    requires
        s.to_multiset() == base_deck_seq().to_multiset(),
    ensures
        s.len() == 52,
        s.no_duplicates(),
        forall|c: Card| #[trigger] s.contains(c),
{
    broadcast use vstd::seq_lib::group_to_multiset_ensures;

    lemma_base_deck();
    s.to_multiset_ensures();
    base_deck_seq().to_multiset_ensures();
    base_deck_seq().lemma_multiset_has_no_duplicates();
    s.lemma_multiset_has_no_duplicates_conv();
    assert forall|c: Card| #[trigger] s.contains(c) by {
        assert(base_deck_seq().contains(c));
        assert(base_deck_seq().to_multiset().contains(c));
    }
}

/// Drawing every card of a shuffled deck gives 52 distinct cards and empties the deck.
pub proof fn lemma_draw_whole_deck(s: Seq<Card>)
    requires
        s.to_multiset() == base_deck_seq().to_multiset(),
    ensures
        drawn(s, s.len() as int).len() == 52,
        drawn(s, s.len() as int).no_duplicates(),
        s.subrange(0, s.len() - 52).len() == 0,
{
    lemma_permutation_of_base_deck(s);
    let d = drawn(s, 52);
    assert forall|i: int, j: int| 0 <= i < 52 && 0 <= j < 52 && i != j implies d[i] != d[j] by {
        assert(d[i] == s[51 - i] && d[j] == s[51 - j]);
    }
}

} // verus!
