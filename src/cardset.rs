//! A 64-bit membership mask over cards: one 16-bit lane per suit, one bit per rank.
use vstd::prelude::*;

use crate::cards::{base_deck_seq, lemma_base_deck, lemma_suit_from_ord, Card, CardView, Rank, Suit};

verus! {

pub const SPADES_MASK: u64 = 0x0000_0000_0000_1fff;

pub const CLUBS_MASK: u64 = 0x0000_0000_1fff_0000;

pub const HEARTS_MASK: u64 = 0x0000_1fff_0000_0000;

pub const DIAMONDS_MASK: u64 = 0x1fff_0000_0000_0000;

pub const ALL_CARDS_MASK: u64 = 0x1fff_1fff_1fff_1fff;

/// The bit that stands for a card: lane `suit`, position `rank` within the lane.
pub open spec fn card_index(c: Card) -> int {
    c.suit.ord() * 16 + c.rank.ord()
}

/// Whether bit `i` of `x` is set.
pub open spec fn has_bit(x: u64, i: u64) -> bool {
    (x >> i) & 1u64 == 1u64
}

/// Whether bit position `i` stands for a card (not lane padding).
pub open spec fn valid_index(i: int) -> bool {
    0 <= i < 64 && i % 16 < 13
}

/// The card that bit position `i` stands for.
pub open spec fn card_at(i: int) -> Card {
    Card { rank: Rank::from_ord(i % 16), suit: Suit::from_ord(i / 16) }
}

/// The number of set bits of `x` below position `n`.
pub open spec fn ones_below(x: u64, n: nat) -> nat
    decreases n,
{
    if n == 0 {
        0
    } else {
        ones_below(x, (n - 1) as nat) + if has_bit(x, (n - 1) as u64) {
            1nat
        } else {
            0nat
        }
    }
}

/// The mask holding the bit of each card of `s`.
pub open spec fn mask_of(s: Seq<Card>) -> u64
    decreases s.len(),
{
    if s.len() == 0 {
        0
    } else {
        mask_of(s.drop_last()) | (1u64 << (card_index(s.last()) as u64))
    }
}

/// The cards whose bits are set in `x`.
pub open spec fn cards_of_mask(x: u64) -> Set<Card> {
    Set::new(|c: Card| has_bit(x, card_index(c) as u64))
}

/// The cards whose bits are set in `x` and lie below position `n`.
pub open spec fn cards_of_mask_below(x: u64, n: int) -> Set<Card> {
    Set::new(|c: Card| card_index(c) < n && has_bit(x, card_index(c) as u64))
}

/// The mask of the cards of one suit.
pub open spec fn suit_mask(s: Suit) -> u64 {
    0x1fffu64 << ((s.ord() * 16) as u64)
}

/// The cards of `s` that belong to suit `su`.
pub open spec fn in_suit(s: Set<Card>, su: Suit) -> Set<Card> {
    s.filter(|c: Card| c.suit == su)
}

/// Of all cards, thirteen are of each suit.
proof fn lemma_suit_count_13(all: Set<Card>, su: Suit)
    requires
        forall|c: Card| #[trigger] all.contains(c),
    ensures
        in_suit(all, su).len() == 13,
{
    lemma_base_deck();
    let b = base_deck_seq();
    let k = su.ord();
    let sub = b.subrange(13 * k, 13 * k + 13);
    assert forall|c: Card| #[trigger] in_suit(all, su).contains(c) <==> sub.contains(c) by {
        if c.suit == su {
            let i = c.rank.ord();
            lemma_suit_from_ord(su);
            assert(b[13 * k + i] == c);
            assert(sub[i] == c);
        }
        if sub.contains(c) {
            let j = choose|j: int| 0 <= j < sub.len() && sub[j] == c;
            assert(b[13 * k + j] == c);
            assert((13 * k + j) / 13 == k);
            lemma_suit_from_ord(su);
        }
    }
    assert(in_suit(all, su) =~= sub.to_set());
    assert(sub.no_duplicates()) by {
        assert forall|i: int, j: int| 0 <= i < j < sub.len() implies sub[i] != sub[j] by {
            assert(sub[i] == b[13 * k + i] && sub[j] == b[13 * k + j]);
        }
    }
    sub.unique_seq_to_set();
}

/// Every card has a valid, distinct position.
pub proof fn lemma_card_index(c: Card)
    ensures
        valid_index(card_index(c)),
        card_at(card_index(c)) == c,
{
}

proof fn lemma_card_at(i: int)
    requires
        valid_index(i),
    ensures
        card_index(card_at(i)) == i,
{
}

proof fn lemma_padding_clear(x: u64, i: u64)
    requires
        x & !ALL_CARDS_MASK == 0,
        i < 64,
        i % 16 >= 13,
    ensures
        !has_bit(x, i),
{
    assert(x & !0x1fff_1fff_1fff_1fffu64 == 0 && i < 64 && i % 16 >= 13 ==> (x >> i) & 1u64
        != 1u64) by (bit_vector);
}

/// With no padding bits set, the number of set bits is the number of cards in the mask.
proof fn lemma_ones_count_cards(x: u64, n: nat)
    requires
        x & !ALL_CARDS_MASK == 0,
        n <= 64,
    ensures
        cards_of_mask_below(x, n as int).finite(),
        cards_of_mask_below(x, n as int).len() == ones_below(x, n),
    decreases n,
{
    if n == 0 {
        assert(cards_of_mask_below(x, 0) =~= Set::empty());
    } else {
        let m = (n - 1) as nat;
        lemma_ones_count_cards(x, m);
        let prev = cards_of_mask_below(x, m as int);
        let cur = cards_of_mask_below(x, n as int);
        if valid_index(m as int) && has_bit(x, m as u64) {
            let c = card_at(m as int);
            lemma_card_at(m as int);
            assert forall|d: Card| cur.contains(d) <==> #[trigger] prev.insert(c).contains(d) by {
                lemma_card_index(d);
            }
            assert(cur =~= prev.insert(c));
            assert(!prev.contains(c));
        } else {
            if !valid_index(m as int) {
                lemma_padding_clear(x, m as u64);
            }
            assert forall|d: Card| cur.contains(d) <==> #[trigger] prev.contains(d) by {
                lemma_card_index(d);
            }
            assert(cur =~= prev);
        }
    }
}

/// Relies on u64::count_ones: the number of set bits among the 64 positions.
#[verifier::external_body]
fn count_ones(x: u64) -> (r: u32)
    ensures
        r as nat == ones_below(x, 64),
{
    x.count_ones()
}

/// A set of cards held as a bitmask.
#[derive(Copy, Clone, Debug)]
pub struct CardSet(u64);

impl CardSet {
    #[verifier::type_invariant]
    spec fn inv(self) -> bool {
        self.0 & !ALL_CARDS_MASK == 0
    }

    /// The raw bitmask.
    pub closed spec fn mask(self) -> u64 {
        self.0
    }

    /// The cards in the set.
    pub closed spec fn view(self) -> Set<Card> {
        cards_of_mask(self.0)
    }

    proof fn lemma_view_finite_len(self) -> (n: nat)
        requires
            self.0 & !ALL_CARDS_MASK == 0,
        ensures
            self@.finite(),
            self@.len() == ones_below(self.0, 64),
    {
        lemma_ones_count_cards(self.0, 64);
        assert forall|d: Card| self@.contains(d) <==> #[trigger] cards_of_mask_below(
            self.0,
            64,
        ).contains(d) by {
            lemma_card_index(d);
        }
        assert(self@ =~= cards_of_mask_below(self.0, 64));
        ones_below(self.0, 64)
    }

    /// The set with no cards.
    pub fn empty() -> (r: Self)
        ensures
            r@ == Set::<Card>::empty(),
            r.mask() == 0,
    {
        assert(0u64 & !0x1fff_1fff_1fff_1fffu64 == 0) by (bit_vector);
        let r = CardSet(0);
        assert forall|c: Card| !r@.contains(c) by {
            let i = card_index(c) as u64;
            assert((0u64 >> i) & 1u64 != 1u64) by (bit_vector);
        }
        assert(r@ =~= Set::<Card>::empty());
        r
    }

    /// The set of all 52 cards.
    pub fn full() -> (r: Self)
        ensures
            forall|c: Card| #[trigger] r@.contains(c),
            r@.len() == 52,
            in_suit(r@, Suit::Spades).len() == 13,
            in_suit(r@, Suit::Clubs).len() == 13,
            in_suit(r@, Suit::Hearts).len() == 13,
            in_suit(r@, Suit::Diamonds).len() == 13,
    {
        assert(ALL_CARDS_MASK & !ALL_CARDS_MASK == 0) by (bit_vector);
        let r = CardSet(ALL_CARDS_MASK);
        assert forall|c: Card| #[trigger] r@.contains(c) by {
            lemma_card_index(c);
            let i = card_index(c) as u64;
            assert(i < 64 && i % 16 < 13 ==> (0x1fff_1fff_1fff_1fffu64 >> i) & 1u64 == 1u64)
                by (bit_vector);
        }
        proof {
            lemma_base_deck();
            let b = base_deck_seq();
            assert(r@ =~= b.to_set());
            b.unique_seq_to_set();
            lemma_suit_count_13(r@, Suit::Spades);
            lemma_suit_count_13(r@, Suit::Clubs);
            lemma_suit_count_13(r@, Suit::Hearts);
            lemma_suit_count_13(r@, Suit::Diamonds);
        }
        r
    }

    /// The number of cards in the set.
    pub fn count(self) -> (r: usize)
        ensures
            self@.finite(),
            r == self@.len(),
    {
        proof {
            use_type_invariant(self);
            self.lemma_view_finite_len();
        }
        count_ones(self.0) as usize
    }

    /// The mask of the cards of suit `suit`.
    fn suit_mask(suit: Suit) -> (r: u64)
        ensures
            r == suit_mask(suit),
    {
        match suit {
            Suit::Spades => {
                assert(0x1fffu64 << 0u64 == SPADES_MASK) by (bit_vector);
                SPADES_MASK
            },
            Suit::Clubs => {
                assert(0x1fffu64 << 16u64 == CLUBS_MASK) by (bit_vector);
                CLUBS_MASK
            },
            Suit::Hearts => {
                assert(0x1fffu64 << 32u64 == HEARTS_MASK) by (bit_vector);
                HEARTS_MASK
            },
            Suit::Diamonds => {
                assert(0x1fffu64 << 48u64 == DIAMONDS_MASK) by (bit_vector);
                DIAMONDS_MASK
            },
        }
    }

    /// The number of cards of one suit in the set.
    pub fn count_in_suit(self, suit: Suit) -> (r: usize)
        ensures
            in_suit(self@, suit).finite(),
            r == in_suit(self@, suit).len(),
    {
        proof {
            use_type_invariant(self);
        }
        let m = Self::suit_mask(suit);
        let x = self.0;
        let y = x & m;
        let ghost s16 = (suit.ord() * 16) as u64;
        assert(y & !ALL_CARDS_MASK == 0) by (bit_vector)
            requires
                y == x & m,
                x & !0x1fff_1fff_1fff_1fffu64 == 0,
        ;
        let sub = CardSet(y);
        proof {
            sub.lemma_view_finite_len();
            assert forall|c: Card| #[trigger] sub@.contains(c) <==> in_suit(self@, suit).contains(
                c,
            ) by {
                lemma_card_index(c);
                let i = card_index(c) as u64;
                    assert(i < 64 && s16 <= 48 && s16 % 16 == 0 ==> (((x & (0x1fffu64 << s16)) >> i) & 1u64 == 1u64
                    <==> ((x >> i) & 1u64 == 1u64 && i / 16 == s16 / 16 && i % 16 < 13)))
                    by (bit_vector);
            }
            assert(sub@ =~= in_suit(self@, suit));
        }
        sub.count()
    }

    /// The bit position of a card.
    fn get_index(card: Card) -> (r: u64)
        ensures
            r as int == card_index(card),
            r < 64,
    {
        proof {
            lemma_card_index(card);
        }
        (card.suit.index() * 16 + card.rank.index()) as u64
    }

    /// The one-bit mask of a card.
    fn get_mask(card: Card) -> (r: u64)
        ensures
            r == 1u64 << (card_index(card) as u64),
    {
        let i = Self::get_index(card);
        1u64 << i
    }

    /// Adds a card; adding a card already present changes nothing.
    pub fn insert(&mut self, card: Card)
        ensures
            final(self).mask() == old(self).mask() | (1u64 << (card_index(card) as u64)),
            final(self)@ == old(self)@.insert(card),
    {
        proof {
            use_type_invariant(&*self);
            lemma_card_index(card);
        }
        let k = Self::get_index(card);
        let m = Self::get_mask(card);
        let x = self.0;
        let y = x | m;
        assert(y & !ALL_CARDS_MASK == 0) by (bit_vector)
            requires
                y == x | m,
                m == 1u64 << k,
                k < 64,
                k % 16 < 13,
                x & !0x1fff_1fff_1fff_1fffu64 == 0,
        ;
        *self = CardSet(y);
        proof {
            assert forall|c: Card| #[trigger] self@.contains(c) <==> old(self)@.insert(
                card,
            ).contains(c) by {
                lemma_card_index(c);
                let i = card_index(c) as u64;
                assert(i < 64 && k < 64 ==> (((x | (1u64 << k)) >> i) & 1u64 == 1u64 <==> ((x
                    >> i) & 1u64 == 1u64 || i == k))) by (bit_vector);
            }
            assert(self@ =~= old(self)@.insert(card));
        }
    }

    /// Removes a card; removing an absent card changes nothing.
    pub fn remove(&mut self, card: Card)
        ensures
            final(self)@ == old(self)@.remove(card),
    {
        proof {
            use_type_invariant(&*self);
            lemma_card_index(card);
        }
        let k = Self::get_index(card);
        let m = Self::get_mask(card);
        let x = self.0;
        let y = x & (ALL_CARDS_MASK & !m);
        assert(y & !ALL_CARDS_MASK == 0) by (bit_vector)
            requires
                y == x & (0x1fff_1fff_1fff_1fffu64 & !m),
        ;
        *self = CardSet(y);
        proof {
            assert forall|c: Card| #[trigger] self@.contains(c) <==> old(self)@.remove(
                card,
            ).contains(c) by {
                lemma_card_index(c);
                let i = card_index(c) as u64;
                assert(i < 64 && k < 64 && i % 16 < 13 ==> (((x & (0x1fff_1fff_1fff_1fffu64 & !(
                1u64 << k))) >> i) & 1u64 == 1u64 <==> ((x >> i) & 1u64 == 1u64 && i != k)))
                    by (bit_vector);
            }
            assert(self@ =~= old(self)@.remove(card));
        }
    }

    /// Whether the card is in the set.
    pub fn contains(self, card: Card) -> (r: bool)
        ensures
            r == self@.contains(card),
    {
        proof {
            lemma_card_index(card);
        }
        let k = Self::get_index(card);
        let m = Self::get_mask(card);
        let x = self.0;
        assert(k < 64 ==> ((x & (1u64 << k)) > 0 <==> (x >> k) & 1u64 == 1u64)) by (bit_vector);
        (x & m) > 0
    }

    /// The set of the cards of a slice; repeated cards count once.
    pub fn from_cards(cards: &[Card]) -> (r: Self)
        ensures
            r@ == cards@.to_set(),
            r.mask() == mask_of(cards@),
    {
        let mut set = Self::empty();
        let mut i: usize = 0;
        while i < cards.len()
            invariant
                i <= cards@.len(),
                set@ == cards@.subrange(0, i as int).to_set(),
                set.0 == mask_of(cards@.subrange(0, i as int)),
            decreases cards@.len() - i,
        {
            proof {
                assert(cards@.subrange(0, i + 1) =~= cards@.subrange(0, i as int).push(cards@[i as int]));
                assert(cards@.subrange(0, i + 1).drop_last() == cards@.subrange(0, i as int));
            }
            set.insert(cards[i]);
            proof {
                cards@.subrange(0, i as int).lemma_push_to_set_commute(cards@[i as int]);
            }
            i += 1;
        }
        assert(cards@.subrange(0, i as int) =~= cards@);
        set
    }
}

impl<V: CardView> vstd::std_specs::convert::FromSpecImpl<V> for CardSet {
    open spec fn obeys_from_spec() -> bool {
        true
    }

    closed spec fn from_spec(v: V) -> CardSet {
        CardSet(mask_of(v.card_seq()))
    }
}

impl<V: CardView> From<V> for CardSet {
    fn from(value: V) -> (r: Self)
        ensures
            r@ == value.card_seq().to_set(),
    {
        Self::from_cards(value.view())
    }
}

} // verus!
