use std::collections::HashSet;

use rand::rngs::SmallRng;
use rand::SeedableRng;
use solver_core::prelude::{Card, CardCollection, CardView, Deck, Error, Hand, HandKind, Rank, Suit};

#[test]
fn base_deck_test() {
    let mut seen = HashSet::new();
    let deck = Deck::base_deck();
    for card in deck.view() {
        seen.insert(*card);
    }
    assert_eq!(seen.len(), 52);
}

#[test]
fn base_shuffle_test() {
    let mut seen = HashSet::new();
    let mut rng = SmallRng::from_entropy();
    let deck = Deck::shuffled(&mut rng);
    for card in deck.view() {
        seen.insert(*card);
    }
    assert_eq!(seen.len(), 52);
}

#[test]
fn deck_draw_test() {
    let mut seen = HashSet::new();
    let mut rng = SmallRng::from_entropy();
    let mut deck = Deck::shuffled(&mut rng);
    for _ in 0..52 {
        seen.insert(deck.draw());
    }
    assert_eq!(seen.len(), 52);
    assert_eq!(deck.count(), 0);
    assert_eq!(deck.peek_top_card(), None);
    assert_eq!(deck.draw(), None);
}

#[test]
fn from_ident_reads_rank_then_suit() {
    let a = Card::from_ident("KH");
    assert_eq!(a, Card { rank: Rank::King, suit: Suit::Hearts });
    assert_eq!(Card::from_ident("td"), Card { rank: Rank::Ten, suit: Suit::Diamonds });
    assert_eq!(Card::from_ident("2s"), Card { rank: Rank::Deuce, suit: Suit::Spades });
}

#[test]
fn collection_from_idents_and_nth() {
    let cards = CardCollection::from_idents("KH TD JS 2C");
    assert_eq!(cards.nth(2), Some(Card { rank: Rank::Jack, suit: Suit::Spades }));
    assert_eq!(cards.nth(4), None);
    assert_eq!(cards.view().len(), 4);
    let spaced = CardCollection::from_idents("  as\tkc \n");
    assert_eq!(spaced.view(), &[Card::from_ident("AS"), Card::from_ident("KC")][..]);
    assert_eq!(CardCollection::empty().view().len(), 0);
    assert_eq!(CardCollection::from_idents("").view().len(), 0);
}

#[test]
fn base_deck_canonical_order() {
    let deck = Deck::base_deck();
    assert_eq!(deck.count(), 52);
    assert_eq!(deck.view()[0], Card::from_ident("2S"));
    assert_eq!(deck.view()[12], Card::from_ident("AS"));
    assert_eq!(deck.view()[13], Card::from_ident("2C"));
    assert_eq!(deck.peek_top_card(), Some(Card::from_ident("AD")));
}

#[test]
fn shuffled_deck_holds_every_card_once() {
    let mut rng = SmallRng::seed_from_u64(7);
    let deck = Deck::shuffled(&mut rng);
    let seen: HashSet<Card> = deck.view().iter().copied().collect();
    let base: HashSet<Card> = Deck::base_deck().view().iter().copied().collect();
    assert_eq!(deck.count(), 52);
    assert_eq!(seen, base);
    assert_ne!(deck.view(), Deck::base_deck().view());
}

#[test]
fn draw_takes_from_the_top() {
    let mut deck = Deck::base_deck();
    assert_eq!(deck.draw(), Some(Card::from_ident("AD")));
    assert_eq!(deck.draw(), Some(Card::from_ident("KD")));
    assert_eq!(deck.count(), 50);
    let hand = deck.draw_hand().unwrap();
    assert_eq!(hand, Hand::from_idents("QD JD TD 9D 8D"));
    let rest = deck.draw_n(3).unwrap();
    assert_eq!(rest.view(), CardCollection::from_idents("7D 6D 5D").view());
    assert_eq!(deck.count(), 42);
}

#[test]
fn drawing_past_the_end_gives_nothing() {
    let mut deck = Deck::base_deck();
    assert!(deck.draw_n(53).is_none());
    assert_eq!(deck.count(), 52);
    let all = deck.draw_n(52).unwrap();
    assert_eq!(all.view().len(), 52);
    let distinct: HashSet<Card> = all.view().iter().copied().collect();
    assert_eq!(distinct.len(), 52);
    assert!(deck.draw_hand().is_none());
    assert!(deck.draw_n(1).is_none());
    assert_eq!(deck.draw(), None);
    assert!(deck.draw_n(0).is_some());
}

#[test]
fn draw_hand_needs_five_cards() {
    let mut deck = Deck::base_deck();
    deck.draw_n(48).unwrap();
    assert!(deck.draw_hand().is_none());
    assert_eq!(deck.count(), 4);
}

#[test]
fn hand_from_slice_refuses_six_cards() {
    let cards = CardCollection::from_idents("2S 3S 4S 5S 6S 7S");
    assert!(matches!(Hand::from_slice(cards.view()), Err(Error::OverfullHand)));
    let five = Hand::from_slice(&cards.view()[..5]).unwrap();
    assert_eq!(five.view(), &cards.view()[..5]);
    assert_eq!(five.len(), 5);
    assert_eq!(Hand::empty().len(), 0);
    assert_eq!(Error::OverfullHand.message(), "a hand can have a maximum of 5 cards");
}

#[test]
fn hand_equality_is_positional() {
    assert_eq!(Hand::from_idents("2S 3S"), Hand::from_idents("2S 3S"));
    assert_ne!(Hand::from_idents("2S 3S"), Hand::from_idents("3S 2S"));
    assert_ne!(Hand::from_idents("2S 3S"), Hand::from_idents("2S"));
}

#[test]
fn category_order_is_strict() {
    let kinds = HandKind::all();
    assert_eq!(kinds.len(), 12);
    for i in 0..kinds.len() {
        assert_eq!(kinds[i].index(), i);
        for j in 0..kinds.len() {
            assert_eq!(kinds[i] < kinds[j], i < j);
        }
    }
    assert!(HandKind::HighCard < HandKind::Pair);
    assert!(HandKind::FlushHouse < HandKind::FlushFive);
}
