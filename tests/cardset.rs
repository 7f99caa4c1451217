use solver_core::prelude::{Card, CardCollection, CardSet, CardView, Suit};

#[test]
fn counting_test() {
    let mut cardset = CardSet::full();

    assert_eq!(cardset.count(), 52);
    assert_eq!(cardset.count_in_suit(Suit::Spades), 13);
    assert_eq!(cardset.count_in_suit(Suit::Clubs), 13);
    assert_eq!(cardset.count_in_suit(Suit::Hearts), 13);
    assert_eq!(cardset.count_in_suit(Suit::Diamonds), 13);

    assert!(cardset.contains(Card::from_ident("KH")));
    cardset.remove(Card::from_ident("KH"));
    assert!(!cardset.contains(Card::from_ident("KH")));
    assert_eq!(cardset.count(), 51);
    assert_eq!(cardset.count_in_suit(Suit::Hearts), 12);
}

#[test]
fn from_cardview_test() {
    let cardset = CardSet::from(CardCollection::from_idents("KH TS 9D 8C 8C 8C TS KS KD"));
    assert_eq!(cardset.count(), 6);
}

#[test]
fn empty_set_and_insert() {
    let mut set = CardSet::empty();
    assert_eq!(set.count(), 0);
    set.insert(Card::from_ident("AD"));
    set.insert(Card::from_ident("AD"));
    set.insert(Card::from_ident("2S"));
    assert_eq!(set.count(), 2);
    assert_eq!(set.count_in_suit(Suit::Diamonds), 1);
    assert_eq!(set.count_in_suit(Suit::Spades), 1);
    assert_eq!(set.count_in_suit(Suit::Hearts), 0);
    assert!(set.contains(Card::from_ident("AD")));
    assert!(!set.contains(Card::from_ident("AS")));
}

#[test]
fn remove_absent_card_is_a_no_op() {
    let mut set = CardSet::empty();
    set.insert(Card::from_ident("5C"));
    set.remove(Card::from_ident("6C"));
    assert_eq!(set.count(), 1);
    set.remove(Card::from_ident("5C"));
    assert_eq!(set.count(), 0);
    set.remove(Card::from_ident("5C"));
    assert_eq!(set.count(), 0);
}

#[test]
fn from_cards_collapses_duplicates() {
    let cards = CardCollection::from_idents("9S 9S 9S 9S 9S");
    let set = CardSet::from_cards(cards.view());
    assert_eq!(set.count(), 1);
    assert_eq!(set.count_in_suit(Suit::Spades), 1);
}
