use solver_core::prelude::{CardCollection, CardView, Hand, HandEvaluator, HandKind, Options};

fn expect(cards: impl CardView, expected_kind: HandKind, expected_hand: Hand, options: Options) {
    let hand = HandEvaluator::evaluate_poker_hand(cards, options);
    assert_eq!(hand, Some((expected_kind, expected_hand)));
}

fn cards(idents: &str) -> CardCollection {
    CardCollection::from_idents(idents)
}

fn hand(idents: &str) -> Hand {
    Hand::from_idents(idents)
}

fn both() -> Options {
    Options::four_card_straights_and_flushes().union(Options::gapped_straights())
}

#[test]
fn empty_hand_test() {
    let cards = CardCollection::empty();
    assert_eq!(HandEvaluator::evaluate_poker_hand(cards, Options::empty()), None);
}

#[test]
fn high_card_test() {
    expect(cards("AS 9C 6C KH TS"), HandKind::HighCard, hand("AS"), Options::empty());
}

#[test]
fn pair_test() {
    expect(cards("9S 2S 3C 9D AS"), HandKind::Pair, hand("9S 9D"), Options::empty());
}

#[test]
fn two_pair_test() {
    expect(cards("9S 2S 3C 9D 2S"), HandKind::TwoPair, hand("9S 2S 9D 2S"), Options::empty());
}

#[test]
fn three_of_a_kind_test() {
    expect(cards("9S 2S 3C 9D 9S"), HandKind::ThreeOfAKind, hand("9S 9D 9S"), Options::empty());
}

#[test]
fn straight_test() {
    expect(cards("5S 8D 7S 6C 9S"), HandKind::Straight, hand("5S 8D 7S 6C 9S"), Options::empty());
    // Gapped straights
    expect(cards("5S 8D 7S 6C TS"), HandKind::HighCard, hand("TS"), Options::empty());
    expect(
        cards("5S 8D 7S 6C TS"),
        HandKind::Straight,
        hand("5S 8D 7S 6C TS"),
        Options::gapped_straights(),
    );
    expect(cards("8D 2S 6D 4S 7D"), HandKind::HighCard, hand("8D"), Options::gapped_straights());
    // Four-card straights
    expect(cards("5S AS 8D 7S 6C"), HandKind::HighCard, hand("AS"), Options::empty());
    expect(
        cards("5S 8D 7S 6C"),
        HandKind::Straight,
        hand("5S 8D 7S 6C"),
        Options::four_card_straights_and_flushes(),
    );
    expect(
        cards("5S AS 8D 7S 6C"),
        HandKind::Straight,
        hand("5S 8D 7S 6C"),
        Options::four_card_straights_and_flushes(),
    );
    expect(
        cards("5S 2S 8D 7S 6C"),
        HandKind::Straight,
        hand("5S 8D 7S 6C"),
        Options::four_card_straights_and_flushes(),
    );
    // Gapped four-card straights
    expect(cards("8D 2S 6D 4S 7D"), HandKind::Straight, hand("8D 6D 4S 7D"), both());
}

#[test]
fn flush_test() {
    expect(cards("AS TS 9S 2S 5S"), HandKind::Flush, hand("AS TS 9S 2S 5S"), Options::empty());
    expect(cards("AS AS AS TS 2S"), HandKind::Flush, hand("AS AS AS TS 2S"), Options::empty());
}

#[test]
fn full_house_test() {
    expect(cards("9S 2D 2S 9D 9C"), HandKind::FullHouse, hand("9S 2D 2S 9D 9C"), Options::empty());
    expect(cards("2S 2D 2S 9D 9C"), HandKind::FullHouse, hand("2S 2D 2S 9D 9C"), Options::empty());
}

#[test]
fn four_of_a_kind_test() {
    expect(cards("9S 9D 2S 9D 9C"), HandKind::FourOfAKind, hand("9S 9D 9D 9C"), Options::empty());
}

#[test]
fn straight_flush() {
    expect(
        cards("5S 8S 7S 6S 9S"),
        HandKind::StraightFlush,
        hand("5S 8S 7S 6S 9S"),
        Options::empty(),
    );
    // Gapped straights
    expect(
        cards("5D 8D 7D 6D TD"),
        HandKind::StraightFlush,
        hand("5D 8D 7D 6D TD"),
        Options::gapped_straights(),
    );
    // Four-card straights
    expect(
        cards("AD 5S 8S 7S 6S"),
        HandKind::StraightFlush,
        hand("5S 8S 7S 6S"),
        Options::four_card_straights_and_flushes(),
    );
    expect(
        cards("AS 5D 8S 7S 6S"),
        HandKind::Straight,
        hand("5D 8S 7S 6S"),
        Options::four_card_straights_and_flushes(),
    );
    // Gapped four-card straights
    expect(cards("8H 2S 6H 4H 7H"), HandKind::StraightFlush, hand("8H 6H 4H 7H"), both());
}

#[test]
fn five_of_a_kind_test() {
    expect(
        cards("9S 9D 9S 9D 9C"),
        HandKind::FiveOfAKind,
        hand("9S 9D 9S 9D 9C"),
        Options::empty(),
    );
}

#[test]
fn flush_house_test() {
    expect(cards("9S AS 9S AS 9S"), HandKind::FlushHouse, hand("9S AS 9S AS 9S"), Options::empty());
}

#[test]
fn flush_five_test() {
    expect(cards("9S 9S 9S 9S 9S"), HandKind::FlushFive, hand("9S 9S 9S 9S 9S"), Options::empty());
}

#[test]
fn ace_leads_the_descending_walk() {
    // The Ace sorts highest, so it breaks a Five-high run at the top.
    expect(cards("AS 2D 3C 4H 5S"), HandKind::HighCard, hand("AS"), Options::empty());
    expect(
        cards("AS 2D 3C 4H 5S"),
        HandKind::Straight,
        hand("2D 3C 4H 5S"),
        Options::four_card_straights_and_flushes(),
    );
    expect(cards("TH JH QH KH AH"), HandKind::StraightFlush, hand("TH JH QH KH AH"), Options::empty());
}

#[test]
fn four_card_flush_variant() {
    expect(cards("AS TS 9S 2S 5D"), HandKind::HighCard, hand("AS"), Options::empty());
    // Without repeated cards a flush still needs five of a suit.
    expect(
        cards("AS TS 9S 2S 5D"),
        HandKind::HighCard,
        hand("AS"),
        Options::four_card_straights_and_flushes(),
    );
    // With repeated cards, four of a suit make a flush under the variant.
    expect(
        cards("AS AS TS 2S 5D"),
        HandKind::Flush,
        hand("AS AS TS 2S 5D"),
        Options::four_card_straights_and_flushes(),
    );
    expect(cards("AS AS TS 2S 5D"), HandKind::Pair, hand("AS AS"), Options::empty());
}

#[test]
fn gap_allowance_is_used_once() {
    expect(cards("4S 6D 8C 9H TS"), HandKind::HighCard, hand("TS"), Options::gapped_straights());
    expect(cards("5S 7D 8C 9H TS"), HandKind::Straight, hand("5S 7D 8C 9H TS"), Options::gapped_straights());
    expect(cards("5S 7D 8C 9H TS"), HandKind::HighCard, hand("TS"), Options::empty());
}

#[test]
fn short_hands() {
    expect(cards("7C"), HandKind::HighCard, hand("7C"), Options::empty());
    expect(cards("7C 7D"), HandKind::Pair, hand("7C 7D"), both());
    expect(cards("QC 7D QH"), HandKind::Pair, hand("QC QH"), Options::empty());
}

#[test]
fn stronger_category_wins_over_weaker() {
    // Full house also holds a three of a kind and a pair.
    expect(cards("KS KD 3C 3H KC"), HandKind::FullHouse, hand("KS KD 3C 3H KC"), Options::empty());
    // Four of a kind also holds a three of a kind.
    expect(cards("KS KD KH 3H KC"), HandKind::FourOfAKind, hand("KS KD KH KC"), Options::empty());
}

#[test]
fn reclassifying_the_qualifying_cards_keeps_the_category() {
    let samples = [
        ("AS 9C 6C KH TS", Options::empty()),
        ("9S 2S 3C 9D AS", Options::empty()),
        ("9S 2S 3C 9D 2S", Options::empty()),
        ("9S 2S 3C 9D 9S", Options::empty()),
        ("9S 9D 2S 9D 9C", Options::empty()),
        ("5S AS 8D 7S 6C", Options::four_card_straights_and_flushes()),
        ("8H 2S 6H 4H 7H", both()),
        ("9S 2D 2S 9D 9C", Options::empty()),
        ("9S 9S 9S 9S 9S", Options::empty()),
    ];
    for (idents, options) in samples {
        let (kind, qualifying) = HandEvaluator::evaluate_poker_hand(cards(idents), options).unwrap();
        let (again, same) = HandEvaluator::evaluate_poker_hand(qualifying.clone(), options).unwrap();
        assert_eq!(again, kind, "{idents}");
        assert_eq!(same, qualifying, "{idents}");
    }
}

#[test]
fn best_hand_from_eight_cards() {
    let pool = cards("2D AS 3C AD 7H AH KS AC");
    let best = HandEvaluator::find_best_poker_hand(pool, Options::empty());
    assert_eq!(best, Some((HandKind::FourOfAKind, hand("AS AD AH AC"))));
}

#[test]
fn best_hand_picks_first_of_strongest() {
    let pool = cards("2S 5S 9S JS KS 3D");
    let best = HandEvaluator::find_best_poker_hand(pool, Options::empty());
    assert_eq!(best, Some((HandKind::Flush, hand("2S 5S 9S JS KS"))));
}

#[test]
fn best_hand_of_small_pool_is_its_classification() {
    let best = HandEvaluator::find_best_poker_hand(cards("9S 2S 3C 9D AS"), Options::empty());
    assert_eq!(best, Some((HandKind::Pair, hand("9S 9D"))));
    assert_eq!(HandEvaluator::find_best_poker_hand(CardCollection::empty(), Options::empty()), None);
}

#[test]
fn best_of_given_candidates() {
    let candidates = vec![
        cards("AS 9C 6C KH TS").view().to_vec(),
        cards("9S 2S 3C 9D AS").view().to_vec(),
        cards("9S 2S 3C 9D 2D").view().to_vec(),
        cards("3S 2S 3C 9D 2H").view().to_vec(),
    ];
    let best = HandEvaluator::best_of_candidates(&candidates, Options::empty());
    assert_eq!(best, Some((HandKind::TwoPair, hand("9S 2S 9D 2D"))));
    assert_eq!(HandEvaluator::best_of_candidates(&Vec::new(), Options::empty()), None);
}

#[test]
fn options_combine_by_union() {
    let both = Options::gapped_straights().union(Options::four_card_straights_and_flushes());
    assert!(both.contains(Options::gapped_straights()));
    assert!(both.contains(Options::four_card_straights_and_flushes()));
    assert!(!Options::empty().contains(Options::gapped_straights()));
    assert!(Options::gapped_straights().contains(Options::empty()));
    assert_eq!(Options::empty().union(Options::empty()), Options::empty());
}
