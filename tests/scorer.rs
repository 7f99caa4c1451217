use approx::RelativeEq;
use solver_core::prelude::{Hand, HandKind, Scorer};

fn expect_score(hand: &Hand, kind: HandKind, expected_score: f32) {
    let score = Scorer::score_hand(kind, hand) as f32;
    assert!(
        score.relative_eq(&expected_score, f32::EPSILON, f32::EPSILON),
        "{score} != {expected_score}"
    );
}

#[test]
fn scoring_test() {
    expect_score(&Hand::from_idents("2H 3H 4H 5H 6C"), HandKind::Straight, 200.0);
    expect_score(&Hand::from_idents("3D 3D 2C 2C"), HandKind::TwoPair, 60.0);
    expect_score(&Hand::from_idents("AS KS QS JS TS"), HandKind::StraightFlush, 1208.0);
}

#[test]
fn scoring_exact_values() {
    assert_eq!(Scorer::score_hand(HandKind::HighCard, &Hand::from_idents("AS")), 16);
    assert_eq!(Scorer::score_hand(HandKind::HighCard, &Hand::empty()), 5);
    assert_eq!(Scorer::score_hand(HandKind::Pair, &Hand::from_idents("9S 9D")), 56);
    assert_eq!(Scorer::score_hand(HandKind::FlushFive, &Hand::from_idents("AS AS AS AS AS")), 3440);
    assert_eq!(Scorer::score_hand(HandKind::FourOfAKind, &Hand::from_idents("KS KD KH KC")), 700);
}
