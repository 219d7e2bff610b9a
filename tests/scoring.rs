use rummy::card::Card;
use rummy::scoring::{
    flush_score, four_of_a_kind_score, full_house_score, full_set_score, royal_flush_score,
    sequence_of_four_score, sequence_of_three_score, straight_flush_score, straight_score,
    three_of_a_kind_score, two_pair_score, CardVec,
};

#[test]
fn test_two_pair_score() {
    // Test case 1: Two pairs (2s, 2h, 3c, 3d) → Should return 5
    let hand = CardVec::from_vec(vec![
        Card::from_string("2s".to_string()).unwrap(),
        Card::from_string("2h".to_string()).unwrap(),
        Card::from_string("3c".to_string()).unwrap(),
        Card::from_string("3d".to_string()).unwrap(),
        Card::from_string("4s".to_string()).unwrap(),
    ]);
    let score = two_pair_score(hand).unwrap();
    assert_eq!(score, 5);

    // Test case 2: No pairs (all unique) → Should return 0
    let hand = CardVec::from_vec(vec![
        Card::from_string("2s".to_string()).unwrap(),
        Card::from_string("3h".to_string()).unwrap(),
        Card::from_string("4c".to_string()).unwrap(),
        Card::from_string("5d".to_string()).unwrap(),
        Card::from_string("6s".to_string()).unwrap(),
    ]);
    let score = two_pair_score(hand).unwrap();
    assert_eq!(score, 0);

    // Test case 3: Three of a kind (2s x3) → Should return 0
    let hand = CardVec::from_vec(vec![
        Card::from_string("2s".to_string()).unwrap(),
        Card::from_string("2h".to_string()).unwrap(),
        Card::from_string("2c".to_string()).unwrap(),
        Card::from_string("3d".to_string()).unwrap(),
        Card::from_string("4s".to_string()).unwrap(),
    ]);
    let score = two_pair_score(hand).unwrap();
    assert_eq!(score, 0);

    // Test case 4: Full house (three of a kind + pair) → Should return 5
    let hand = CardVec::from_vec(vec![
        Card::from_string("2s".to_string()).unwrap(),
        Card::from_string("2h".to_string()).unwrap(),
        Card::from_string("2c".to_string()).unwrap(),
        Card::from_string("3d".to_string()).unwrap(),
        Card::from_string("3s".to_string()).unwrap(),
    ]);
    let score = two_pair_score(hand).unwrap();
    assert_eq!(score, 5);
}

#[test]
fn test_three_of_a_kind() {
    // Test case 1: Three of a kind (2s x3) → Should return 5
    let hand = CardVec::from_vec(vec![
        Card::from_string("2s".to_string()).unwrap(),
        Card::from_string("2h".to_string()).unwrap(),
        Card::from_string("2c".to_string()).unwrap(),
        Card::from_string("3d".to_string()).unwrap(),
        Card::from_string("4s".to_string()).unwrap(),
    ]);
    let score = three_of_a_kind_score(hand).unwrap();
    assert_eq!(score, 15);

    // Test case 2: Three of a kind with other cards → Should return 5
    let hand = CardVec::from_vec(vec![
        Card::from_string("2s".to_string()).unwrap(),
        Card::from_string("3h".to_string()).unwrap(),
        Card::from_string("2c".to_string()).unwrap(),
        Card::from_string("3d".to_string()).unwrap(),
        Card::from_string("4s".to_string()).unwrap(),
    ]);
    let score = three_of_a_kind_score(hand).unwrap();
    assert_eq!(score, 0);

    // Test case 3: No three of a kind → Should return 0
    let hand = CardVec::from_vec(vec![
        Card::from_string("2s".to_string()).unwrap(),
        Card::from_string("3h".to_string()).unwrap(),
        Card::from_string("4c".to_string()).unwrap(),
        Card::from_string("5d".to_string()).unwrap(),
        Card::from_string("6s".to_string()).unwrap(),
    ]);
    let score = three_of_a_kind_score(hand).unwrap();
    assert_eq!(score, 0);
}

#[test]
fn test_sequence_of_three_score() {
    // Test case 1: Consecutive ranks in the same suit → Should return 10
    let hand = CardVec::from_vec(vec![
        Card::from_string("2s".to_string()).unwrap(),
        Card::from_string("3s".to_string()).unwrap(),
        Card::from_string("4s".to_string()).unwrap(),
        Card::from_string("Kh".to_string()).unwrap(),
        Card::from_string("Ah".to_string()).unwrap(),
    ]);
    let score = sequence_of_three_score(hand).unwrap();
    assert_eq!(score, 10);

    // Test case 2: Not the same suite → Should return 0
    let hand = CardVec::from_vec(vec![
        Card::from_string("2s".to_string()).unwrap(),
        Card::from_string("3h".to_string()).unwrap(),
        Card::from_string("4s".to_string()).unwrap(),
        Card::from_string("Kh".to_string()).unwrap(),
        Card::from_string("Kh".to_string()).unwrap(),
    ]);
    let score = sequence_of_three_score(hand).unwrap();
    assert_eq!(score, 0);

    // Test case 3: Three cards with two pairs (2s x2, 3h) → Should return 0
    let hand = CardVec::from_vec(vec![
        Card::from_string("2s".to_string()).unwrap(),
        Card::from_string("2h".to_string()).unwrap(),
        Card::from_string("3s".to_string()).unwrap(),
        Card::from_string("Kh".to_string()).unwrap(),
        Card::from_string("Ah".to_string()).unwrap(),
    ]);
    let score = sequence_of_three_score(hand).unwrap();
    assert_eq!(score, 0);
}

#[test]
fn test_straight_score() {
    // Test case 1: Five consecutive ranks of the same suite (2s, 3s, 4s, 5s, 6s) → Should return 20
    let hand = CardVec::from_vec(vec![
        Card::from_string("2s".to_string()).unwrap(),
        Card::from_string("3s".to_string()).unwrap(),
        Card::from_string("4s".to_string()).unwrap(),
        Card::from_string("5s".to_string()).unwrap(),
        Card::from_string("6s".to_string()).unwrap(),
    ]);
    let score = straight_score(hand).unwrap();
    assert_eq!(score, 20);

    // Test case 2: Not consecutive → Should return 0
    let hand = CardVec::from_vec(vec![
        Card::from_string("2s".to_string()).unwrap(),
        Card::from_string("3h".to_string()).unwrap(),
        Card::from_string("4s".to_string()).unwrap(),
        Card::from_string("4s".to_string()).unwrap(),
        Card::from_string("5s".to_string()).unwrap(),
    ]);
    let score = straight_score(hand).unwrap();
    assert_eq!(score, 0);
}

#[test]
fn test_flush_score() {
    // Test case 1: All cards same suit (2s, 3s, 4s, etc) → Should return 25
    let hand = CardVec::from_vec(vec![
        Card::from_string("2s".to_string()).unwrap(),
        Card::from_string("3s".to_string()).unwrap(),
        Card::from_string("8s".to_string()).unwrap(),
        Card::from_string("5s".to_string()).unwrap(),
        Card::from_string("As".to_string()).unwrap(),
    ]);
    let score = flush_score(hand).unwrap();
    assert_eq!(score, 25);

    // Test case 2: Mixed suits → Should return 0
    let hand = CardVec::from_vec(vec![
        Card::from_string("2h".to_string()).unwrap(),
        Card::from_string("3h".to_string()).unwrap(),
        Card::from_string("4s".to_string()).unwrap(),
        Card::from_string("7h".to_string()).unwrap(),
        Card::from_string("8h".to_string()).unwrap(),
    ]);
    let score = flush_score(hand).unwrap();
    assert_eq!(score, 0);
}

#[test]
fn test_sequence_of_four_score() {
    // Test case 1: Four consecutive ranks (2s, 3s, 4s, 5s) → Should return 30
    let hand = CardVec::from_vec(vec![
        Card::from_string("2s".to_string()).unwrap(),
        Card::from_string("3s".to_string()).unwrap(),
        Card::from_string("4s".to_string()).unwrap(),
        Card::from_string("5s".to_string()).unwrap(),
        Card::from_string("5h".to_string()).unwrap(),
    ]);
    let score = sequence_of_four_score(hand).unwrap();
    assert_eq!(score, 30);

    // Test case 2: Not the same suite → Should return 0
    let hand = CardVec::from_vec(vec![
        Card::from_string("2s".to_string()).unwrap(),
        Card::from_string("3h".to_string()).unwrap(),
        Card::from_string("4s".to_string()).unwrap(),
        Card::from_string("5h".to_string()).unwrap(),
        Card::from_string("4h".to_string()).unwrap(),
    ]);
    let score = sequence_of_four_score(hand).unwrap();
    assert_eq!(score, 0);
}

#[test]
fn test_full_set_score() {
    // Test case 1: Full set (pair + sequence of three) → Should return 35
    let hand = CardVec::from_vec(vec![
        Card::from_string("2s".to_string()).unwrap(),
        Card::from_string("2h".to_string()).unwrap(),
        Card::from_string("3s".to_string()).unwrap(),
        Card::from_string("4d".to_string()).unwrap(),
        Card::from_string("5h".to_string()).unwrap(),
    ]);
    let score = full_set_score(hand).unwrap();
    assert_eq!(score, 35);

    // Test case 2: Only pair → Should return 0
    let hand = CardVec::from_vec(vec![
        Card::from_string("2s".to_string()).unwrap(),
        Card::from_string("2h".to_string()).unwrap(),
        Card::from_string("3s".to_string()).unwrap(),
        Card::from_string("3h".to_string()).unwrap(),
        Card::from_string("4h".to_string()).unwrap(),
    ]);
    let score = full_set_score(hand).unwrap();
    assert_eq!(score, 0);
}

#[test]
fn test_full_house_score() {
    // Test case 1: Full house (three of a kind + pair) → Should return 40
    let hand = CardVec::from_vec(vec![
        Card::from_string("2s".to_string()).unwrap(),
        Card::from_string("2h".to_string()).unwrap(),
        Card::from_string("2c".to_string()).unwrap(),
        Card::from_string("3s".to_string()).unwrap(),
        Card::from_string("3h".to_string()).unwrap(),
    ]);
    let score = full_house_score(hand).unwrap();
    assert_eq!(score, 40);

    // Test case 2: Only three of a kind → Should return 0
    let hand = CardVec::from_vec(vec![
        Card::from_string("2s".to_string()).unwrap(),
        Card::from_string("2h".to_string()).unwrap(),
        Card::from_string("2c".to_string()).unwrap(),
        Card::from_string("3s".to_string()).unwrap(),
        Card::from_string("4s".to_string()).unwrap(),
    ]);
    let score = full_house_score(hand).unwrap();
    assert_eq!(score, 0);
}

#[test]
fn test_four_of_a_kind_score() {
    // Test case 1: Four of a kind (2s x4) → Should return 50
    let hand = CardVec::from_vec(vec![
        Card::from_string("2s".to_string()).unwrap(),
        Card::from_string("2h".to_string()).unwrap(),
        Card::from_string("2c".to_string()).unwrap(),
        Card::from_string("2d".to_string()).unwrap(),
        Card::from_string("3d".to_string()).unwrap(),
    ]);
    let score = four_of_a_kind_score(hand).unwrap();
    assert_eq!(score, 50);

    // Test case 2: Three of a kind → Should return 0
    let hand = CardVec::from_vec(vec![
        Card::from_string("2s".to_string()).unwrap(),
        Card::from_string("2h".to_string()).unwrap(),
        Card::from_string("2h".to_string()).unwrap(),
        Card::from_string("4c".to_string()).unwrap(),
        Card::from_string("4d".to_string()).unwrap(),
    ]);
    let score = four_of_a_kind_score(hand).unwrap();
    assert_eq!(score, 0);
}

#[test]
fn test_straight_flush_score() {
    // Test case 1: Straight flush (2s, 3s, 4s) → Should return 80
    let hand = CardVec::from_vec(vec![
        Card::from_string("2s".to_string()).unwrap(),
        Card::from_string("3s".to_string()).unwrap(),
        Card::from_string("4s".to_string()).unwrap(),
        Card::from_string("5s".to_string()).unwrap(),
        Card::from_string("6s".to_string()).unwrap(),
    ]);
    let score = straight_flush_score(hand).unwrap();
    assert_eq!(score, 80);

    // Test case 2: Flush but different suites → Should return 0
    let hand = CardVec::from_vec(vec![
        Card::from_string("2s".to_string()).unwrap(),
        Card::from_string("3h".to_string()).unwrap(),
        Card::from_string("4s".to_string()).unwrap(),
        Card::from_string("5h".to_string()).unwrap(),
        Card::from_string("6s".to_string()).unwrap(),
    ]);
    let score = straight_flush_score(hand).unwrap();
    assert_eq!(score, 0);
}

#[test]
fn test_royal_flush_score() {
    // Test case 1: Royal flush (A, K, Q, J, 10) → Should return 100
    let hand = CardVec::from_vec(vec![
        Card::from_string("As".to_string()).unwrap(),
        Card::from_string("Ks".to_string()).unwrap(),
        Card::from_string("Qs".to_string()).unwrap(),
        Card::from_string("Js".to_string()).unwrap(),
        Card::from_string("10s".to_string()).unwrap(),
    ]);
    let score = royal_flush_score(hand).unwrap();
    assert_eq!(score, 100);

    // Test case 2: Not the same suite → Should return 0
    let hand = CardVec::from_vec(vec![
        Card::from_string("As".to_string()).unwrap(),
        Card::from_string("Ks".to_string()).unwrap(),
        Card::from_string("Qh".to_string()).unwrap(),
        Card::from_string("Js".to_string()).unwrap(),
        Card::from_string("10s".to_string()).unwrap(),
    ]);
    let score = royal_flush_score(hand).unwrap();
    assert_eq!(score, 0);

    // Test case 3: Not the highest ranks → Should return 0
    let hand = CardVec::from_vec(vec![
        Card::from_string("As".to_string()).unwrap(),
        Card::from_string("Ks".to_string()).unwrap(),
        Card::from_string("Qh".to_string()).unwrap(),
        Card::from_string("Js".to_string()).unwrap(),
        Card::from_string("10s".to_string()).unwrap(),
    ]);
    let score = royal_flush_score(hand).unwrap();
    assert_eq!(score, 0);
}
