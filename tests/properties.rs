use quickcheck::QuickCheck;
use rummy::card::Card;
use rummy::game::{calculate_best_meld_from_5_card_hand, calculate_best_meld_from_hand, Hand};
use rummy::scoring::{
    flush_score, four_of_a_kind_score, full_house_score, full_set_score, pair_score,
    royal_flush_score, sequence_of_four_score, sequence_of_three_score, straight_flush_score,
    straight_score, three_of_a_kind_score, two_pair_score, CardVec,
};

const NAMES: [&str; 13] = ["2", "3", "4", "5", "6", "7", "8", "9", "10", "J", "Q", "K", "A"];
const SUITES: [&str; 4] = ["s", "h", "c", "d"];

fn cards_of(picks: &[(u8, u8)], n: usize) -> Vec<Card> {
    picks
        .iter()
        .take(n)
        .map(|(r, s)| {
            let text = format!("{}{}", NAMES[*r as usize % 13], SUITES[*s as usize % 4]);
            Card::from_string(text).unwrap()
        })
        .collect()
}

fn largest_single_score(cards: &[Card]) -> u64 {
    let scorers: [fn(CardVec) -> Result<u64, String>; 12] = [
        pair_score,
        two_pair_score,
        sequence_of_three_score,
        three_of_a_kind_score,
        straight_score,
        flush_score,
        sequence_of_four_score,
        full_set_score,
        full_house_score,
        four_of_a_kind_score,
        straight_flush_score,
        royal_flush_score,
    ];
    scorers.iter().map(|f| f(CardVec::from_vec(cards.to_vec())).unwrap()).max().unwrap()
}

fn meld_is_largest_single_score(picks: Vec<(u8, u8)>) -> bool {
    if picks.len() < 5 {
        return true;
    }
    let cards = cards_of(&picks, 5);
    let (score, _) = calculate_best_meld_from_5_card_hand(&Hand { cards: cards.clone() });
    score == largest_single_score(&cards)
}

fn six_card_hand_scores_best_five(picks: Vec<(u8, u8)>) -> bool {
    if picks.len() < 6 {
        return true;
    }
    let cards = cards_of(&picks, 6);
    let (score, best) = calculate_best_meld_from_hand(&Hand { cards: cards.clone() });
    let best_five = (0..6)
        .map(|skip| {
            let five: Vec<Card> =
                cards.iter().enumerate().filter(|(i, _)| *i != skip).map(|(_, c)| *c).collect();
            largest_single_score(&five)
        })
        .max()
        .unwrap();
    score == best_five && largest_single_score(&best.cards) == score
}

#[test]
fn random_hands_score_their_largest_pattern() {
    QuickCheck::new()
        .tests(300)
        .quickcheck(meld_is_largest_single_score as fn(Vec<(u8, u8)>) -> bool);
}

#[test]
fn random_six_card_hands_score_their_best_five() {
    QuickCheck::new()
        .tests(300)
        .quickcheck(six_card_hand_scores_best_five as fn(Vec<(u8, u8)>) -> bool);
}
