use rummy::analysis::{evaluate_hand, Node, MAX_DEPTH, PPM, ROOT_MASS, SAMPLE_SIZE};
use rummy::card::{Card, Name, Rank, Suite};
use rummy::game::{
    calculate_best_meld_from_5_card_hand, calculate_best_meld_from_hand, deal_cards,
    shuffle_deck, Deck, Hand, PlayAction, Player, PlayerType,
};
use rummy::policy::HandProbabilityAnalysis;
use rummy::scoring::{full_set_score, royal_flush_score, straight_flush_score, CardVec};
use std::collections::VecDeque;

fn card(text: &str) -> Card {
    Card::from_string(text.to_string()).unwrap()
}

fn hand(texts: &[&str]) -> Hand {
    Hand { cards: texts.iter().map(|t| card(t)).collect() }
}

fn five_card_score(texts: &[&str]) -> u64 {
    calculate_best_meld_from_5_card_hand(&hand(texts)).0
}

fn root(texts: &[&str], pool: &[&str]) -> Node {
    let full_hand = hand(texts);
    let (baseline_score, _) = calculate_best_meld_from_hand(&full_hand);
    Node {
        full_hand,
        possible_hands: Vec::new(),
        possible_cards: pool.iter().map(|t| card(t)).collect(),
        discard_pile: VecDeque::new(),
        meld_score: None,
        baseline_score,
        branches: Vec::new(),
        depth: 0,
    }
}

#[test]
fn parses_and_prints_cards() {
    let ten = card("10s");
    assert_eq!(ten.rank, Rank::Ten);
    assert_eq!(ten.name, Name::Ten);
    assert_eq!(ten.suite, Suite::Spades);
    assert_eq!(ten.to_string().unwrap(), "10\u{2664}");
    assert_eq!(card("Qh").to_string().unwrap(), "Q\u{2661}");
    assert_eq!(card("Ac").rank, Rank::Fourteen);
}

#[test]
fn rejects_malformed_cards() {
    assert_eq!(
        Card::from_string("2".to_string()).unwrap_err(),
        "Card formatting is incorrect: 2"
    );
    assert_eq!(
        Card::from_string("100s".to_string()).unwrap_err(),
        "Card formatting is incorrect: 100s"
    );
    assert_eq!(
        Card::from_string("2x".to_string()).unwrap_err(),
        "x does not match any known suite!"
    );
    assert_eq!(
        Card::from_string("1s".to_string()).unwrap_err(),
        "1 does not match any known card name!"
    );
}

#[test]
fn card_vec_keeps_its_cards() {
    let cards = vec![card("2s"), card("3h"), card("Kd")];
    assert_eq!(CardVec::from_vec(cards.clone()).into_vec(), cards);
    assert_eq!(CardVec::from_vec(cards.clone()).to_vec(), cards);
}

#[test]
fn dead_hand_scores_zero() {
    assert_eq!(five_card_score(&["2s", "4h", "6c", "8d", "Ks"]), 0);
}

#[test]
fn meld_score_is_largest_single_score() {
    // a pair, two pairs and a full house at once: the full house counts
    assert_eq!(five_card_score(&["2s", "2h", "2c", "3d", "3s"]), 40);
    // a flush that is also a run of three: the flush counts
    assert_eq!(five_card_score(&["2s", "3s", "4s", "9s", "Ks"]), 25);
}

#[test]
fn pair_and_pair_is_two_pair_not_full_set() {
    let texts = ["2s", "2h", "3c", "3d", "4s"];
    assert_eq!(five_card_score(&texts), 5);
    let cards = hand(&texts).cards;
    assert_eq!(full_set_score(CardVec::from_vec(cards)).unwrap(), 0);
}

#[test]
fn royal_flush_scores_one_hundred_only() {
    let texts = ["As", "Ks", "Qs", "Js", "10s"];
    assert_eq!(five_card_score(&texts), 100);
    let cards = hand(&texts).cards;
    assert_eq!(royal_flush_score(CardVec::from_vec(cards.clone())).unwrap(), 100);
    assert_eq!(straight_flush_score(CardVec::from_vec(cards)).unwrap(), 80);
}

#[test]
fn four_royal_ranks_and_a_low_card_score_a_run_of_four() {
    assert_eq!(five_card_score(&["10s", "Js", "Qs", "Ks", "2s"]), 30);
    assert_eq!(five_card_score(&["Js", "Qs", "Ks", "As", "3s"]), 30);
}

#[test]
fn short_hand_scores_zero() {
    assert_eq!(five_card_score(&["2s", "2h", "3c", "3d"]), 0);
    assert_eq!(calculate_best_meld_from_hand(&hand(&["2s", "2h", "3c", "3d", "4s"])).0, 0);
}

#[test]
fn six_card_hand_takes_best_five() {
    let texts = ["2s", "9h", "3s", "4s", "5s", "6s"];
    let (score, best) = calculate_best_meld_from_hand(&hand(&texts));
    let mut expected = 0;
    for skip in 0..6 {
        let five: Vec<&str> =
            texts.iter().enumerate().filter(|(i, _)| *i != skip).map(|(_, t)| *t).collect();
        expected = expected.max(five_card_score(&five));
    }
    assert_eq!(score, expected);
    assert_eq!(score, 80);
    assert_eq!(best.cards.len(), 5);
    assert!(!best.cards.contains(&card("9h")));
}

#[test]
fn deals_five_cards_each() {
    let mut draw_pile: VecDeque<Card> = VecDeque::new();
    for t in ["2s", "3s", "4s", "5s", "6s", "7s", "8s", "9s", "10s", "Js", "Qs", "Ks"] {
        draw_pile.push_back(card(t));
    }
    let mut deck = Deck { draw_pile, discard_pile: VecDeque::new() };
    let player = |name: &str| Player {
        name: name.to_string(),
        description: String::new(),
        player_type: Some(PlayerType::Balanced),
        hand: Hand { cards: Vec::new() },
        actions: VecDeque::new(),
        dialogue: VecDeque::new(),
        score: 0,
    };
    let (players, rest, discard) = deal_cards(vec![player("a"), player("b")], &mut deck).unwrap();
    assert_eq!(players[0].hand.cards, hand(&["Ks", "Js", "9s", "7s", "5s"]).cards);
    assert_eq!(players[1].hand.cards, hand(&["Qs", "10s", "8s", "6s", "4s"]).cards);
    assert_eq!(rest.len(), 2);
    assert!(discard.is_empty());
    let three = vec![player("a"), player("b"), player("c")];
    assert!(deal_cards(three, &mut deck).is_err());
    assert_eq!(deck.draw_pile.len(), 2);
}

#[test]
fn shuffled_deck_holds_every_card_once() {
    let deck: Vec<Card> = shuffle_deck().unwrap().into_iter().collect();
    assert_eq!(deck.len(), 52);
    for (i, a) in deck.iter().enumerate() {
        for b in deck.iter().skip(i + 1) {
            assert_ne!(a, b);
        }
    }
}

#[test]
fn reshuffle_moves_discards_to_draw_pile() {
    let mut deck = Deck { draw_pile: VecDeque::new(), discard_pile: VecDeque::new() };
    for t in ["2s", "3h", "4c"] {
        deck.discard_pile.push_back(card(t));
    }
    deck.reshuffle_deck().unwrap();
    assert!(deck.discard_pile.is_empty());
    let mut drawn: Vec<Card> = deck.draw_pile.iter().copied().collect();
    drawn.sort_by_key(|c| c.to_string().unwrap());
    let mut expected = hand(&["2s", "3h", "4c"]).cards;
    expected.sort_by_key(|c| c.to_string().unwrap());
    assert_eq!(drawn, expected);
}

#[test]
fn built_tree_explores_root_and_first_level_in_full() {
    let pool = ["7d", "Kc", "Qh"];
    let mut node = root(&["2s", "2h", "3c", "4d", "9s", "Jh"], &pool);
    evaluate_hand(&mut node).unwrap();
    assert_eq!(node.possible_hands.len(), 6);
    let scoring = node.possible_hands.iter().filter(|p| p.meld_score > 0).count();
    assert_eq!(node.branches.len(), scoring * pool.len().min(SAMPLE_SIZE));
    for branch in &node.branches {
        assert_eq!(branch.depth, 1);
        assert_eq!(branch.full_hand.cards.len(), 6);
        assert_eq!(branch.possible_cards.len(), pool.len() - 1);
        assert_eq!(branch.discard_pile.len(), 1);
        let scoring = branch.possible_hands.iter().filter(|p| p.meld_score > 0).count();
        assert_eq!(branch.branches.len(), scoring * (pool.len() - 1));
        for below in &branch.branches {
            for deepest in &below.branches {
                assert!(deepest.baseline_score > below.baseline_score);
                assert!(deepest.depth <= MAX_DEPTH);
            }
        }
    }
}

#[test]
fn round_masses_add_up_to_the_whole() {
    let mut node = root(&["2s", "2h", "3c", "4d", "9s", "Jh"], &["7d", "Kc", "3h"]);
    evaluate_hand(&mut node).unwrap();
    let analysis = node.calculate_cumulative_probabilities();
    assert_eq!(analysis.round_probabilities.len(), 4);
    assert_eq!(analysis.round_probabilities[0].total_mass, ROOT_MASS);
    for round in &analysis.round_probabilities[1..] {
        assert!(round.total_simulations > 0);
        let sum: u64 = round.improvements.iter().map(|o| o.mass).sum();
        assert_eq!(sum, round.total_mass);
        assert_eq!(round.total_mass, ROOT_MASS);
        let ppm_sum: u64 = round.improvements.iter().map(|o| o.probability).sum();
        assert!(ppm_sum <= PPM && ppm_sum + round.improvements.len() as u64 >= PPM);
        for pair in round.improvements.windows(2) {
            assert!(pair[0].final_score > pair[1].final_score);
        }
    }
}

#[test]
fn risk_and_improvement_leave_the_unchanged_mass() {
    let mut node = root(&["2s", "2h", "3c", "4d", "9s", "Jh"], &["7d", "Kc", "3h"]);
    evaluate_hand(&mut node).unwrap();
    let analysis = node.calculate_cumulative_probabilities();
    let baseline = analysis.current_baseline;
    for round in &analysis.round_probabilities {
        assert!(round.risk_of_degradation + round.probability_of_improvement <= PPM);
        let same: u64 = round
            .improvements
            .iter()
            .filter(|o| o.final_score == baseline)
            .map(|o| o.mass)
            .sum();
        let above: u64 =
            round.improvements.iter().filter(|o| o.final_score > baseline).map(|o| o.mass).sum();
        let below: u64 =
            round.improvements.iter().filter(|o| o.final_score < baseline).map(|o| o.mass).sum();
        assert_eq!(round.total_mass - above - below, same);
    }
}

#[test]
fn unbuilt_root_keeps_its_baseline() {
    let node = root(&["2s", "2h", "3c", "4d", "9s", "Jh"], &["7d"]);
    let analysis = node.calculate_cumulative_probabilities();
    for round in &analysis.round_probabilities {
        assert_eq!(round.improvements.len(), 1);
        assert_eq!(round.improvements[0].final_score, node.baseline_score);
        assert_eq!(round.improvements[0].probability, PPM);
        assert_eq!(round.expected_improvement, 0);
    }
    assert_eq!(analysis.optimal_stop_round, Some(0));
    assert_eq!(analysis.confidence_level, 800000);
}

fn round_with(
    round: usize,
    baseline: u64,
    best: u64,
    improve: u64,
    expected: i128,
    risk: u64,
) -> rummy::analysis::RoundProbabilities {
    rummy::analysis::RoundProbabilities {
        round,
        total_simulations: 1,
        baseline_score: baseline,
        improvements: vec![rummy::analysis::ImprovementOutcome {
            final_score: best,
            improvement: best as i128 - baseline as i128,
            probability: PPM,
            mass: ROOT_MASS,
            path_count: 1,
        }],
        total_mass: ROOT_MASS,
        probability_of_improvement: improve,
        expected_improvement: expected,
        risk_of_degradation: risk,
    }
}

fn analysis_of(baseline: u64, rounds: Vec<rummy::analysis::RoundProbabilities>) -> HandProbabilityAnalysis {
    HandProbabilityAnalysis {
        current_baseline: baseline,
        round_probabilities: rounds,
        optimal_stop_round: None,
        confidence_level: 0,
        analysis_details: None,
    }
}

#[test]
fn conservative_draws_without_a_meld() {
    let node = root(&["2s", "4h", "6c", "8d", "10s", "Qh"], &[]);
    let rounds = (0..4).map(|r| round_with(r, 0, 0, 1, -3_000_000, 0)).collect();
    let analysis = analysis_of(0, rounds);
    assert!(analysis.is_well_formed());
    let decision = node.make_autoplay_decision(PlayerType::Conservative, &analysis);
    assert_eq!(decision.action, PlayAction::Draw);
    assert!(decision.card_to_discard.is_some());
}

#[test]
fn aggressive_draws_for_upside_despite_small_loss() {
    let node = root(&["2s", "2h", "6c", "8d", "10s", "Qh"], &[]);
    let rounds = vec![round_with(0, 10, 10, 0, 0, 0), round_with(1, 10, 20, 0, -400_000, 0)];
    let analysis = analysis_of(10, rounds);
    let decision = node.make_autoplay_decision(PlayerType::Aggressive, &analysis);
    assert_eq!(decision.action, PlayAction::Draw);
    assert_eq!(decision.confidence, 700000);
}

#[test]
fn strong_hand_is_played() {
    let node = root(&["As", "Ks", "Qs", "Js", "10s", "2h"], &[]);
    let rounds = (0..4).map(|r| round_with(r, 100, 100, 0, 0, 0)).collect();
    let analysis = analysis_of(100, rounds);
    for profile in [PlayerType::Conservative, PlayerType::Balanced] {
        let decision = node.make_autoplay_decision(profile, &analysis);
        assert_eq!(decision.action, PlayAction::Play);
        assert_eq!(decision.card_to_discard, None);
        assert_eq!(decision.expected_score, 100 * 10_000_000);
    }
}

#[test]
fn worst_card_has_lowest_strategic_value() {
    let node = root(&["2s", "2h", "2c", "9d", "Kh", "3s"], &[]);
    let worst = node.find_worst_card_to_discard();
    // each two carries the trips: its immediate contribution (13) is
    // counted against it twice as risk, and the club two has the least synergy
    assert_eq!(worst, card("2c"));
    let values = node.calculate_strategic_card_values_correct(&analysis_of(node.baseline_score, vec![]));
    assert_eq!(values.len(), 6);
    for pair in values.windows(2) {
        assert!(pair[0].strategic_value <= pair[1].strategic_value);
    }
    assert_eq!(values[0].card, worst);
    assert_eq!(values[0].strategic_value, -4 * 100_000_000);
    let nine = values.iter().find(|v| v.card == card("9d")).unwrap();
    assert_eq!(nine.strategic_value, 0);
}

#[test]
fn parallel_build_matches_the_serial_shape() {
    let pool = ["7d", "Kc", "Qh"];
    let mut node = root(&["2s", "2h", "3c", "4d", "9s", "Jh"], &pool);
    rummy::analysis::evaluate_hand_parallel(&mut node).unwrap();
    assert_eq!(node.possible_hands.len(), 6);
    let scoring = node.possible_hands.iter().filter(|p| p.meld_score > 0).count();
    assert_eq!(node.branches.len(), scoring * pool.len());
    for branch in &node.branches {
        assert_eq!(branch.depth, 1);
        let scoring = branch.possible_hands.iter().filter(|p| p.meld_score > 0).count();
        assert_eq!(branch.branches.len(), scoring * (pool.len() - 1));
    }
}

#[test]
fn play_decision_explains_itself() {
    let node = root(&["2s", "2h", "2c", "9d", "Kh", "3s"], &[]);
    let rounds = vec![round_with(0, 15, 15, 0, 0, 0), round_with(1, 15, 20, 123_456, 500_000, 250_000)];
    let analysis = analysis_of(15, rounds);
    let decision = node.make_play_decision(&analysis);
    assert!(decision.should_play);
    assert_eq!(
        decision.reasoning,
        "Unfavorable odds: 12.3% success, 25.0% risk; Medium hand, poor draw prospects"
    );
    assert!(decision.alternative_strategies.is_empty());

    let rounds = vec![round_with(0, 5, 5, 0, 0, 0), round_with(1, 5, 20, 600_000, 2_000_000, 100_000)];
    let decision = node.make_play_decision(&analysis_of(5, rounds));
    assert!(!decision.should_play);
    assert_eq!(
        decision.reasoning,
        "Favorable risk/reward for drawing; Weak hand, worth drawing to improve"
    );
    assert_eq!(decision.alternative_strategies.len(), 2);

    let rounds = vec![round_with(0, 40, 40, 0, 0, 0)];
    let decision = node.make_play_decision(&analysis_of(40, rounds));
    assert_eq!(decision.reasoning, "Strong current hand (score 40); Hand is strong enough to play");
}

#[test]
fn multi_round_decision_weighs_draw_values() {
    let node = root(&["2s", "4h", "6c", "8d", "10s", "Qh"], &[]);
    // drawing once is worth 2 points less nothing: above every bar but the
    // conservative one
    let rounds = vec![round_with(0, 0, 0, 0, 0, 0), round_with(1, 0, 5, 400_000, 1_000_000, 0)];
    let analysis = analysis_of(0, rounds);
    let decision = node.make_multi_round_decision(PlayerType::Balanced, &analysis);
    assert_eq!(decision.action, PlayAction::Draw);
    assert_eq!(decision.confidence, 750000);
    assert_eq!(decision.expected_score, 10_000_000);
    let decision = node.make_multi_round_decision(PlayerType::Conservative, &analysis);
    assert_eq!(decision.action, PlayAction::Play);
}

#[test]
fn realistic_probabilities_keep_recorded_rounds() {
    let mut node = root(&["2s", "2h", "3c", "4d", "9s", "Jh"], &["7d", "Kc"]);
    evaluate_hand(&mut node).unwrap();
    let analysis = node.calculate_realistic_probabilities();
    assert_eq!(analysis.round_probabilities.len(), 3);
    assert_eq!(analysis.confidence_level, 750000);
    assert_eq!(analysis.round_probabilities[1].round, 1);
    assert_eq!(analysis.round_probabilities[2].round, 2);
    let details = analysis.analysis_details.unwrap();
    assert_eq!(analysis.optimal_stop_round, Some(details.conservative_choice));
}

#[test]
fn executing_a_draw_discards_the_worst_card() {
    let mut node = root(&["2s", "2h", "2c", "9d", "Kh"], &[]);
    node.baseline_score = 15;
    let mut deck = Deck { draw_pile: VecDeque::new(), discard_pile: VecDeque::new() };
    assert!(node.execute_autoplay_action(&PlayAction::Draw, &mut deck).is_err());
    assert_eq!(node.execute_autoplay_action(&PlayAction::Play, &mut deck), Ok(15));
    deck.draw_pile.push_back(card("3s"));
    let score = node.execute_autoplay_action(&PlayAction::Draw, &mut deck).unwrap();
    assert_eq!(node.full_hand.cards.len(), 5);
    assert_eq!(deck.discard_pile.len(), 1);
    assert!(deck.draw_pile.is_empty());
    assert_eq!(score, node.baseline_score);
    assert_eq!(score, calculate_best_meld_from_5_card_hand(&node.full_hand).0);
}

#[test]
fn shuffled_deck_is_not_in_dealing_order() {
    let deck: Vec<Card> = shuffle_deck().unwrap().into_iter().collect();
    let mut fresh = Vec::new();
    for suite in ["s", "h", "d", "c"] {
        for name in ["2", "3", "4", "5", "6", "7", "8", "9", "10", "J", "Q", "K", "A"] {
            fresh.push(card(&format!("{name}{suite}")));
        }
    }
    assert_ne!(deck, fresh);
    for c in &fresh {
        assert!(deck.contains(c));
    }
}

#[test]
fn expansion_samples_at_most_ten_draws() {
    let pool = ["7d", "Kc", "Qh", "5c", "6h", "8s", "9c", "10d", "Jc", "Ad", "4h", "3d"];
    let mut node = root(&["2s", "2h", "3c", "4d", "9s", "Jh"], &pool);
    node.depth = MAX_DEPTH - 1;
    node.baseline_score = 100;
    evaluate_hand(&mut node).unwrap();
    assert!(node.branches.is_empty());
    let mut node = root(&["2s", "2h", "3c", "4d", "9s", "Jh"], &pool);
    node.depth = 1;
    evaluate_hand(&mut node).unwrap();
    let scoring = node.possible_hands.iter().filter(|p| p.meld_score > 0).count();
    assert_eq!(node.branches.len(), scoring * SAMPLE_SIZE);
    for branch in &node.branches {
        assert!(pool.iter().any(|t| branch.full_hand.cards.contains(&card(t))));
        for pair in branch.full_hand.cards.windows(2) {
            assert!(pair[0] <= pair[1]);
        }
        assert_eq!(branch.possible_cards.len(), pool.len() - 1);
    }
}

#[test]
fn trips_with_a_run_make_a_full_set() {
    let texts = ["2s", "2h", "2c", "3d", "4s"];
    let cards = hand(&texts).cards;
    assert_eq!(full_set_score(CardVec::from_vec(cards)).unwrap(), 35);
    assert_eq!(five_card_score(&texts), 35);
}

#[test]
fn cards_order_by_rank() {
    assert!(card("2s") < card("3h"));
    assert!(card("Ah") > card("Kh"));
    assert_eq!(card("9s").partial_cmp(&card("9d")), Some(std::cmp::Ordering::Equal));
}

#[test]
fn two_simulated_rounds_still_let_profiles_draw() {
    let node = root(&["2s", "4h", "6c", "8d", "10s", "Qh"], &[]);
    let rounds = (0..3).map(|r| round_with(r, 0, 0, 1, -3_000_000, 0)).collect();
    let decision = node.make_autoplay_decision(PlayerType::Conservative, &analysis_of(0, rounds));
    assert_eq!(decision.action, PlayAction::Draw);
    let rounds = vec![
        round_with(0, 10, 10, 0, 0, 0),
        round_with(1, 10, 19, 0, -400_000, 0),
        round_with(2, 10, 10, 0, -2_000_000, 0),
    ];
    let decision = node.make_autoplay_decision(PlayerType::Aggressive, &analysis_of(10, rounds));
    assert_eq!(decision.action, PlayAction::Draw);
}

#[test]
fn odd_masses_are_not_lost() {
    let mut node = root(&["2s", "2h", "3c", "4d", "9s", "Jh"], &["7d", "Kc", "3h", "5s", "6c", "8h", "9d"]);
    evaluate_hand(&mut node).unwrap();
    let analysis = node.calculate_realistic_probabilities();
    for round in &analysis.round_probabilities {
        let sum: u64 = round.improvements.iter().map(|o| o.mass).sum();
        assert_eq!(sum, ROOT_MASS);
    }
}

#[test]
fn building_orders_the_hand_by_rank() {
    let mut node = root(&["9s", "3h", "Kc", "2d", "3s", "Jh"], &["7d"]);
    evaluate_hand(&mut node).unwrap();
    assert_eq!(node.full_hand.cards, hand(&["2d", "3h", "3s", "9s", "Jh", "Kc"]).cards);
    for (i, possible) in node.possible_hands.iter().enumerate() {
        assert_eq!(possible.discard, node.full_hand.cards[i]);
    }
    let mut node = root(&["9s", "3h", "Kc", "2d", "3s", "Jh"], &["7d"]);
    rummy::analysis::evaluate_hand_parallel(&mut node).unwrap();
    assert_eq!(node.full_hand.cards, hand(&["2d", "3h", "3s", "9s", "Jh", "Kc"]).cards);
    for branch in &node.branches {
        for pair in branch.full_hand.cards.windows(2) {
            assert!(pair[0] <= pair[1]);
        }
    }
}

#[test]
fn realistic_probabilities_hold_rounds_zero_to_two() {
    let node = root(&["2s", "2h", "3c", "4d", "9s", "Jh"], &[]);
    let analysis = node.calculate_realistic_probabilities();
    assert_eq!(analysis.round_probabilities.len(), 3);
    for (k, round) in analysis.round_probabilities.iter().enumerate() {
        assert_eq!(round.round, k);
        assert_eq!(round.total_mass, ROOT_MASS);
    }
}
