//! From a built tree to a decision: per-round summaries, card values and the
//! three risk profiles.
//!
//! Figures are fixed-point integers: probabilities in parts per million
//! (`PPM`), expected improvements in millionths of a point.
use crate::analysis::{
    branches_tally, capped, lemma_tree_round_is_whole, remove_card, round_bounded, round_leaves, round_ok, tally, without_card,
    ImprovementOutcome, Node, RoundProbabilities, PPM, ROOT_MASS,
};
use crate::card::{Card, Suite, ToU64};
use crate::game::{
    calculate_best_meld_from_hand, resolved_score, AutoPlayDecision, Deck, Hand, PlayAction,
    PlayerType,
};
use crate::scoring::{
    contains_value, count_value, has_value, meld_points, meld_score, value_count,
};
use vstd::prelude::*;
use vstd::string::StringExecFns;

verus! {

/// The round each risk profile would stop after.
#[derive(Clone, Copy, Debug, PartialEq, Eq, Structural)]
pub struct DecisionAnalysis {
    pub conservative_choice: usize,
    pub aggressive_choice: usize,
    pub balanced_choice: usize,
}

/// The baseline of a hand with one summary per simulated round (round 0 is
/// the hand as it stands), a recommended stopping round and a confidence in
/// parts per million.
#[derive(Clone, Debug)]
pub struct HandProbabilityAnalysis {
    pub current_baseline: u64,
    pub round_probabilities: Vec<RoundProbabilities>,
    pub optimal_stop_round: Option<usize>,
    pub confidence_level: u64,
    pub analysis_details: Option<DecisionAnalysis>,
}

impl HandProbabilityAnalysis {
    /// Every round's figures are in range.
    pub open spec fn wf(&self) -> bool {
        forall|i: int|
            0 <= i < self.round_probabilities@.len() ==> #[trigger] round_bounded(
                self.round_probabilities@[i],
            )
    }

    /// Whether every round's figures are in range.
    pub fn is_well_formed(&self) -> (r: bool)
        ensures
            r == self.wf(),
    {
        let mut i: usize = 0;
        while i < self.round_probabilities.len()
            invariant
                i <= self.round_probabilities@.len(),
                forall|k: int| 0 <= k < i ==> #[trigger] round_bounded(self.round_probabilities@[k]),
            decreases self.round_probabilities@.len() - i,
        {
            let r = &self.round_probabilities[i];
            if !(r.probability_of_improvement <= PPM && r.risk_of_degradation <= PPM
                && -crate::analysis::EXPECT_LIMIT <= r.expected_improvement
                && r.expected_improvement <= crate::analysis::EXPECT_LIMIT) {
                assert(!round_bounded(self.round_probabilities@[i as int]));
                return false;
            }
            i = i + 1;
        }
        true
    }
}

/// The stopping round with its confidence and the per-profile choices.
#[derive(Clone, Copy, Debug)]
struct CombinedAnalysis {
    optimal_round: usize,
    confidence: u64,
    details: DecisionAnalysis,
}

/// A round's expected improvement less `w` tenths of its risk times the
/// baseline, in ten-millionths of a point.
pub open spec fn risk_adjusted(r: RoundProbabilities, b: u64, w: int) -> int {
    10 * r.expected_improvement - w * r.risk_of_degradation * b
}

/// The round to stop after, from the risk-adjusted values of rounds one to
/// three: the first that beats the next shallower option and is positive.
pub open spec fn optimal_round(r1: RoundProbabilities, r2: RoundProbabilities, r3: RoundProbabilities, b: u64) -> usize {
    let e1 = risk_adjusted(r1, b, 5);
    let e2 = risk_adjusted(r2, b, 6);
    let e3 = risk_adjusted(r3, b, 7);
    if e1 > e2 && e1 > 0 {
        1
    } else if e2 > e1 && e2 > 0 {
        2
    } else if e3 > e2 && e3 > 0 {
        3
    } else {
        0
    }
}

/// The confidence in stopping after `round`: high when playing at once, else
/// growing with the round's chance of improvement and shrinking with its risk.
pub open spec fn stop_confidence(round: usize, r: RoundProbabilities) -> u64 {
    if round == 0 {
        800000
    } else {
        (500000 + (3 * r.probability_of_improvement + 2 * (PPM - r.risk_of_degradation)) / 10) as u64
    }
}

/// The round each profile would stop after, from rounds one and two.
pub open spec fn profile_choices(r1: RoundProbabilities, r2: RoundProbabilities, b: u64) -> DecisionAnalysis {
    let c1 = risk_adjusted(r1, b, 10);
    let c2 = risk_adjusted(r2, b, 12);
    let a1 = risk_adjusted(r1, b, 2) + 50 * r1.probability_of_improvement;
    let a2 = risk_adjusted(r2, b, 3) + 70 * r2.probability_of_improvement;
    let b1 = risk_adjusted(r1, b, 5) + 20 * r1.probability_of_improvement;
    let b2 = risk_adjusted(r2, b, 6) + 30 * r2.probability_of_improvement;
    DecisionAnalysis {
        conservative_choice: if c2 > c1 && c2 > 0 {
            2
        } else if c1 > 0 {
            1
        } else {
            0
        },
        aggressive_choice: if a2 > a1 {
            2
        } else if a1 > 0 {
            1
        } else {
            0
        },
        balanced_choice: if b2 > b1 && b2 > 10000000 {
            2
        } else if b1 > 5000000 {
            1
        } else {
            0
        },
    }
}

/// A bound on the size of the policy's intermediate values (two to the
/// hundredth).
pub const VALUE_LIMIT: i128 = 1267650600228229401496703205376;

/// `x * w` for a value and a weight in range.
fn weigh(x: i128, w: i128) -> (r: i128)
    requires
        -VALUE_LIMIT <= x <= VALUE_LIMIT,
        -120 <= w <= 120,
    ensures
        r == x * w,
{
    assert(-VALUE_LIMIT * 120 <= x * w <= VALUE_LIMIT * 120) by (nonlinear_arith)
        requires
            -VALUE_LIMIT <= x <= VALUE_LIMIT,
            -120 <= w <= 120,
    ;
    x * w
}

/// `risk_adjusted(r, b, w)` computed.
fn adjusted(r: &RoundProbabilities, b: u64, w: i128) -> (v: i128)
    requires
        round_bounded(*r),
        0 <= w <= 12,
    ensures
        v == risk_adjusted(*r, b, w as int),
        -VALUE_LIMIT / 64 <= v <= VALUE_LIMIT / 64,
{
    assert((r.risk_of_degradation as i128) * (b as i128) <= PPM * u64::MAX) by (nonlinear_arith)
        requires
            r.risk_of_degradation <= PPM,
            b <= u64::MAX,
    ;
    assert((r.risk_of_degradation as i128) * (b as i128) >= 0) by (nonlinear_arith);
    let rb = (r.risk_of_degradation as i128) * (b as i128);
    let e10 = weigh(r.expected_improvement, 10);
    let rbw = weigh(rb, w);
    assert(-10 * crate::analysis::EXPECT_LIMIT <= e10 <= 10 * crate::analysis::EXPECT_LIMIT) by (nonlinear_arith)
        requires
            e10 == r.expected_improvement * 10,
            -crate::analysis::EXPECT_LIMIT <= r.expected_improvement <= crate::analysis::EXPECT_LIMIT,
    ;
    assert(0 <= rbw <= 12 * (PPM * u64::MAX)) by (nonlinear_arith)
        requires
            rbw == rb * w,
            0 <= rb <= PPM * u64::MAX,
            0 <= w <= 12,
    ;
    assert(rbw == w * r.risk_of_degradation * b) by (nonlinear_arith)
        requires
            rbw == rb * w,
            rb == r.risk_of_degradation * b,
    ;
    e10 - rbw
}


/// `r0` is the summary of round 0 for baseline `b`: one outcome, the
/// baseline itself, with the whole mass.
pub open spec fn is_baseline_round(r0: RoundProbabilities, b: u64) -> bool {
    &&& r0.round == 0
    &&& r0.total_simulations == 1
    &&& r0.baseline_score == b
    &&& r0.total_mass == ROOT_MASS
    &&& r0.probability_of_improvement == 0
    &&& r0.expected_improvement == 0
    &&& r0.risk_of_degradation == 0
    &&& r0.improvements@ == seq![
        ImprovementOutcome {
            final_score: b,
            improvement: 0,
            probability: PPM,
            mass: ROOT_MASS,
            path_count: 1,
        },
    ]
}

/// `a` summarises the tree below `n` over rounds 0 to 3.
pub open spec fn cumulative_ok(n: Node, a: HandProbabilityAnalysis) -> bool {
    let b = n.baseline_score;
    let rs = a.round_probabilities@;
    &&& a.current_baseline == b
    &&& rs.len() == 4
    &&& is_baseline_round(rs[0], b)
    &&& forall|k: int| 1 <= k < 4 ==> #[trigger] round_ok(rs[k], round_leaves(n, k), b, k)
    &&& a.wf()
    &&& a.optimal_stop_round == Some(optimal_round(rs[1], rs[2], rs[3], b))
    &&& a.confidence_level == stop_confidence(
        optimal_round(rs[1], rs[2], rs[3], b),
        rs[optimal_round(rs[1], rs[2], rs[3], b) as int],
    )
    &&& a.analysis_details == Some(profile_choices(rs[1], rs[2], b))
}

impl Node {
    /// The summary of round 0.
    fn create_baseline_round(&self, baseline: u64) -> (r: RoundProbabilities)
        ensures
            is_baseline_round(r, baseline),
            round_bounded(r),
    {
        let mut improvements: Vec<ImprovementOutcome> = Vec::new();
        improvements.push(
            ImprovementOutcome {
                final_score: baseline,
                improvement: 0,
                probability: PPM,
                mass: ROOT_MASS,
                path_count: 1,
            },
        );
        assert(improvements@ =~= seq![
            ImprovementOutcome {
                final_score: baseline,
                improvement: 0,
                probability: PPM,
                mass: ROOT_MASS,
                path_count: 1,
            },
        ]);
        RoundProbabilities {
            round: 0,
            total_simulations: 1,
            baseline_score: baseline,
            improvements,
            total_mass: ROOT_MASS,
            probability_of_improvement: 0,
            expected_improvement: 0,
            risk_of_degradation: 0,
        }
    }

    /// Combines the summaries of rounds one to three into a stopping round,
    /// its confidence and the per-profile choices.
    fn combine_round_probabilities(
        &self,
        round_1: &RoundProbabilities,
        round_2: &RoundProbabilities,
        round_3: &RoundProbabilities,
        baseline: u64,
    ) -> (r: CombinedAnalysis)
        requires
            round_bounded(*round_1),
            round_bounded(*round_2),
            round_bounded(*round_3),
        ensures
            r.optimal_round == optimal_round(*round_1, *round_2, *round_3, baseline),
            r.optimal_round == 0 ==> r.confidence == stop_confidence(0, *round_1),
            r.optimal_round == 1 ==> r.confidence == stop_confidence(1, *round_1),
            r.optimal_round == 2 ==> r.confidence == stop_confidence(2, *round_2),
            r.optimal_round == 3 ==> r.confidence == stop_confidence(3, *round_3),
            r.details == profile_choices(*round_1, *round_2, baseline),
    {
        let e1 = adjusted(round_1, baseline, 5);
        let e2 = adjusted(round_2, baseline, 6);
        let e3 = adjusted(round_3, baseline, 7);
        let optimal: usize = if e1 > e2 && e1 > 0 {
            1
        } else if e2 > e1 && e2 > 0 {
            2
        } else if e3 > e2 && e3 > 0 {
            3
        } else {
            0
        };
        let confidence = if optimal == 0 {
            800000
        } else {
            let round = if optimal == 1 {
                round_1
            } else if optimal == 2 {
                round_2
            } else {
                round_3
            };
            500000 + (3 * round.probability_of_improvement + 2 * (PPM - round.risk_of_degradation)) / 10
        };
        CombinedAnalysis {
            optimal_round: optimal,
            confidence,
            details: self.create_decision_analysis(round_1, round_2, round_3, baseline),
        }
    }

    /// The round each profile would stop after.
    fn create_decision_analysis(
        &self,
        round_1: &RoundProbabilities,
        round_2: &RoundProbabilities,
        _round_3: &RoundProbabilities,
        baseline: u64,
    ) -> (r: DecisionAnalysis)
        requires
            round_bounded(*round_1),
            round_bounded(*round_2),
        ensures
            r == profile_choices(*round_1, *round_2, baseline),
    {
        let c1 = adjusted(round_1, baseline, 10);
        let c2 = adjusted(round_2, baseline, 12);
        let a1 = adjusted(round_1, baseline, 2) + 50 * (round_1.probability_of_improvement as i128);
        let a2 = adjusted(round_2, baseline, 3) + 70 * (round_2.probability_of_improvement as i128);
        let b1 = adjusted(round_1, baseline, 5) + 20 * (round_1.probability_of_improvement as i128);
        let b2 = adjusted(round_2, baseline, 6) + 30 * (round_2.probability_of_improvement as i128);
        DecisionAnalysis {
            conservative_choice: if c2 > c1 && c2 > 0 {
                2
            } else if c1 > 0 {
                1
            } else {
                0
            },
            aggressive_choice: if a2 > a1 {
                2
            } else if a1 > 0 {
                1
            } else {
                0
            },
            balanced_choice: if b2 > b1 && b2 > 10000000 {
                2
            } else if b1 > 5000000 {
                1
            } else {
                0
            },
        }
    }

    /// Walks the tree to depths one, two and three, and summarises each
    /// round with the stopping recommendation.
    pub fn calculate_cumulative_probabilities(&self) -> (r: HandProbabilityAnalysis)
        ensures
            cumulative_ok(*self, r),
    {
        let baseline = self.baseline_score;
        let round_1_probs = self.analyze_round_with_paths(1, baseline);
        let round_2_probs = self.analyze_round_with_paths(2, baseline);
        let round_3_probs = self.analyze_round_with_paths(3, baseline);
        let combined = self.combine_round_probabilities(
            &round_1_probs,
            &round_2_probs,
            &round_3_probs,
            baseline,
        );
        let ghost g1 = round_1_probs;
        let ghost g2 = round_2_probs;
        let ghost g3 = round_3_probs;
        let mut rounds: Vec<RoundProbabilities> = Vec::new();
        rounds.push(self.create_baseline_round(baseline));
        rounds.push(round_1_probs);
        rounds.push(round_2_probs);
        rounds.push(round_3_probs);
        let r = HandProbabilityAnalysis {
            current_baseline: baseline,
            round_probabilities: rounds,
            optimal_stop_round: Some(combined.optimal_round),
            confidence_level: combined.confidence,
            analysis_details: Some(combined.details),
        };
        assert(r.round_probabilities@[1] == g1);
        assert(r.round_probabilities@[2] == g2);
        assert(r.round_probabilities@[3] == g3);
        assert forall|k: int| 1 <= k < 4 implies #[trigger] round_ok(
            r.round_probabilities@[k],
            round_leaves(*self, k),
            baseline,
            k,
        ) by {
            if k == 1 {
            } else if k == 2 {
            } else {
            }
        }
        assert(r.wf());
        r
    }
}


// ---------------------------------------------------------------------------
// Card values, in hundred-millionths of a point.
/// One point in the unit of card values.
pub const VALUE_UNIT: i128 = 100000000;

/// How each held card serves the hand: all figures in hundred-millionths of
/// a point (`VALUE_UNIT`).
#[derive(Clone, Copy, Debug, PartialEq, Eq, Structural)]
pub struct CardValueAnalysis {
    pub card: Card,
    pub keep_expected_value: i128,
    pub discard_expected_value: i128,
    pub net_value: i128,
    pub risk_impact: i128,
    pub strategic_value: i128,
}

/// The best score left when every copy of `c` is taken out of the hand.
pub open spec fn score_without(hand: Seq<Card>, c: Card) -> u64 {
    let rest = without_card(hand, c);
    if rest.len() == 5 {
        meld_score(rest)
    } else {
        resolved_score(rest)
    }
}

/// How well two cards work together: a pair, close ranks, a shared suite.
pub open spec fn pair_synergy(a: Card, b: Card) -> int {
    let d = if a.value() >= b.value() {
        a.value() - b.value()
    } else {
        b.value() - a.value()
    };
    (if a.rank == b.rank {
        5int
    } else {
        0int
    }) + (if d <= 2 {
        3 - d
    } else {
        0int
    }) + (if a.suite == b.suite {
        2int
    } else {
        0int
    })
}

/// The synergy of `c` with the first `k` cards of the hand other than `c`.
pub open spec fn synergy(hand: Seq<Card>, c: Card, k: int) -> int
    decreases k,
{
    if k <= 0 || k > hand.len() {
        0
    } else {
        synergy(hand, c, k - 1) + if hand[k - 1] != c {
            pair_synergy(c, hand[k - 1])
        } else {
            0
        }
    }
}

/// The value of holding `c` in `n`'s hand, where `risk1` is the risk of
/// degradation of round one when there is one.
pub open spec fn card_value(n: Node, c: Card, risk1: Option<u64>) -> CardValueAnalysis {
    card_value_in(n, n.full_hand.cards@, c, risk1)
}

/// The value of holding `c` in `hand`, with `n`'s baseline and tree.
pub open spec fn card_value_in(n: Node, hand: Seq<Card>, c: Card, risk1: Option<u64>) -> CardValueAnalysis {
    let imm = n.baseline_score - score_without(hand, c);
    let t = capped(tally(n, c));
    let future = if t.1 > 0 {
        t.3 * VALUE_UNIT / t.1 as int
    } else {
        0
    };
    let part = if t.0 > 0 {
        t.2 * VALUE_UNIT / t.0 as int
    } else {
        0
    };
    let syn = synergy(hand, c, hand.len() as int);
    let risk = (if imm > 0 {
        2 * imm * VALUE_UNIT
    } else {
        0
    }) + 3 * part + match risk1 {
        Some(r) => 10 * r * n.baseline_score,
        None => 0,
    };
    CardValueAnalysis {
        card: c,
        keep_expected_value: (imm * VALUE_UNIT + future) as i128,
        discard_expected_value: 0,
        net_value: (10 * part) as i128,
        risk_impact: risk as i128,
        strategic_value: (imm * VALUE_UNIT + 7 * future / 10 + syn * VALUE_UNIT / 2 - risk) as i128,
    }
}

/// The risk of round one of an analysis, when it has a round one.
pub open spec fn round_one_risk(a: HandProbabilityAnalysis) -> Option<u64> {
    if a.round_probabilities@.len() > 1 {
        Some(a.round_probabilities@[1].risk_of_degradation)
    } else {
        None
    }
}

/// The values of the hand's cards, in hand order.
pub open spec fn hand_values(n: Node, risk1: Option<u64>) -> Seq<CardValueAnalysis> {
    hand_values_in(n, n.full_hand.cards@, risk1)
}

/// The values of the cards of `hand`, in order, with `n`'s baseline and tree.
pub open spec fn hand_values_in(n: Node, hand: Seq<Card>, risk1: Option<u64>) -> Seq<CardValueAnalysis> {
    Seq::new(hand.len(), |i: int| card_value_in(n, hand, hand[i], risk1))
}

proof fn lemma_branches_tally_same(a: Node, b: Node, c: Card, j: int)
    requires
        a.branches == b.branches,
    ensures
        branches_tally(a, c, j) == branches_tally(b, c, j),
    decreases j,
{
    if j > 0 {
        lemma_branches_tally_same(a, b, c, j - 1);
    }
}

/// Two nodes with the same baseline, possible hands and branches value every
/// card of a hand alike.
proof fn lemma_values_same_tree(a: Node, b: Node, hand: Seq<Card>)
    requires
        a.baseline_score == b.baseline_score,
        a.possible_hands == b.possible_hands,
        a.branches == b.branches,
    ensures
        hand_values_in(a, hand, None) == hand_values_in(b, hand, None),
{
    assert forall|c: Card| tally(a, c) == #[trigger] tally(b, c) by {
        lemma_branches_tally_same(a, b, c, a.branches@.len() as int);
    }
    assert(hand_values_in(a, hand, None) =~= hand_values_in(b, hand, None));
}

impl Node {
    /// The best score left without `c` (see `score_without`).
    fn calculate_score_without_card(&self, target_card: Card) -> (r: u64)
        ensures
            r == score_without(self.full_hand.cards@, target_card),
    {
        let rest = remove_card(&self.full_hand.cards, target_card);
        if rest.len() == 5 {
            meld_points(&rest)
        } else {
            let (score, _hand) = calculate_best_meld_from_hand(&Hand { cards: rest });
            score
        }
    }

    /// The synergy of `c` with the other cards of the hand.
    fn calculate_card_synergy(&self, target_card: Card) -> (r: i128)
        ensures
            r == synergy(self.full_hand.cards@, target_card, self.full_hand.cards@.len() as int),
            0 <= r <= 10 * self.full_hand.cards@.len(),
    {
        let hand = &self.full_hand.cards;
        let mut syn: i128 = 0;
        let mut k: usize = 0;
        while k < hand.len()
            invariant
                k <= hand@.len(),
                syn == synergy(hand@, target_card, k as int),
                0 <= syn <= 10 * k,
            decreases hand@.len() - k,
        {
            if hand[k] != target_card {
                syn = syn + calculate_card_pair_synergy(target_card, hand[k]);
            }
            k = k + 1;
        }
        syn
    }

    /// The value of holding `target_card` (see `card_value`).
    fn calculate_future_meld_potential(&self, target_card: Card, risk1: Option<u64>) -> (r: CardValueAnalysis)
        requires
            risk1 matches Some(x) ==> x <= PPM,
        ensures
            r == card_value(*self, target_card, risk1),
    {
        let b = self.baseline_score as i128;
        let imm = b - (self.calculate_score_without_card(target_card) as i128);
        let t = self.tally_card(target_card);
        let future: i128 = if t.1 > 0 {
            ((t.3 as u128) * (VALUE_UNIT as u128) / (t.1 as u128)) as i128
        } else {
            0
        };
        proof {
            if t.1 > 0 {
                assert((t.3 as u128) * (VALUE_UNIT as u128) <= u64::MAX * VALUE_UNIT) by (nonlinear_arith)
                    requires
                        t.3 <= u64::MAX,
                ;
                vstd::arithmetic::div_mod::lemma_div_is_ordered_by_denominator(
                    (t.3 * VALUE_UNIT) as int,
                    1,
                    t.1 as int,
                );
            }
        }
        let part: i128 = if t.0 > 0 {
            ((t.2 as u128) * (VALUE_UNIT as u128) / (t.0 as u128)) as i128
        } else {
            0
        };
        proof {
            if t.0 > 0 {
                assert((t.2 as u128) * (VALUE_UNIT as u128) <= u64::MAX * VALUE_UNIT) by (nonlinear_arith)
                    requires
                        t.2 <= u64::MAX,
                ;
                vstd::arithmetic::div_mod::lemma_div_is_ordered_by_denominator(
                    (t.2 * VALUE_UNIT) as int,
                    1,
                    t.0 as int,
                );
            }
        }
        let syn = self.calculate_card_synergy(target_card);
        let n = self.full_hand.cards.len();
        assert(syn <= 10 * (usize::MAX as int));
        let risk_now: i128 = if imm > 0 {
            2 * imm * VALUE_UNIT
        } else {
            0
        };
        let risk_later: i128 = match risk1 {
            Some(r) => {
                assert((r as i128) * b <= PPM * u64::MAX) by (nonlinear_arith)
                    requires
                        r <= PPM,
                        0 <= b <= u64::MAX,
                ;
                assert((r as i128) * b >= 0) by (nonlinear_arith)
                    requires
                        b >= 0,
                ;
                assert(10 * ((r as i128) * b) == 10 * r * b) by (nonlinear_arith);
                10 * ((r as i128) * b)
            },
            None => 0,
        };
        let risk = risk_now + 3 * part + risk_later;
        let strategic = imm * VALUE_UNIT + 7 * future / 10 + syn * VALUE_UNIT / 2 - risk;
        CardValueAnalysis {
            card: target_card,
            keep_expected_value: imm * VALUE_UNIT + future,
            discard_expected_value: 0,
            net_value: 10 * part,
            risk_impact: risk,
            strategic_value: strategic,
        }
    }

    /// The values of the hand's cards, in hand order.
    fn card_values_in_hand_order(&self, risk1: Option<u64>) -> (r: Vec<CardValueAnalysis>)
        requires
            risk1 matches Some(x) ==> x <= PPM,
        ensures
            r@ == hand_values(*self, risk1),
    {
        let mut r: Vec<CardValueAnalysis> = Vec::new();
        let mut i: usize = 0;
        while i < self.full_hand.cards.len()
            invariant
                i <= self.full_hand.cards@.len(),
                risk1 matches Some(x) ==> x <= PPM,
                r@ == hand_values(*self, risk1).subrange(0, i as int),
            decreases self.full_hand.cards@.len() - i,
        {
            let v = self.calculate_future_meld_potential(self.full_hand.cards[i], risk1);
            r.push(v);
            assert(r@ =~= hand_values(*self, risk1).subrange(0, i + 1));
            i = i + 1;
        }
        assert(r@ =~= hand_values(*self, risk1));
        r
    }

    /// The values of the hand's cards, lowest strategic value (best to
    /// discard) first.
    pub fn calculate_strategic_card_values_correct(
        &self,
        prob_analysis: &HandProbabilityAnalysis,
    ) -> (r: Vec<CardValueAnalysis>)
        requires
            prob_analysis.wf(),
        ensures
            r@ == stable_sorted(hand_values(*self, round_one_risk(*prob_analysis))),
            r@.to_multiset() == hand_values(*self, round_one_risk(*prob_analysis)).to_multiset(),
            forall|i: int, j: int|
                0 <= i < j < r@.len() ==> #[trigger] r@[i].strategic_value <= #[trigger] r@[j].strategic_value,
    {
        let risk1 = if prob_analysis.round_probabilities.len() > 1 {
            Some(prob_analysis.round_probabilities[1].risk_of_degradation)
        } else {
            None
        };
        assert(risk1 matches Some(x) ==> x <= PPM) by {
            if prob_analysis.round_probabilities@.len() > 1 {
                assert(round_bounded(prob_analysis.round_probabilities@[1]));
            }
        }
        let values = self.card_values_in_hand_order(risk1);
        let mut sorted: Vec<CardValueAnalysis> = Vec::new();
        assert(values@.subrange(0, 0) =~= sorted@);
        let mut i: usize = 0;
        while i < values.len()
            invariant
                i <= values@.len(),
                sorted@.to_multiset() == values@.subrange(0, i as int).to_multiset(),
                sorted@ == stable_sorted(values@.subrange(0, i as int)),
                forall|a: int, b: int|
                    0 <= a < b < sorted@.len() ==> #[trigger] sorted@[a].strategic_value
                        <= #[trigger] sorted@[b].strategic_value,
            decreases values@.len() - i,
        {
            let x = values[i];
            let mut p: usize = 0;
            while p < sorted.len() && sorted[p].strategic_value <= x.strategic_value
                invariant
                    p <= sorted@.len(),
                    forall|a: int| 0 <= a < p ==> #[trigger] sorted@[a].strategic_value <= x.strategic_value,
                decreases sorted@.len() - p,
            {
                p = p + 1;
            }
            let ghost s0 = sorted@;
            proof {
                lemma_insert_ordered(s0, x, p as int);
                assert(values@.subrange(0, i + 1).drop_last() =~= values@.subrange(0, i as int));
            }
            sorted.insert(p, x);
            proof {
                assert(values@.subrange(0, i + 1) =~= values@.subrange(0, i as int).push(x));
                values@.subrange(0, i as int).to_multiset_ensures();
                assert(s0.insert(p as int, x) =~= s0.subrange(0, p as int).push(x) + s0.subrange(p as int, s0.len() as int));
                assert(s0 =~= s0.subrange(0, p as int) + s0.subrange(p as int, s0.len() as int));
                vstd::seq_lib::lemma_multiset_commutative(s0.subrange(0, p as int).push(x), s0.subrange(p as int, s0.len() as int));
                vstd::seq_lib::lemma_multiset_commutative(s0.subrange(0, p as int), s0.subrange(p as int, s0.len() as int));
                s0.subrange(0, p as int).to_multiset_ensures();
                assert(sorted@.to_multiset() =~= values@.subrange(0, i + 1).to_multiset());
                assert forall|a: int, b: int|
                    0 <= a < b < sorted@.len() implies #[trigger] sorted@[a].strategic_value
                        <= #[trigger] sorted@[b].strategic_value by {
                    if b < p {
                    } else if b == p {
                    } else if a < p {
                        assert(sorted@[b] == s0[b - 1]);
                        if p < s0.len() {
                            assert(s0[p as int].strategic_value > x.strategic_value);
                        }
                    } else if a == p {
                        assert(sorted@[b] == s0[b - 1]);
                        assert(s0[p as int].strategic_value > x.strategic_value);
                        assert(s0[p as int].strategic_value <= s0[b - 1].strategic_value || b - 1 == p);
                    } else {
                        assert(sorted@[b] == s0[b - 1]);
                        assert(sorted@[a] == s0[a - 1]);
                    }
                }
            }
            i = i + 1;
        }
        assert(values@.subrange(0, values@.len() as int) =~= values@);
        sorted
    }

    /// The card with the lowest strategic value, counting no simulated round;
    /// of equal values the one earliest in the hand.
    pub fn find_worst_card_to_discard(&self) -> (r: Card)
        requires
            self.full_hand.cards@.len() > 0,
        ensures
            exists|i: int|
                0 <= i < self.full_hand.cards@.len() && r == self.full_hand.cards@[i] && is_worst(
                    hand_values(*self, None),
                    i,
                ),
    {
        let values = self.card_values_in_hand_order(None);
        let mut best: usize = 0;
        let mut i: usize = 1;
        while i < values.len()
            invariant
                values@ == hand_values(*self, None),
                values@.len() == self.full_hand.cards@.len(),
                0 <= best < i <= values@.len(),
                forall|k: int| 0 <= k < i ==> values@[best as int].strategic_value <= #[trigger] values@[k].strategic_value,
                forall|k: int| 0 <= k < best ==> #[trigger] values@[k].strategic_value > values@[best as int].strategic_value,
            decreases values@.len() - i,
        {
            if values[i].strategic_value < values[best].strategic_value {
                best = i;
            }
            i = i + 1;
        }
        assert(is_worst(hand_values(*self, None), best as int));
        self.full_hand.cards[best]
    }
}

/// `x` placed into `s` after its leading values that are not above `x`'s.
pub open spec fn insert_ordered(s: Seq<CardValueAnalysis>, x: CardValueAnalysis) -> Seq<CardValueAnalysis>
    decreases s.len(),
{
    if s.len() == 0 {
        seq![x]
    } else if s[0].strategic_value <= x.strategic_value {
        seq![s[0]] + insert_ordered(s.drop_first(), x)
    } else {
        seq![x] + s
    }
}

/// The values ordered by strategic value, lowest first, equal values kept in
/// their order in `v` (hand order).
pub open spec fn stable_sorted(v: Seq<CardValueAnalysis>) -> Seq<CardValueAnalysis>
    decreases v.len(),
{
    if v.len() == 0 {
        Seq::empty()
    } else {
        insert_ordered(stable_sorted(v.drop_last()), v.last())
    }
}

proof fn lemma_insert_ordered(s: Seq<CardValueAnalysis>, x: CardValueAnalysis, p: int)
    requires
        0 <= p <= s.len(),
        forall|a: int| 0 <= a < p ==> #[trigger] s[a].strategic_value <= x.strategic_value,
        p < s.len() ==> s[p].strategic_value > x.strategic_value,
    ensures
        insert_ordered(s, x) == s.insert(p, x),
    decreases p,
{
    if p == 0 {
        if s.len() == 0 {
            assert(s.insert(0, x) =~= seq![x]);
        } else {
            assert(s.insert(0, x) =~= seq![x] + s);
        }
    } else {
        let t = s.drop_first();
        assert forall|a: int| 0 <= a < p - 1 implies #[trigger] t[a].strategic_value <= x.strategic_value by {
            assert(t[a] == s[a + 1]);
        }
        lemma_insert_ordered(t, x, p - 1);
        assert(s[0].strategic_value <= x.strategic_value);
        assert(seq![s[0]] + t.insert(p - 1, x) =~= s.insert(p, x));
    }
}

/// The card at `i` has the lowest strategic value, and every card before it
/// a higher one.
pub open spec fn is_worst(v: Seq<CardValueAnalysis>, i: int) -> bool {
    &&& forall|k: int| 0 <= k < v.len() ==> v[i].strategic_value <= #[trigger] v[k].strategic_value
    &&& forall|k: int| 0 <= k < i ==> #[trigger] v[k].strategic_value > v[i].strategic_value
}

/// How well two cards work together (see `pair_synergy`).
fn calculate_card_pair_synergy(card1: Card, card2: Card) -> (r: i128)
    ensures
        r == pair_synergy(card1, card2),
        0 <= r <= 10,
{
    let mut syn: i128 = 0;
    if card1.rank == card2.rank {
        syn = syn + 5;
    }
    let v1 = rank_number(card1);
    let v2 = rank_number(card2);
    let d = if v1 >= v2 {
        v1 - v2
    } else {
        v2 - v1
    };
    if d <= 2 {
        syn = syn + 3 - d;
    }
    if card1.suite == card2.suite {
        syn = syn + 2;
    }
    syn
}

fn rank_number(c: Card) -> (v: i128)
    ensures
        v == c.value(),
{
    match c.rank.to_u64() {
        Ok(v) => v as i128,
        Err(_) => 0,
    }
}


// ---------------------------------------------------------------------------
// The risk profiles.
/// One point in the unit of expected scores (ten-millionths of a point).
pub const SCORE_UNIT: i128 = 10000000;

/// One point in the unit of risk-adjusted values (billionths of a point).
pub const NET_UNIT: i128 = 1000000000;

/// A round's expected improvement less `w` hundredths of its risk times the
/// baseline, in hundred-millionths of a point.
pub open spec fn value_of_round(r: RoundProbabilities, b: u64, w: int) -> int {
    100 * r.expected_improvement - w * r.risk_of_degradation * b
}

/// The option a profile weighs, with weights `w1`, `w2`, `w3` (hundredths)
/// on the risk of rounds one to three: (risk-adjusted value in billionths of
/// a point, probability of improvement, expected improvement, rounds). With
/// all three rounds, round three or two is taken when clearly better, else a
/// 6:4:3 blend valued on round one; with rounds one and two, round two when
/// clearly better, else a 6:4 blend valued on round one; with round one
/// alone, round one; else nothing.
pub open spec fn weighed_option(rs: Seq<RoundProbabilities>, b: u64, w1: int, w2: int, w3: int) -> (int, u64, int, usize) {
    if rs.len() >= 4 {
        let v1 = value_of_round(rs[1], b, w1);
        let v2 = value_of_round(rs[2], b, w2);
        let v3 = value_of_round(rs[3], b, w3);
        if 10 * v3 > 12 * v1 + 12 * v2 {
            (10 * v3, rs[3].probability_of_improvement, rs[3].expected_improvement as int, 2)
        } else if 10 * v2 > 12 * v1 {
            (10 * v2, rs[2].probability_of_improvement, rs[2].expected_improvement as int, 2)
        } else {
            (6 * v1 + 4 * v2 + 3 * v3, rs[1].probability_of_improvement, rs[1].expected_improvement as int, 1)
        }
    } else if rs.len() == 3 {
        let v1 = value_of_round(rs[1], b, w1);
        let v2 = value_of_round(rs[2], b, w2);
        if 10 * v2 > 12 * v1 {
            (10 * v2, rs[2].probability_of_improvement, rs[2].expected_improvement as int, 2)
        } else {
            (6 * v1 + 4 * v2, rs[1].probability_of_improvement, rs[1].expected_improvement as int, 1)
        }
    } else if rs.len() == 2 {
        (10 * value_of_round(rs[1], b, w1), rs[1].probability_of_improvement, rs[1].expected_improvement as int, 1)
    } else {
        (0, 0, 0, 0)
    }
}

/// Whether a conservative player draws: always without a meld, else on a
/// value or chance that rises with the baseline.
pub open spec fn conservative_draws(b: u64, net: int, prob: u64, imp: int) -> bool {
    if b == 0 {
        true
    } else if b < 5 {
        net > -NET_UNIT / 2 || prob > 250000
    } else if b < 10 {
        net > NET_UNIT / 2 || prob > 350000
    } else if b < 15 {
        net > NET_UNIT || prob > 450000
    } else if b < 20 {
        net > 2 * NET_UNIT || (prob > 500000 && imp > 3 * PPM)
    } else {
        net > 3 * NET_UNIT || (prob > 600000 && 5 * imp > b * PPM)
    }
}

/// Whether a balanced player draws.
pub open spec fn balanced_draws(b: u64, net: int, prob: u64, imp: int) -> bool {
    if b == 0 {
        true
    } else if b < 5 {
        net > -NET_UNIT || prob > 50000
    } else if b < 10 {
        net > 0 || prob > 100000
    } else if b < 15 {
        net > NET_UNIT / 2 || prob > 200000
    } else if b < 20 {
        net > NET_UNIT || (prob > 450000 && 2 * imp > 5 * PPM)
    } else {
        net > 2 * NET_UNIT || (prob > 500000 && 20 * imp > 3 * b * PPM)
    }
}

/// A decision to draw, with the card to discard.
pub open spec fn draws_with(d: AutoPlayDecision, n: Node, confidence: int, expected: int) -> bool {
    &&& d.action == PlayAction::Draw
    &&& d.confidence == confidence
    &&& d.expected_score == expected
    &&& d.card_to_discard matches Some(c) && exists|i: int|
        0 <= i < n.full_hand.cards@.len() && c == n.full_hand.cards@[i] && is_worst(
            hand_values(n, None),
            i,
        )
}

/// A decision to play the hand as it stands.
pub open spec fn plays_with(d: AutoPlayDecision, confidence: int, b: u64) -> bool {
    &&& d.action == PlayAction::Play
    &&& d.confidence == confidence
    &&& d.expected_score == b * SCORE_UNIT
    &&& d.card_to_discard is None
}

/// The conservative decision for `n` given the rounds `rs`.
pub open spec fn conservative_ok(d: AutoPlayDecision, n: Node, rs: Seq<RoundProbabilities>, b: u64) -> bool {
    let o = weighed_option(rs, b, 100, 120, 60);
    if conservative_draws(b, o.0, o.1, o.2) && o.3 > 0 {
        draws_with(d, n, 600000 + 3 * o.1 / 10, b * SCORE_UNIT + 10 * o.2)
    } else if rs.len() == 0 && b < 5 {
        draws_with(d, n, 500000, (b + 2) * SCORE_UNIT)
    } else {
        plays_with(d, 800000, b)
    }
}

/// The balanced decision for `n` given the rounds `rs`.
pub open spec fn balanced_ok(d: AutoPlayDecision, n: Node, rs: Seq<RoundProbabilities>, b: u64) -> bool {
    let o = weighed_option(rs, b, 40, 50, 60);
    if balanced_draws(b, o.0, o.1, o.2) && o.3 > 0 {
        draws_with(d, n, 650000 + o.1 / 4, b * SCORE_UNIT + 10 * o.2)
    } else if rs.len() == 0 && b < 8 {
        draws_with(d, n, 600000, (b + 3) * SCORE_UNIT)
    } else {
        plays_with(d, 700000, b)
    }
}

/// `value_of_round` computed.
fn round_value(r: &RoundProbabilities, b: u64, w: i128) -> (v: i128)
    requires
        round_bounded(*r),
        0 <= w <= 120,
    ensures
        v == value_of_round(*r, b, w as int),
        -VALUE_LIMIT / 32 <= v <= VALUE_LIMIT / 32,
{
    assert((r.risk_of_degradation as i128) * (b as i128) <= PPM * u64::MAX) by (nonlinear_arith)
        requires
            r.risk_of_degradation <= PPM,
            b <= u64::MAX,
    ;
    assert((r.risk_of_degradation as i128) * (b as i128) >= 0) by (nonlinear_arith);
    let rb = (r.risk_of_degradation as i128) * (b as i128);
    let e100 = weigh(r.expected_improvement, 100);
    let rbw = weigh(rb, w);
    assert(-100 * crate::analysis::EXPECT_LIMIT <= e100 <= 100 * crate::analysis::EXPECT_LIMIT) by (nonlinear_arith)
        requires
            e100 == r.expected_improvement * 100,
            -crate::analysis::EXPECT_LIMIT <= r.expected_improvement <= crate::analysis::EXPECT_LIMIT,
    ;
    assert(0 <= rbw <= 120 * (PPM * u64::MAX)) by (nonlinear_arith)
        requires
            rbw == rb * w,
            0 <= rb <= PPM * u64::MAX,
            0 <= w <= 120,
    ;
    assert(rbw == w * r.risk_of_degradation * b) by (nonlinear_arith)
        requires
            rbw == rb * w,
            rb == r.risk_of_degradation * b,
    ;
    e100 - rbw
}

/// `weighed_option` computed.
fn weigh_options(rs: &Vec<RoundProbabilities>, b: u64, w1: i128, w2: i128, w3: i128) -> (o: (i128, u64, i128, usize))
    requires
        forall|i: int| 0 <= i < rs@.len() ==> #[trigger] round_bounded(rs@[i]),
        0 <= w1 <= 120,
        0 <= w2 <= 120,
        0 <= w3 <= 120,
    ensures
        (o.0 as int, o.1, o.2 as int, o.3) == weighed_option(rs@, b, w1 as int, w2 as int, w3 as int),
        o.1 <= PPM,
        -crate::analysis::EXPECT_LIMIT <= o.2 <= crate::analysis::EXPECT_LIMIT,
        -VALUE_LIMIT <= o.0 <= VALUE_LIMIT,
{
    if rs.len() >= 4 {
        assert(round_bounded(rs@[1]) && round_bounded(rs@[2]) && round_bounded(rs@[3]));
        let v1 = round_value(&rs[1], b, w1);
        let v2 = round_value(&rs[2], b, w2);
        let v3 = round_value(&rs[3], b, w3);
        if 10 * v3 > 12 * v1 + 12 * v2 {
            (10 * v3, rs[3].probability_of_improvement, rs[3].expected_improvement, 2)
        } else if 10 * v2 > 12 * v1 {
            (10 * v2, rs[2].probability_of_improvement, rs[2].expected_improvement, 2)
        } else {
            (6 * v1 + 4 * v2 + 3 * v3, rs[1].probability_of_improvement, rs[1].expected_improvement, 1)
        }
    } else if rs.len() == 3 {
        assert(round_bounded(rs@[1]) && round_bounded(rs@[2]));
        let v1 = round_value(&rs[1], b, w1);
        let v2 = round_value(&rs[2], b, w2);
        if 10 * v2 > 12 * v1 {
            (10 * v2, rs[2].probability_of_improvement, rs[2].expected_improvement, 2)
        } else {
            (6 * v1 + 4 * v2, rs[1].probability_of_improvement, rs[1].expected_improvement, 1)
        }
    } else if rs.len() == 2 {
        assert(round_bounded(rs@[1]));
        let v1 = round_value(&rs[1], b, w1);
        (10 * v1, rs[1].probability_of_improvement, rs[1].expected_improvement, 1)
    } else {
        (0, 0, 0, 0)
    }
}

impl Node {
    /// A draw decision with the card this node would discard.
    fn draw_decision(&self, confidence: u64, expected_score: i128) -> (d: AutoPlayDecision)
        requires
            self.full_hand.cards@.len() > 0,
        ensures
            draws_with(d, *self, confidence as int, expected_score as int),
    {
        let worst = self.find_worst_card_to_discard();
        AutoPlayDecision {
            action: PlayAction::Draw,
            confidence,
            expected_score,
            card_to_discard: Some(worst),
        }
    }

    /// Decides for a conservative player: drawing is weighed with a heavy
    /// risk penalty, against a bar that rises with the baseline.
    fn conservative_decision(&self, baseline: u64, prob_analysis: &HandProbabilityAnalysis) -> (r: AutoPlayDecision)
        requires
            prob_analysis.wf(),
            self.full_hand.cards@.len() > 0,
        ensures
            conservative_ok(r, *self, prob_analysis.round_probabilities@, baseline),
    {
        let rs = &prob_analysis.round_probabilities;
        let (net, prob, imp, rounds) = weigh_options(rs, baseline, 100, 120, 60);
        let b = baseline;
        let should_draw = if b == 0 {
            true
        } else if b < 5 {
            net > -NET_UNIT / 2 || prob > 250000
        } else if b < 10 {
            net > NET_UNIT / 2 || prob > 350000
        } else if b < 15 {
            net > NET_UNIT || prob > 450000
        } else if b < 20 {
            net > 2 * NET_UNIT || (prob > 500000 && imp > 3 * (PPM as i128))
        } else {
            net > 3 * NET_UNIT || (prob > 600000 && 5 * imp > (b as i128) * (PPM as i128))
        };
        let base = (baseline as i128) * SCORE_UNIT;
        if should_draw && rounds > 0 {
            return self.draw_decision(600000 + 3 * prob / 10, base + 10 * imp);
        }
        if rs.len() == 0 && baseline < 5 {
            return self.draw_decision(500000, base + 2 * SCORE_UNIT);
        }
        AutoPlayDecision { action: PlayAction::Play, confidence: 800000, expected_score: base, card_to_discard: None }
    }

    /// Decides for a balanced player: a moderate risk penalty and a lower
    /// bar on the chance of improving. Like the other profiles it weighs
    /// whatever rounds were simulated (`weighed_option`): with rounds one and
    /// two only, round two when clearly better, else a 6:4 blend.
    fn balanced_decision(&self, baseline: u64, prob_analysis: &HandProbabilityAnalysis) -> (r: AutoPlayDecision)
        requires
            prob_analysis.wf(),
            self.full_hand.cards@.len() > 0,
        ensures
            balanced_ok(r, *self, prob_analysis.round_probabilities@, baseline),
    {
        let rs = &prob_analysis.round_probabilities;
        let (net, prob, imp, rounds) = weigh_options(rs, baseline, 40, 50, 60);
        let b = baseline;
        let should_draw = if b == 0 {
            true
        } else if b < 5 {
            net > -NET_UNIT || prob > 50000
        } else if b < 10 {
            net > 0 || prob > 100000
        } else if b < 15 {
            net > NET_UNIT / 2 || prob > 200000
        } else if b < 20 {
            net > NET_UNIT || (prob > 450000 && 2 * imp > 5 * (PPM as i128))
        } else {
            net > 2 * NET_UNIT || (prob > 500000 && 20 * imp > 3 * (b as i128) * (PPM as i128))
        };
        let base = (baseline as i128) * SCORE_UNIT;
        if should_draw && rounds > 0 {
            return self.draw_decision(650000 + prob / 4, base + 10 * imp);
        }
        if rs.len() == 0 && baseline < 8 {
            return self.draw_decision(600000, base + 3 * SCORE_UNIT);
        }
        AutoPlayDecision { action: PlayAction::Play, confidence: 700000, expected_score: base, card_to_discard: None }
    }
}


/// How many cards of `h` have suite `s`.
pub open spec fn suite_count(h: Seq<Card>, s: Suite) -> nat
    decreases h.len(),
{
    if h.len() == 0 {
        0
    } else {
        suite_count(h.drop_last(), s) + if h.last().suite == s {
            1nat
        } else {
            0nat
        }
    }
}

/// The pair potential of the rank values below `v`, in half points: one
/// point for each value held once, three for each held twice.
pub open spec fn rank_potential(h: Seq<Card>, v: int) -> nat
    decreases v,
{
    if v <= 2 {
        0
    } else {
        rank_potential(h, v - 1) + if value_count(h, v - 1) == 1 {
            2nat
        } else if value_count(h, v - 1) == 2 {
            6nat
        } else {
            0nat
        }
    }
}

/// The flush potential of a suite, in half points: one and a half points
/// per card when it holds three or more.
pub open spec fn suite_potential(h: Seq<Card>, s: Suite) -> nat {
    if suite_count(h, s) >= 3 {
        3 * suite_count(h, s)
    } else {
        0
    }
}

/// The length of the run of held values that ends at `v`.
pub open spec fn run_ending(h: Seq<Card>, v: int) -> nat
    decreases v,
{
    if v < 2 || !has_value(h, v) {
        0
    } else {
        run_ending(h, v - 1) + 1
    }
}

/// The longest run of held values ending at or below `v`.
pub open spec fn longest_run(h: Seq<Card>, v: int) -> nat
    decreases v,
{
    if v < 2 {
        0
    } else if run_ending(h, v) > longest_run(h, v - 1) {
        run_ending(h, v)
    } else {
        longest_run(h, v - 1)
    }
}

/// A rough improvement potential of a hand, in half points: pair, flush and
/// straight potential.
pub open spec fn hand_potential(h: Seq<Card>) -> nat {
    let run = longest_run(h, 14);
    rank_potential(h, 15) + suite_potential(h, Suite::Spades) + suite_potential(h, Suite::Hearts)
        + suite_potential(h, Suite::Clubs) + suite_potential(h, Suite::Diamonds) + if run >= 3 {
        4 * run
    } else {
        0
    }
}

proof fn lemma_run_bounds(h: Seq<Card>, v: int)
    ensures
        run_ending(h, v) <= if v >= 1 { v - 1 } else { 0 },
        longest_run(h, v) <= if v >= 1 { v - 1 } else { 0 },
    decreases v,
{
    if v >= 2 {
        lemma_run_bounds(h, v - 1);
    }
}

proof fn lemma_suite_count_bound(h: Seq<Card>, s: Suite)
    ensures
        suite_count(h, s) <= h.len(),
    decreases h.len(),
{
    if h.len() > 0 {
        lemma_suite_count_bound(h.drop_last(), s);
    }
}

/// How many cards of `h` have suite `s`.
fn count_suite(h: &Vec<Card>, s: Suite) -> (n: u64)
    ensures
        n == suite_count(h@, s),
{
    let mut n: u64 = 0;
    let mut i: usize = 0;
    while i < h.len()
        invariant
            i <= h@.len(),
            n == suite_count(h@.subrange(0, i as int), s),
            n <= i,
        decreases h@.len() - i,
    {
        assert(h@.subrange(0, i + 1).drop_last() =~= h@.subrange(0, i as int));
        if h[i].suite == s {
            n = n + 1;
        }
        i = i + 1;
    }
    assert(h@.subrange(0, h@.len() as int) =~= h@);
    n
}

fn suite_points(h: &Vec<Card>, s: Suite) -> (p: u128)
    ensures
        p == suite_potential(h@, s),
        p <= 3 * h@.len(),
{
    let c = count_suite(h, s);
    proof {
        lemma_suite_count_bound(h@, s);
    }
    if c >= 3 {
        3 * (c as u128)
    } else {
        0
    }
}

impl Node {
    /// The hand's improvement potential (see `hand_potential`), in half
    /// points.
    fn estimate_hand_potential(&self) -> (r: u128)
        ensures
            r == hand_potential(self.full_hand.cards@),
            r <= 200 + 12 * self.full_hand.cards@.len(),
    {
        let h = &self.full_hand.cards;
        let len = h.len();
        let mut ranks: u64 = 0;
        let mut v: u64 = 2;
        while v < 15
            invariant
                2 <= v <= 15,
                ranks == rank_potential(h@, v as int),
                ranks <= 6 * v,
            decreases 15 - v,
        {
            let c = count_value(h, v);
            if c == 1 {
                ranks = ranks + 2;
            } else if c == 2 {
                ranks = ranks + 6;
            }
            v = v + 1;
        }
        let mut run: u64 = 0;
        let mut longest: u64 = 0;
        let mut w: u64 = 2;
        while w < 15
            invariant
                2 <= w <= 15,
                run == run_ending(h@, w as int - 1),
                longest == longest_run(h@, w as int - 1),
            decreases 15 - w,
        {
            proof {
                lemma_run_bounds(h@, w as int - 1);
            }
            if contains_value(h, w) {
                run = run + 1;
            } else {
                run = 0;
            }
            if run > longest {
                longest = run;
            }
            w = w + 1;
        }
        proof {
            lemma_run_bounds(h@, 14);
        }
        let spades = suite_points(h, Suite::Spades);
        let hearts = suite_points(h, Suite::Hearts);
        let clubs = suite_points(h, Suite::Clubs);
        let diamonds = suite_points(h, Suite::Diamonds);
        proof {
            lemma_suite_count_bound(h@, Suite::Spades);
            lemma_suite_count_bound(h@, Suite::Hearts);
            lemma_suite_count_bound(h@, Suite::Clubs);
            lemma_suite_count_bound(h@, Suite::Diamonds);
        }
        let straight = if longest >= 3 {
            4 * longest
        } else {
            0
        };
        (ranks as u128) + spades + hearts + clubs + diamonds + (straight as u128)
    }
}


/// The best final score a round reached: its first (highest) outcome, or
/// the baseline when it recorded none.
pub open spec fn max_potential(r: RoundProbabilities, b: u64) -> u64 {
    if r.improvements@.len() > 0 {
        r.improvements@[0].final_score
    } else {
        b
    }
}

/// The best final score of round one, or zero without a round one.
pub open spec fn round_one_max(rs: Seq<RoundProbabilities>, b: u64) -> u64 {
    if rs.len() > 1 {
        max_potential(rs[1], b)
    } else {
        0
    }
}

/// The option an aggressive player weighs: (risk-adjusted value in
/// billionths of a point, probability of improvement, expected improvement,
/// best reachable score, rounds). Upside decides between the rounds; with
/// rounds one and two only, round two is taken on a clearly better upside
/// or value, else a 6:4 blend valued on round one.
pub open spec fn aggressive_option(rs: Seq<RoundProbabilities>, b: u64) -> (int, u64, int, u64, usize) {
    if rs.len() >= 4 {
        let v1 = value_of_round(rs[1], b, 20);
        let v2 = value_of_round(rs[2], b, 25);
        let v3 = value_of_round(rs[3], b, 60);
        let m1 = max_potential(rs[1], b);
        let m2 = max_potential(rs[2], b);
        let m3 = max_potential(rs[3], b);
        if 20 * m3 > 12 * m2 + 12 * m1 {
            (10 * v3, rs[3].probability_of_improvement, rs[3].expected_improvement as int, m3, 2)
        } else if 10 * m2 > 12 * m1 || v2 > v1 {
            (10 * v2, rs[2].probability_of_improvement, rs[2].expected_improvement as int, m2, 2)
        } else {
            (6 * v1 + 4 * v2 + 3 * v3, rs[1].probability_of_improvement, rs[1].expected_improvement as int, m1, 1)
        }
    } else if rs.len() == 3 {
        let v1 = value_of_round(rs[1], b, 20);
        let v2 = value_of_round(rs[2], b, 25);
        let m1 = max_potential(rs[1], b);
        let m2 = max_potential(rs[2], b);
        if 10 * m2 > 12 * m1 || v2 > v1 {
            (10 * v2, rs[2].probability_of_improvement, rs[2].expected_improvement as int, m2, 2)
        } else {
            (6 * v1 + 4 * v2, rs[1].probability_of_improvement, rs[1].expected_improvement as int, m1, 1)
        }
    } else if rs.len() == 2 {
        (
            10 * value_of_round(rs[1], b, 20),
            rs[1].probability_of_improvement,
            rs[1].expected_improvement as int,
            max_potential(rs[1], b),
            1,
        )
    } else {
        (0, 0, 0, 0, 0)
    }
}

/// Whether an aggressive player draws: on a modest chance, a small expected
/// loss (forgiven more when the upside is large), a good upside of the
/// weighed option or of round one (`first`), or any gain on a weak hand.
pub open spec fn aggressive_draws(b: u64, net: int, prob: u64, imp: int, max: u64, first: u64) -> bool {
    ||| prob > 200000
    ||| 2 * first > 3 * b
    ||| (if max > 2 * b {
        3 * net > -NET_UNIT
    } else {
        2 * net > -NET_UNIT
    })
    ||| 2 * max > 3 * b
    ||| (b < 10 && 2 * imp > PPM)
}

/// The aggressive decision for `n` given the rounds `rs`.
pub open spec fn aggressive_ok(d: AutoPlayDecision, n: Node, rs: Seq<RoundProbabilities>, b: u64) -> bool {
    let o = aggressive_option(rs, b);
    let pot = hand_potential(n.full_hand.cards@);
    if aggressive_draws(b, o.0, o.1, o.2, o.3, round_one_max(rs, b)) && o.4 > 0 {
        draws_with(
            d,
            n,
            700000 + o.1 / 5,
            b * SCORE_UNIT + if 12 * o.2 >= 3 * o.3 * PPM {
                12 * o.2
            } else {
                3 * o.3 * PPM
            },
        )
    } else if rs.len() == 0 && b < 20 && 5 * pot > 3 * b {
        draws_with(d, n, 600000, b * SCORE_UNIT + 7500000 * pot)
    } else {
        plays_with(d, 650000, b)
    }
}

/// A conservative player without a meld draws whenever round one was
/// simulated.
pub proof fn lemma_conservative_draws_without_meld(d: AutoPlayDecision, n: Node, rs: Seq<RoundProbabilities>)
    requires
        rs.len() >= 2,
        conservative_ok(d, n, rs, 0),
    ensures
        d.action == PlayAction::Draw,
        d.card_to_discard is Some,
{
}

/// An aggressive player draws whenever round one's best final score is
/// above 1.8 times the baseline, whatever the expected improvement.
pub proof fn lemma_aggressive_draws_for_upside(d: AutoPlayDecision, n: Node, rs: Seq<RoundProbabilities>, b: u64)
    requires
        rs.len() >= 2,
        rs[1].improvements@.len() > 0,
        10 * rs[1].improvements@[0].final_score > 18 * b,
        aggressive_ok(d, n, rs, b),
    ensures
        d.action == PlayAction::Draw,
        d.card_to_discard is Some,
{
    assert(2 * round_one_max(rs, b) > 3 * b);
}

/// `max_potential` computed.
fn round_max(r: &RoundProbabilities, b: u64) -> (m: u64)
    ensures
        m == max_potential(*r, b),
{
    if r.improvements.len() > 0 {
        r.improvements[0].final_score
    } else {
        b
    }
}

impl Node {
    /// Decides for an aggressive player: a light risk penalty, the upside
    /// of the best reachable score, and a low bar for drawing.
    fn aggressive_decision(&self, baseline: u64, prob_analysis: &HandProbabilityAnalysis) -> (r: AutoPlayDecision)
        requires
            prob_analysis.wf(),
            self.full_hand.cards@.len() > 0,
        ensures
            aggressive_ok(r, *self, prob_analysis.round_probabilities@, baseline),
    {
        let rs = &prob_analysis.round_probabilities;
        let b = baseline;
        let (net, prob, imp, max, rounds): (i128, u64, i128, u64, usize) = if rs.len() >= 4 {
            assert(round_bounded(rs@[1]) && round_bounded(rs@[2]) && round_bounded(rs@[3]));
            let v1 = round_value(&rs[1], b, 20);
            let v2 = round_value(&rs[2], b, 25);
            let v3 = round_value(&rs[3], b, 60);
            let m1 = round_max(&rs[1], b) as i128;
            let m2 = round_max(&rs[2], b) as i128;
            let m3 = round_max(&rs[3], b) as i128;
            if 20 * m3 > 12 * m2 + 12 * m1 {
                (10 * v3, rs[3].probability_of_improvement, rs[3].expected_improvement, m3 as u64, 2)
            } else if 10 * m2 > 12 * m1 || v2 > v1 {
                (10 * v2, rs[2].probability_of_improvement, rs[2].expected_improvement, m2 as u64, 2)
            } else {
                (6 * v1 + 4 * v2 + 3 * v3, rs[1].probability_of_improvement, rs[1].expected_improvement, m1 as u64, 1)
            }
        } else if rs.len() == 3 {
            assert(round_bounded(rs@[1]) && round_bounded(rs@[2]));
            let v1 = round_value(&rs[1], b, 20);
            let v2 = round_value(&rs[2], b, 25);
            let m1 = round_max(&rs[1], b) as i128;
            let m2 = round_max(&rs[2], b) as i128;
            if 10 * m2 > 12 * m1 || v2 > v1 {
                (10 * v2, rs[2].probability_of_improvement, rs[2].expected_improvement, m2 as u64, 2)
            } else {
                (6 * v1 + 4 * v2, rs[1].probability_of_improvement, rs[1].expected_improvement, m1 as u64, 1)
            }
        } else if rs.len() == 2 {
            assert(round_bounded(rs@[1]));
            let v1 = round_value(&rs[1], b, 20);
            (10 * v1, rs[1].probability_of_improvement, rs[1].expected_improvement, round_max(&rs[1], b), 1)
        } else {
            (0, 0, 0, 0, 0)
        };
        let bi = b as i128;
        let mi = max as i128;
        let forgiving = if mi > 2 * bi {
            3 * net > -NET_UNIT
        } else {
            2 * net > -NET_UNIT
        };
        let first: i128 = if rs.len() > 1 {
            round_max(&rs[1], b) as i128
        } else {
            0
        };
        let should_draw = prob > 200000 || 2 * first > 3 * bi || forgiving || 2 * mi > 3 * bi || (b
            < 10 && 2 * imp > PPM as i128);
        let base = bi * SCORE_UNIT;
        if should_draw && rounds > 0 {
            assert(0 <= 3 * mi * (PPM as i128) <= 3 * u64::MAX * PPM) by (nonlinear_arith)
                requires
                    0 <= mi <= u64::MAX,
            ;
            let upside = if 12 * imp >= 3 * mi * (PPM as i128) {
                12 * imp
            } else {
                3 * mi * (PPM as i128)
            };
            return self.draw_decision(700000 + prob / 5, base + upside);
        }
        if rs.len() == 0 && baseline < 20 {
            let pot = self.estimate_hand_potential();
            assert(self.full_hand.cards.len() <= usize::MAX);
            if 5 * (pot as i128) > 3 * bi {
                return self.draw_decision(600000, base + 7500000 * (pot as i128));
            }
        }
        AutoPlayDecision { action: PlayAction::Play, confidence: 650000, expected_score: base, card_to_discard: None }
    }

    /// Makes a concrete decision for a player of the given risk profile.
    pub fn make_autoplay_decision(
        &self,
        player_type: PlayerType,
        prob_analysis: &HandProbabilityAnalysis,
    ) -> (r: AutoPlayDecision)
        requires
            prob_analysis.wf(),
            self.full_hand.cards@.len() > 0,
        ensures
            player_type == PlayerType::Conservative ==> conservative_ok(
                r,
                *self,
                prob_analysis.round_probabilities@,
                prob_analysis.current_baseline,
            ),
            player_type == PlayerType::Aggressive ==> aggressive_ok(
                r,
                *self,
                prob_analysis.round_probabilities@,
                prob_analysis.current_baseline,
            ),
            player_type == PlayerType::Balanced ==> balanced_ok(
                r,
                *self,
                prob_analysis.round_probabilities@,
                prob_analysis.current_baseline,
            ),
    {
        let baseline = prob_analysis.current_baseline;
        match player_type {
            PlayerType::Conservative => self.conservative_decision(baseline, prob_analysis),
            PlayerType::Aggressive => self.aggressive_decision(baseline, prob_analysis),
            PlayerType::Balanced => self.balanced_decision(baseline, prob_analysis),
        }
    }
}


// ---------------------------------------------------------------------------
// Looking further ahead.
/// The value of drawing to a round, in ten-millionths of a point: the
/// expected improvement less half the risk times the baseline, with a fifth
/// more of the improvement when improving is likely.
pub open spec fn draw_value(r: RoundProbabilities, b: u64) -> int {
    10 * r.expected_improvement - 5 * r.risk_of_degradation * b + if r.probability_of_improvement > 500000 {
        2 * r.expected_improvement
    } else {
        0
    }
}

/// The value of drawing to round `k` of `rs`, or zero without one.
pub open spec fn draw_value_at(rs: Seq<RoundProbabilities>, k: int, b: u64) -> int {
    if rs.len() > k {
        draw_value(rs[k], b)
    } else {
        0
    }
}

/// A profile's bars for drawing towards rounds one, two and three, in
/// ten-millionths of a point.
pub open spec fn draw_thresholds(p: PlayerType) -> (int, int, int) {
    match p {
        PlayerType::Conservative => (15000000, 30000000, 60000000),
        PlayerType::Balanced => (5000000, 15000000, 30000000),
        PlayerType::Aggressive => (-5000000, 5000000, 10000000),
    }
}

/// The decision from looking up to three rounds ahead.
pub open spec fn multi_round_ok(d: AutoPlayDecision, n: Node, p: PlayerType, rs: Seq<RoundProbabilities>, b: u64) -> bool {
    let v1 = draw_value_at(rs, 1, b);
    let v2 = draw_value_at(rs, 2, b);
    let v3 = draw_value_at(rs, 3, b);
    let t = draw_thresholds(p);
    if v3 > v2 && v3 > t.2 {
        draws_with(d, n, 850000, b * SCORE_UNIT + v3)
    } else if v2 > v1 && v2 > t.1 {
        draws_with(d, n, 800000, b * SCORE_UNIT + v2)
    } else if v1 > t.0 {
        draws_with(d, n, 750000, b * SCORE_UNIT + v1)
    } else {
        plays_with(d, 700000, b)
    }
}

/// `draw_value` computed.
fn calculate_draw_value(round: &RoundProbabilities, baseline: u64) -> (v: i128)
    requires
        round_bounded(*round),
    ensures
        v == draw_value(*round, baseline),
        -VALUE_LIMIT / 16 <= v <= VALUE_LIMIT / 16,
{
    let adj = adjusted(round, baseline, 5);
    let bonus = if round.probability_of_improvement > 500000 {
        2 * round.expected_improvement
    } else {
        0
    };
    adj + bonus
}

fn draw_value_of(rs: &Vec<RoundProbabilities>, k: usize, baseline: u64) -> (v: i128)
    requires
        forall|i: int| 0 <= i < rs@.len() ==> #[trigger] round_bounded(rs@[i]),
    ensures
        v == draw_value_at(rs@, k as int, baseline),
        -VALUE_LIMIT / 16 <= v <= VALUE_LIMIT / 16,
{
    if rs.len() > k {
        assert(round_bounded(rs@[k as int]));
        calculate_draw_value(&rs[k], baseline)
    } else {
        0
    }
}

impl Node {
    /// A draw decision with the card this node would discard.
    fn make_draw_decision(&self, expected_score: i128, confidence: u64) -> (d: AutoPlayDecision)
        requires
            self.full_hand.cards@.len() > 0,
        ensures
            draws_with(d, *self, confidence as int, expected_score as int),
    {
        self.draw_decision(confidence, expected_score)
    }

    /// Decides by the value of drawing towards each of the next three rounds,
    /// against the profile's bars.
    pub fn make_multi_round_decision(
        &self,
        player_type: PlayerType,
        prob_analysis: &HandProbabilityAnalysis,
    ) -> (r: AutoPlayDecision)
        requires
            prob_analysis.wf(),
            self.full_hand.cards@.len() > 0,
        ensures
            multi_round_ok(
                r,
                *self,
                player_type,
                prob_analysis.round_probabilities@,
                prob_analysis.current_baseline,
            ),
    {
        let rs = &prob_analysis.round_probabilities;
        let b = prob_analysis.current_baseline;
        let v1 = draw_value_of(rs, 1, b);
        let v2 = draw_value_of(rs, 2, b);
        let v3 = draw_value_of(rs, 3, b);
        let (t1, t2, t3): (i128, i128, i128) = match player_type {
            PlayerType::Conservative => (15000000, 30000000, 60000000),
            PlayerType::Balanced => (5000000, 15000000, 30000000),
            PlayerType::Aggressive => (-5000000, 5000000, 10000000),
        };
        let base = (b as i128) * SCORE_UNIT;
        if v3 > v2 && v3 > t3 {
            self.make_draw_decision(base + v3, 850000)
        } else if v2 > v1 && v2 > t2 {
            self.make_draw_decision(base + v2, 800000)
        } else if v1 > t1 {
            self.make_draw_decision(base + v1, 750000)
        } else {
            AutoPlayDecision { action: PlayAction::Play, confidence: 700000, expected_score: base, card_to_discard: None }
        }
    }
}

/// The score a profile gives a round when choosing where to stop, in
/// ten-millionths of a point: conservative, aggressive and balanced.
pub open spec fn stop_scores(r: RoundProbabilities, b: u64) -> (int, int, int) {
    (
        risk_adjusted(r, b, 10),
        risk_adjusted(r, b, 2) + if r.probability_of_improvement > 200000 {
            3 * r.expected_improvement
        } else {
            0
        },
        risk_adjusted(r, b, 5) + if r.probability_of_improvement > 150000 {
            20000000int
        } else {
            0int
        },
    )
}

/// The first round, among the first `k`, with the highest score of the
/// given profile (0 conservative, 1 aggressive, 2 balanced).
pub open spec fn best_stop(rs: Seq<RoundProbabilities>, b: u64, profile: int, k: int) -> usize
    decreases k,
{
    if k <= 1 {
        0
    } else {
        let prev = best_stop(rs, b, profile, k - 1);
        if profile_score(rs[k - 1], b, profile) > profile_score(rs[prev as int], b, profile) {
            (k - 1) as usize
        } else {
            prev
        }
    }
}

pub open spec fn profile_score(r: RoundProbabilities, b: u64, profile: int) -> int {
    let s = stop_scores(r, b);
    if profile == 0 {
        s.0
    } else if profile == 1 {
        s.1
    } else {
        s.2
    }
}

/// `a` is the one-model summary of rounds 0 to 2 of `n` (a walk from the
/// root always records outcomes, so every round is there), with where each
/// profile would stop.
pub open spec fn realistic_ok(n: Node, a: HandProbabilityAnalysis) -> bool {
    let b = n.baseline_score;
    let rs = a.round_probabilities@;
    &&& a.current_baseline == b
    &&& rs.len() == 3
    &&& is_baseline_round(rs[0], b)
    &&& forall|k: int| 1 <= k < 3 ==> #[trigger] rs[k].round == k
    &&& forall|k: int| 1 <= k < 3 ==> #[trigger] rs[k].total_simulations > 0
    &&& forall|k: int| 1 <= k < 3 ==> round_ok(#[trigger] rs[k], round_leaves(n, k), b, k)
    &&& a.wf()
    &&& a.optimal_stop_round == Some(best_stop(rs, b, 0, rs.len() as int))
    &&& a.confidence_level == 750000
    &&& a.analysis_details == Some(
        DecisionAnalysis {
            conservative_choice: best_stop(rs, b, 0, rs.len() as int),
            aggressive_choice: best_stop(rs, b, 1, rs.len() as int),
            balanced_choice: best_stop(rs, b, 2, rs.len() as int),
        },
    )
}

fn profile_score_of(r: &RoundProbabilities, b: u64, profile: usize) -> (v: i128)
    requires
        round_bounded(*r),
        profile <= 2,
    ensures
        v == profile_score(*r, b, profile as int),
{
    if profile == 0 {
        adjusted(r, b, 10)
    } else if profile == 1 {
        adjusted(r, b, 2) + if r.probability_of_improvement > 200000 {
            3 * r.expected_improvement
        } else {
            0
        }
    } else {
        adjusted(r, b, 5) + if r.probability_of_improvement > 150000 {
            20000000
        } else {
            0
        }
    }
}

fn best_stop_of(rs: &Vec<RoundProbabilities>, b: u64, profile: usize) -> (r: usize)
    requires
        forall|i: int| 0 <= i < rs@.len() ==> #[trigger] round_bounded(rs@[i]),
        rs@.len() >= 1,
        profile <= 2,
    ensures
        r == best_stop(rs@, b, profile as int, rs@.len() as int),
{
    let mut best: usize = 0;
    let mut k: usize = 1;
    while k < rs.len()
        invariant
            1 <= k <= rs@.len(),
            profile <= 2,
            forall|i: int| 0 <= i < rs@.len() ==> #[trigger] round_bounded(rs@[i]),
            best == best_stop(rs@, b, profile as int, k as int),
            best < k,
        decreases rs@.len() - k,
    {
        assert(round_bounded(rs@[k as int]));
        assert(round_bounded(rs@[best as int]));
        if profile_score_of(&rs[k], b, profile) > profile_score_of(&rs[best], b, profile) {
            best = k;
        }
        k = k + 1;
    }
    best
}

impl Node {
    /// Where each profile would stop among the given rounds.
    fn analyze_decision_criteria(&self, rounds: &Vec<RoundProbabilities>, baseline: u64) -> (r: (usize, DecisionAnalysis))
        requires
            forall|i: int| 0 <= i < rounds@.len() ==> #[trigger] round_bounded(rounds@[i]),
            rounds@.len() >= 1,
        ensures
            r.0 == best_stop(rounds@, baseline, 0, rounds@.len() as int),
            r.1 == (DecisionAnalysis {
                conservative_choice: best_stop(rounds@, baseline, 0, rounds@.len() as int),
                aggressive_choice: best_stop(rounds@, baseline, 1, rounds@.len() as int),
                balanced_choice: best_stop(rounds@, baseline, 2, rounds@.len() as int),
            }),
    {
        let conservative = best_stop_of(rounds, baseline, 0);
        let aggressive = best_stop_of(rounds, baseline, 1);
        let balanced = best_stop_of(rounds, baseline, 2);
        (
            conservative,
            DecisionAnalysis {
                conservative_choice: conservative,
                aggressive_choice: aggressive,
                balanced_choice: balanced,
            },
        )
    }

    /// Summarises rounds 0 to 2 and where each profile would stop; the
    /// conservative stop is the recommendation.
    pub fn calculate_realistic_probabilities(&self) -> (r: HandProbabilityAnalysis)
        ensures
            realistic_ok(*self, r),
    {
        let baseline = self.baseline_score;
        let mut rounds: Vec<RoundProbabilities> = Vec::new();
        rounds.push(self.create_baseline_round(baseline));
        let mut depth: usize = 1;
        while depth <= 2
            invariant
                1 <= depth <= 3,
                rounds@.len() == depth,
                is_baseline_round(rounds@[0], baseline),
                forall|k: int| 0 <= k < rounds@.len() ==> #[trigger] round_bounded(rounds@[k]),
                forall|k: int| 1 <= k < rounds@.len() ==> #[trigger] rounds@[k].round == k,
                forall|k: int| 1 <= k < rounds@.len() ==> #[trigger] rounds@[k].total_simulations > 0,
                forall|k: int| 1 <= k < rounds@.len() ==> round_ok(#[trigger] rounds@[k], round_leaves(*self, k), baseline, k),
            decreases 3 - depth,
        {
            let round = self.analyze_round_with_paths(depth, baseline);
            proof {
                lemma_tree_round_is_whole(*self, round, baseline, depth as int);
            }
            if round.total_simulations > 0 {
                let ghost before = rounds@;
                rounds.push(round);
                assert forall|k: int| 0 <= k < rounds@.len() implies #[trigger] round_bounded(rounds@[k]) by {
                    if k < before.len() {
                        assert(rounds@[k] == before[k]);
                    }
                }
                assert forall|k: int| 1 <= k < rounds@.len() implies #[trigger] rounds@[k].round == k by {
                    if k < before.len() {
                        assert(rounds@[k] == before[k]);
                    }
                }
                assert forall|k: int| 1 <= k < rounds@.len() implies #[trigger] rounds@[k].total_simulations > 0 by {
                    if k < before.len() {
                        assert(rounds@[k] == before[k]);
                    }
                }
                assert forall|k: int| 1 <= k < rounds@.len() implies round_ok(#[trigger] rounds@[k], round_leaves(*self, k), baseline, k) by {
                    if k < before.len() {
                        assert(rounds@[k] == before[k]);
                    }
                }
            }
            depth = depth + 1;
        }
        let (optimal, details) = self.analyze_decision_criteria(&rounds, baseline);
        let r = HandProbabilityAnalysis {
            current_baseline: baseline,
            round_probabilities: rounds,
            optimal_stop_round: Some(optimal),
            confidence_level: 750000,
            analysis_details: Some(details),
        };
        assert(r.wf());
        r
    }
}


// ---------------------------------------------------------------------------
// Acting on a decision.
/// The score of a hand as it is played: its meld score when it holds five
/// cards, else what the resolver reports.
pub open spec fn hand_score(h: Seq<Card>) -> u64 {
    if h.len() == 5 {
        meld_score(h)
    } else {
        resolved_score(h)
    }
}

/// After taking `c`, the node discarded the worst card `w` of the six (the
/// first of lowest strategic value, counting no simulated round), every copy
/// of it, put `w` on the discard pile, and rescored its hand.
pub open spec fn took_and_discarded(old_node: Node, new_node: Node, c: Card, pile: Seq<Card>, new_pile: Seq<Card>) -> bool {
    exists|w: Card|
        #![trigger without_card(old_node.full_hand.cards@.push(c), w)]
        {
            &&& exists|i: int|
                0 <= i < old_node.full_hand.cards@.len() + 1 && w == old_node.full_hand.cards@.push(
                    c,
                )[i] && is_worst(
                    hand_values_in(old_node, old_node.full_hand.cards@.push(c), None),
                    i,
                )
            &&& new_node.full_hand.cards@ == without_card(old_node.full_hand.cards@.push(c), w)
            &&& new_pile == pile.push(w)
            &&& new_node.baseline_score == hand_score(new_node.full_hand.cards@)
        }
}

impl Node {
    /// Takes `c` into the hand, discards the worst card onto the deck's
    /// discard pile and rescores the hand.
    fn take_and_discard(&mut self, c: Card, deck: &mut Deck) -> (score: u64)
        requires
            old(self).full_hand.cards@.len() <= 5,
        ensures
            took_and_discarded(*old(self), *final(self), c, old(deck).discard_pile@, final(deck).discard_pile@),
            final(deck).draw_pile@ == old(deck).draw_pile@,
            score == final(self).baseline_score,
    {
        let ghost start = self.full_hand.cards@;
        let ghost before = *self;
        self.full_hand.cards.push(c);
        proof {
            lemma_values_same_tree(*self, before, start.push(c));
            assert(self.full_hand.cards@ == start.push(c));
        }
        let worst = self.find_worst_card_to_discard();
        let kept = remove_card(&self.full_hand.cards, worst);
        proof {
            lemma_without_card_len(start.push(c), worst);
        }
        self.full_hand.cards = kept;
        deck.discard_pile.push_back(worst);
        let score = if self.full_hand.cards.len() == 5 {
            meld_points(&self.full_hand.cards)
        } else {
            let (s, _best) = calculate_best_meld_from_hand(&self.full_hand);
            s
        };
        self.baseline_score = score;
        score
    }

    /// Carries out an action on the deck: playing scores the hand as it
    /// stands; drawing (from the draw pile) or retrieving (from the discard
    /// pile) takes the top card, discards the worst card and rescores. An
    /// empty pile is reported and changes nothing.
    pub fn execute_autoplay_action(&mut self, action: &PlayAction, deck: &mut Deck) -> (r: Result<u64, String>)
        requires
            old(self).full_hand.cards@.len() <= 5,
        ensures
            *action == PlayAction::Play ==> r == Ok::<u64, String>(old(self).baseline_score)
                && *final(self) == *old(self) && *final(deck) == *old(deck),
            *action == PlayAction::Draw && old(deck).draw_pile@.len() == 0 ==> r is Err
                && *final(self) == *old(self) && final(deck).draw_pile@ == old(deck).draw_pile@
                && final(deck).discard_pile@ == old(deck).discard_pile@,
            *action == PlayAction::Draw && old(deck).draw_pile@.len() > 0 ==> {
                &&& r == Ok::<u64, String>(final(self).baseline_score)
                &&& final(deck).draw_pile@ == old(deck).draw_pile@.drop_last()
                &&& took_and_discarded(
                    *old(self),
                    *final(self),
                    old(deck).draw_pile@.last(),
                    old(deck).discard_pile@,
                    final(deck).discard_pile@,
                )
            },
            *action == PlayAction::Retrieve && old(deck).discard_pile@.len() == 0 ==> r is Err
                && *final(self) == *old(self) && final(deck).draw_pile@ == old(deck).draw_pile@
                && final(deck).discard_pile@ == old(deck).discard_pile@,
            *action == PlayAction::Retrieve && old(deck).discard_pile@.len() > 0 ==> {
                &&& r == Ok::<u64, String>(final(self).baseline_score)
                &&& final(deck).draw_pile@ == old(deck).draw_pile@
                &&& took_and_discarded(
                    *old(self),
                    *final(self),
                    old(deck).discard_pile@.last(),
                    old(deck).discard_pile@.drop_last(),
                    final(deck).discard_pile@,
                )
            },
    {
        match action {
            PlayAction::Play => Ok(self.baseline_score),
            PlayAction::Draw => match deck.draw_pile.pop_back() {
                Some(c) => {
                    assert(deck.draw_pile@ =~= old(deck).draw_pile@.drop_last());
                    Ok(self.take_and_discard(c, deck))
                },
                None => Err(String::from_str("No cards left in deck")),
            },
            PlayAction::Retrieve => match deck.discard_pile.pop_back() {
                Some(c) => {
                    assert(deck.discard_pile@ =~= old(deck).discard_pile@.drop_last());
                    Ok(self.take_and_discard(c, deck))
                },
                None => Err(String::from_str("No cards left in deck")),
            },
        }
    }
}

proof fn lemma_without_card_len(s: Seq<Card>, d: Card)
    ensures
        without_card(s, d).len() <= s.len(),
    decreases s.len(),
{
    if s.len() > 0 {
        lemma_without_card_len(s.drop_last(), d);
    }
}


// ---------------------------------------------------------------------------
// Whether to play at once.
/// Whether to play the hand now, how confident the analysis is (parts per
/// million), and why.
#[derive(Clone, Debug)]
pub struct PlayDecision {
    pub should_play: bool,
    pub confidence: u64,
    pub reasoning: String,
    pub alternative_strategies: Vec<String>,
}

/// The decimal digits of `n`.
pub open spec fn decimal_text(n: nat) -> Seq<char>
    decreases n,
{
    if n < 10 {
        seq![digit_char(n)]
    } else {
        decimal_text(n / 10).push(digit_char(n % 10))
    }
}

pub open spec fn digit_char(d: nat) -> char {
    if d == 0 {
        '0'
    } else if d == 1 {
        '1'
    } else if d == 2 {
        '2'
    } else if d == 3 {
        '3'
    } else if d == 4 {
        '4'
    } else if d == 5 {
        '5'
    } else if d == 6 {
        '6'
    } else if d == 7 {
        '7'
    } else if d == 8 {
        '8'
    } else {
        '9'
    }
}

fn digit_str(d: u64) -> (s: &'static str)
    requires
        d < 10,
    ensures
        s@ == seq![digit_char(d as nat)],
{
    proof {
        reveal_strlit("0");
        reveal_strlit("1");
        reveal_strlit("2");
        reveal_strlit("3");
        reveal_strlit("4");
        reveal_strlit("5");
        reveal_strlit("6");
        reveal_strlit("7");
        reveal_strlit("8");
        reveal_strlit("9");
    }
    let s = if d == 0 {
        "0"
    } else if d == 1 {
        "1"
    } else if d == 2 {
        "2"
    } else if d == 3 {
        "3"
    } else if d == 4 {
        "4"
    } else if d == 5 {
        "5"
    } else if d == 6 {
        "6"
    } else if d == 7 {
        "7"
    } else if d == 8 {
        "8"
    } else {
        "9"
    };
    assert(s@ =~= seq![digit_char(d as nat)]);
    s
}

/// The decimal text of `n`.
fn decimal(n: u64) -> (s: String)
    ensures
        s@ == decimal_text(n as nat),
    decreases n,
{
    if n < 10 {
        String::from_str(digit_str(n))
    } else {
        let mut s = decimal(n / 10);
        s.append(digit_str(n % 10));
        s
    }
}

/// A share in parts per million as a percentage with one decimal, rounded.
pub open spec fn percent_text(p: nat) -> Seq<char> {
    let tenths = (p + 500) / 1000;
    decimal_text(tenths / 10) + seq!['.'] + decimal_text(tenths % 10) + seq!['%']
}

fn percent(p: u64) -> (s: String)
    requires
        p <= PPM,
    ensures
        s@ == percent_text(p as nat),
{
    let tenths = (p + 500) / 1000;
    let mut s = decimal(tenths / 10);
    s.append(".");
    let frac = decimal(tenths % 10);
    s.append(frac.as_str());
    s.append("%");
    proof {
        reveal_strlit(".");
        reveal_strlit("%");
    }
    assert(s@ =~= percent_text(p as nat));
    s
}

/// Whether round one makes drawing worthwhile: the expected final score
/// beats the baseline by a tenth, improving is likelier than three in ten,
/// and degrading less likely than four in ten.
pub open spec fn worth_drawing(rs: Seq<RoundProbabilities>, b: u64) -> bool {
    rs.len() > 1 && 10 * rs[1].expected_improvement > b * PPM && rs[1].probability_of_improvement
        > 300000 && rs[1].risk_of_degradation < 400000
}

/// Whether to play: a strong hand always, a medium one when drawing is not
/// worthwhile, a weak one never when it is, else from ten points up.
pub open spec fn plays_now(b: u64, cont: bool) -> bool {
    if b >= 30 {
        true
    } else if b >= 15 && !cont {
        true
    } else if b < 10 && cont {
        false
    } else {
        b >= 10
    }
}

/// The reasons given, in order.
pub open spec fn play_reasons(rs: Seq<RoundProbabilities>, b: u64) -> Seq<Seq<char>> {
    let cont = worth_drawing(rs, b);
    let strong = if b >= 20 {
        seq!["Strong current hand (score "@ + decimal_text(b as nat) + ")"@]
    } else {
        Seq::empty()
    };
    let odds = if cont {
        seq!["Favorable risk/reward for drawing"@]
    } else if rs.len() > 1 {
        seq![
            "Unfavorable odds: "@ + percent_text(rs[1].probability_of_improvement as nat)
                + " success, "@ + percent_text(rs[1].risk_of_degradation as nat) + " risk"@,
        ]
    } else {
        Seq::empty()
    };
    let verdict = if b >= 30 {
        "Hand is strong enough to play"@
    } else if b >= 15 && !cont {
        "Medium hand, poor draw prospects"@
    } else if b < 10 && cont {
        "Weak hand, worth drawing to improve"@
    } else if b >= 10 {
        "Medium hand, play conservatively"@
    } else {
        "Hand too weak to play"@
    };
    strong + odds + seq![verdict]
}

/// The other strategies suggested, in order: drawing one card when round
/// one makes it worthwhile, and drawing before deciding when the hand is
/// also weak.
pub open spec fn play_alternatives(rs: Seq<RoundProbabilities>, b: u64) -> Seq<Seq<char>> {
    if worth_drawing(rs, b) {
        if b < 10 {
            seq!["Consider drawing one card"@, "Draw cards before deciding"@]
        } else {
            seq!["Consider drawing one card"@]
        }
    } else {
        Seq::empty()
    }
}

/// The reasons joined with "; ".
pub open spec fn joined(parts: Seq<Seq<char>>) -> Seq<char>
    decreases parts.len(),
{
    if parts.len() == 0 {
        Seq::empty()
    } else if parts.len() == 1 {
        parts[0]
    } else {
        joined(parts.drop_last()) + "; "@ + parts.last()
    }
}

impl Node {
    /// Decides whether to play the hand now, from the baseline and the odds
    /// of round one.
    pub fn make_play_decision(&self, prob_analysis: &HandProbabilityAnalysis) -> (r: PlayDecision)
        requires
            prob_analysis.wf(),
        ensures
            r.should_play == plays_now(
                prob_analysis.current_baseline,
                worth_drawing(prob_analysis.round_probabilities@, prob_analysis.current_baseline),
            ),
            r.confidence == prob_analysis.confidence_level,
            r.reasoning@ == joined(
                play_reasons(prob_analysis.round_probabilities@, prob_analysis.current_baseline),
            ),
            r.alternative_strategies@.len() == play_alternatives(
                prob_analysis.round_probabilities@,
                prob_analysis.current_baseline,
            ).len(),
            forall|k: int|
                0 <= k < r.alternative_strategies@.len() ==> #[trigger] r.alternative_strategies@[k]@
                    == play_alternatives(
                    prob_analysis.round_probabilities@,
                    prob_analysis.current_baseline,
                )[k],
    {
        let b = prob_analysis.current_baseline;
        let rs = &prob_analysis.round_probabilities;
        let ghost reasons = play_reasons(rs@, b);
        let mut reasoning: Vec<String> = Vec::new();
        let mut alternative_strategies: Vec<String> = Vec::new();
        if b >= 20 {
            let mut t = String::from_str("Strong current hand (score ");
            let digits = decimal(b);
            t.append(digits.as_str());
            t.append(")");
            reasoning.push(t);
        }
        let should_continue = if rs.len() > 1 {
            assert(round_bounded(rs@[1]));
            let r1 = &rs[1];
            let e = r1.expected_improvement;
            assert((b as i128) * (PPM as i128) <= u64::MAX * PPM) by (nonlinear_arith)
                requires
                    b <= u64::MAX,
            ;
            if 10 * e > (b as i128) * (PPM as i128) && r1.probability_of_improvement > 300000
                && r1.risk_of_degradation < 400000 {
                reasoning.push(String::from_str("Favorable risk/reward for drawing"));
                alternative_strategies.push(String::from_str("Consider drawing one card"));
                true
            } else {
                let mut t = String::from_str("Unfavorable odds: ");
                let success = percent(r1.probability_of_improvement);
                t.append(success.as_str());
                t.append(" success, ");
                let risk = percent(r1.risk_of_degradation);
                t.append(risk.as_str());
                t.append(" risk");
                reasoning.push(t);
                false
            }
        } else {
            false
        };
        let should_play = if b >= 30 {
            reasoning.push(String::from_str("Hand is strong enough to play"));
            true
        } else if b >= 15 && !should_continue {
            reasoning.push(String::from_str("Medium hand, poor draw prospects"));
            true
        } else if b < 10 && should_continue {
            reasoning.push(String::from_str("Weak hand, worth drawing to improve"));
            alternative_strategies.push(String::from_str("Draw cards before deciding"));
            false
        } else {
            let play = b >= 10;
            reasoning.push(
                if play {
                    String::from_str("Medium hand, play conservatively")
                } else {
                    String::from_str("Hand too weak to play")
                },
            );
            play
        };
        assert(forall|k: int| 0 <= k < reasoning@.len() ==> #[trigger] reasoning@[k]@ == reasons[k]);
        assert(reasoning@.len() == reasons.len());
        assert(alternative_strategies@.len() == play_alternatives(rs@, b).len());
        assert(forall|k: int|
            0 <= k < alternative_strategies@.len() ==> #[trigger] alternative_strategies@[k]@
                == play_alternatives(rs@, b)[k]);
        let joined_text = join_reasons(&reasoning, Ghost(reasons));
        PlayDecision {
            should_play,
            confidence: prob_analysis.confidence_level,
            reasoning: joined_text,
            alternative_strategies,
        }
    }
}

/// The texts joined with "; ".
fn join_reasons(parts: &Vec<String>, Ghost(views): Ghost<Seq<Seq<char>>>) -> (r: String)
    requires
        parts@.len() == views.len(),
        forall|k: int| 0 <= k < parts@.len() ==> #[trigger] parts@[k]@ == views[k],
    ensures
        r@ == joined(views),
{
    let mut r = String::new();
    let mut i: usize = 0;
    while i < parts.len()
        invariant
            i <= parts@.len(),
            parts@.len() == views.len(),
            forall|k: int| 0 <= k < parts@.len() ==> #[trigger] parts@[k]@ == views[k],
            r@ == joined(views.subrange(0, i as int)),
        decreases parts@.len() - i,
    {
        if i > 0 {
            r.append("; ");
        }
        r.append(parts[i].as_str());
        proof {
            let sub = views.subrange(0, i + 1);
            assert(sub.drop_last() =~= views.subrange(0, i as int));
            if i == 0 {
                assert(joined(Seq::<Seq<char>>::empty()) == Seq::<char>::empty());
                assert(r@ =~= joined(sub));
            } else {
                assert(r@ =~= joined(sub));
            }
        }
        i = i + 1;
    }
    assert(views.subrange(0, views.len() as int) =~= views);
    r
}

} // verus!
