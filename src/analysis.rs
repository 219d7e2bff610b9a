//! The decision tree: building it from sampled draws, and walking it.
use crate::card::Card;
use crate::game::{
    calculate_best_meld_from_hand, rank_ordered, resolved_score, sort_by_rank, sort_cards_by_rank, cards_without, copy_cards, without, Hand,
};
use crate::random::sample_cards;
use rayon::prelude::{IntoParallelIterator, ParallelIterator};
use crate::scoring::{meld_points, meld_score, CardVec};
use std::collections::VecDeque;
use vstd::pervasive::VecAdditionalExecFns;
use vstd::prelude::*;

verus! {

broadcast use vstd::std_specs::vec::group_vec_axioms;

/// How many draws below the root the tree is expanded.
pub const MAX_DEPTH: usize = 3;

/// How many cards are sampled from the unseen pool at each expansion.
pub const SAMPLE_SIZE: usize = 10;

/// One position of the game: a hand, the hands it can discard to, and the
/// positions reached by sampled draws after each discard.
#[derive(Debug)]
pub struct Node {
    pub full_hand: Hand,
    pub possible_hands: Vec<PossibleHand>,
    pub possible_cards: Vec<Card>,
    pub discard_pile: VecDeque<Card>,
    pub meld_score: Option<u64>,
    pub baseline_score: u64,
    pub branches: Vec<Node>,
    pub depth: usize,
}

/// The hand left after discarding one card, with its meld score.
#[derive(Clone, Debug)]
pub struct PossibleHand {
    pub hand: Hand,
    pub discard: Card,
    pub meld_score: u64,
}

/// The outcomes of one round: how the probability mass of the tree, walked
/// to the round's depth, falls on final scores. Probabilities are in parts
/// per million of `total_mass`; the expected improvement is in millionths of
/// a point.
#[derive(Clone, Debug)]
pub struct RoundProbabilities {
    pub round: usize,
    pub total_simulations: usize,
    pub baseline_score: u64,
    pub improvements: Vec<ImprovementOutcome>,
    pub total_mass: u64,
    pub probability_of_improvement: u64,
    pub expected_improvement: i128,
    pub risk_of_degradation: u64,
}

/// One final score of a round, with the mass that ends on it.
#[derive(Clone, Copy, Debug, PartialEq, Eq, Structural)]
pub struct ImprovementOutcome {
    pub final_score: u64,
    pub improvement: i128,
    /// Parts per million of the round's mass.
    pub probability: u64,
    pub mass: u64,
    pub path_count: usize,
}

/// The pool `s` without any card equal to `d`.
pub open spec fn without_card(s: Seq<Card>, d: Card) -> Seq<Card>
    decreases s.len(),
{
    if s.len() == 0 {
        s
    } else if s.last() == d {
        without_card(s.drop_last(), d)
    } else {
        without_card(s.drop_last(), d).push(s.last())
    }
}

/// The discard at `i` of `n`'s hand is followed by sampled draws.
pub open spec fn expands(n: Node, i: int) -> bool {
    n.depth < MAX_DEPTH && meld_score(without(n.full_hand.cards@, i)) > 0
}

/// How many of the first `k` discards of `n` are followed by sampled draws.
pub open spec fn expanded_discards(n: Node, k: int) -> nat
    decreases k,
{
    if k <= 0 {
        0
    } else {
        expanded_discards(n, k - 1) + if expands(n, k - 1) {
            1nat
        } else {
            0nat
        }
    }
}

/// How many cards one expansion of `n` samples.
pub open spec fn sample_count(n: Node) -> nat {
    if SAMPLE_SIZE <= n.possible_cards@.len() {
        SAMPLE_SIZE as nat
    } else {
        n.possible_cards@.len()
    }
}

/// The possible hand at `i` is the hand without its card at `i`, scored.
pub open spec fn possible_hand_ok(n: Node, i: int) -> bool {
    &&& n.possible_hands@[i].hand.cards@ == without(n.full_hand.cards@, i)
    &&& n.possible_hands@[i].discard == n.full_hand.cards@[i]
    &&& n.possible_hands@[i].meld_score == meld_score(without(n.full_hand.cards@, i))
}

/// `b` stands at the position reached from `n` by discarding the card at
/// `i` and drawing the unseen card `d` (all but the order of its hand).
pub open spec fn placed(n: Node, i: int, d: Card, b: Node) -> bool {
    let rest = without(n.full_hand.cards@, i);
    &&& 0 <= i < n.full_hand.cards@.len()
    &&& expands(n, i)
    &&& b.depth == n.depth + 1
    &&& n.possible_cards@.contains(d)
    &&& b.possible_cards@ == without_card(n.possible_cards@, d)
    &&& b.discard_pile@ == n.discard_pile@.push(n.full_hand.cards@[i])
    &&& b.baseline_score == resolved_score(rest.push(d))
    &&& b.meld_score == Some(meld_score(rest))
    &&& n.depth > 1 ==> b.baseline_score > n.baseline_score
}

/// `b` is the fresh node for discarding the card at `i` of `n` and drawing
/// `d`: the remaining hand with `d` added last, not yet built.
pub open spec fn fresh_child_of(n: Node, i: int, d: Card, b: Node) -> bool {
    &&& placed(n, i, d, b)
    &&& b.full_hand.cards@ == without(n.full_hand.cards@, i).push(d)
}

/// `b` is the position reached from `n` by discarding the card at `i` and
/// drawing the unseen card `d`, its hand ordered by rank.
pub open spec fn child_of(n: Node, i: int, d: Card, b: Node) -> bool {
    &&& placed(n, i, d, b)
    &&& b.full_hand.cards@ == sort_by_rank(without(n.full_hand.cards@, i).push(d))
}

/// `b` is reached from `n` by some discard and draw.
pub open spec fn is_child(n: Node, b: Node) -> bool {
    exists|i: int, d: Card| #[trigger] child_of(n, i, d, b)
}

/// The node's own part of a built tree: one possible hand per card, every
/// branch a sampled position, and no branch pruned at the root or just below.
pub open spec fn node_ok(n: Node) -> bool {
    &&& n.possible_hands@.len() == n.full_hand.cards@.len()
    &&& forall|i: int| 0 <= i < n.possible_hands@.len() ==> #[trigger] possible_hand_ok(n, i)
    &&& forall|j: int| 0 <= j < n.branches@.len() ==> #[trigger] is_child(n, n.branches@[j])
    &&& n.depth <= 1 ==> n.branches@.len() == expanded_discards(n, n.full_hand.cards@.len() as int)
        * sample_count(n)
    &&& n.branches@.len() <= expanded_discards(n, n.full_hand.cards@.len() as int) * sample_count(n)
}

/// `n` is built and has no built levels below it counted.
pub open spec fn built_0(n: Node) -> bool {
    node_ok(n)
}

/// `n` and the level below it are built.
pub open spec fn built_1(n: Node) -> bool {
    &&& node_ok(n)
    &&& forall|j: int| 0 <= j < n.branches@.len() ==> #[trigger] built_0(n.branches@[j])
}

/// `n` and the two levels below it are built.
pub open spec fn built_2(n: Node) -> bool {
    &&& node_ok(n)
    &&& forall|j: int| 0 <= j < n.branches@.len() ==> #[trigger] built_1(n.branches@[j])
}

/// `n` and the three levels below it are built.
pub open spec fn built_3(n: Node) -> bool {
    &&& node_ok(n)
    &&& forall|j: int| 0 <= j < n.branches@.len() ==> #[trigger] built_2(n.branches@[j])
}

/// A tree as the builder leaves it: every node is built. Branches exist only
/// above `MAX_DEPTH`, so three levels below any node cover the whole tree.
pub open spec fn tree_ok(n: Node) -> bool {
    built_3(n)
}

proof fn lemma_built_2_weakens(n: Node)
    requires
        built_2(n),
    ensures
        built_1(n),
{
    assert forall|j: int| 0 <= j < n.branches@.len() implies #[trigger] built_0(n.branches@[j]) by {
        assert(built_1(n.branches@[j]));
    }
}

proof fn lemma_built_3_weakens(n: Node)
    requires
        built_3(n),
    ensures
        built_2(n),
{
    assert forall|j: int| 0 <= j < n.branches@.len() implies #[trigger] built_1(n.branches@[j]) by {
        lemma_built_2_weakens(n.branches@[j]);
    }
}

proof fn lemma_tree_ok_intro(n: Node)
    requires
        node_ok(n),
        forall|j: int| 0 <= j < n.branches@.len() ==> #[trigger] tree_ok(n.branches@[j]),
    ensures
        tree_ok(n),
{
    assert forall|j: int| 0 <= j < n.branches@.len() implies #[trigger] built_2(n.branches@[j]) by {
        assert(tree_ok(n.branches@[j]));
        lemma_built_3_weakens(n.branches@[j]);
    }
}

/// Two nodes at the same position: same hand, pool, pile, baseline and depth.
pub open spec fn same_position(a: Node, b: Node) -> bool {
    &&& a.full_hand == b.full_hand
    &&& a.possible_cards == b.possible_cards
    &&& a.discard_pile == b.discard_pile
    &&& a.baseline_score == b.baseline_score
    &&& a.depth == b.depth
}

proof fn lemma_same_position(a: Node, b: Node)
    requires
        same_position(a, b),
    ensures
        forall|c: Node|
            #![trigger is_child(a, c)]
            #![trigger is_child(b, c)]
            is_child(a, c) == is_child(b, c),
        forall|k: int|
            #![trigger expanded_discards(a, k)]
            #![trigger expanded_discards(b, k)]
            expanded_discards(a, k) == expanded_discards(b, k),
        sample_count(a) == sample_count(b),
{
    assert forall|k: int| #![trigger expanded_discards(a, k)] #![trigger expanded_discards(b, k)]
        expanded_discards(a, k) == expanded_discards(b, k) by {
        lemma_expanded_discards_same(a, b, k);
    }
    assert forall|c: Node| #![trigger is_child(a, c)] #![trigger is_child(b, c)]
        is_child(a, c) == is_child(b, c) by {
        if is_child(a, c) {
            let (i, d) = choose|i: int, d: Card| #[trigger] child_of(a, i, d, c);
            assert(child_of(b, i, d, c));
        }
        if is_child(b, c) {
            let (i, d) = choose|i: int, d: Card| #[trigger] child_of(b, i, d, c);
            assert(child_of(a, i, d, c));
        }
    }
}

proof fn lemma_expanded_discards_same(a: Node, b: Node, k: int)
    requires
        same_position(a, b),
    ensures
        expanded_discards(a, k) == expanded_discards(b, k),
    decreases k,
{
    if k > 0 {
        lemma_expanded_discards_same(a, b, k - 1);
    }
}

/// The pool without the drawn card.
pub(crate) fn remove_card(pool: &Vec<Card>, d: Card) -> (r: Vec<Card>)
    ensures
        r@ == without_card(pool@, d),
{
    let mut r: Vec<Card> = Vec::new();
    let mut i: usize = 0;
    while i < pool.len()
        invariant
            i <= pool.len(),
            r@ == without_card(pool@.subrange(0, i as int), d),
        decreases pool.len() - i,
    {
        assert(pool@.subrange(0, i + 1).drop_last() =~= pool@.subrange(0, i as int));
        if pool[i] != d {
            r.push(pool[i]);
        }
        i = i + 1;
    }
    assert(pool@.subrange(0, pool.len() as int) =~= pool@);
    r
}

/// The pile with one more card on top.
fn pile_with(pile: &VecDeque<Card>, d: Card) -> (r: VecDeque<Card>)
    ensures
        r@ == pile@.push(d),
{
    let mut r = pile.clone();
    assert(r@ =~= pile@);
    r.push_back(d);
    r
}

/// `sel` can be what one expansion of `n` samples: as many cards as
/// `sample_count(n)`, drawn without replacement from its unseen cards.
pub open spec fn sample_of(n: Node, sel: Seq<Card>) -> bool {
    &&& sel.len() == sample_count(n)
    &&& sel.to_multiset().subset_of(n.possible_cards@.to_multiset())
}

/// Whether `n` explores the draw of `d` after a discard that leaves `base`:
/// always at depth one or less, else when the six-card hand beats the
/// node's baseline.
pub open spec fn keeps(n: Node, base: Seq<Card>, d: Card) -> bool {
    n.depth <= 1 || resolved_score(base.push(d)) > n.baseline_score
}

/// The draws of `sel`, in order, that `n` explores.
pub open spec fn kept_draws(n: Node, base: Seq<Card>, sel: Seq<Card>) -> Seq<Card>
    decreases sel.len(),
{
    if sel.len() == 0 {
        Seq::empty()
    } else if keeps(n, base, sel.last()) {
        kept_draws(n, base, sel.drop_last()).push(sel.last())
    } else {
        kept_draws(n, base, sel.drop_last())
    }
}

/// The branches of `after` from `before`'s count on are, in order, the
/// positions reached by discarding `discard` to leave `base` and drawing the
/// cards of `drawn`, each hand ordered by rank.
pub open spec fn branches_follow(before: Node, after: Node, base: Seq<Card>, discard: Card, drawn: Seq<Card>) -> bool {
    let from = before.branches@.len() as int;
    &&& from + drawn.len() == after.branches@.len()
    &&& forall|j: int|
        from <= j < after.branches@.len() ==> {
            &&& (#[trigger] after.branches@[j]).full_hand.cards@ == sort_by_rank(
                base.push(drawn[j - from]),
            )
            &&& after.branches@[j].possible_cards@ == without_card(
                before.possible_cards@,
                drawn[j - from],
            )
            &&& after.branches@[j].discard_pile@ == before.discard_pile@.push(discard)
        }
}

/// The branches `after` has beyond those of `before` are, in order, the
/// explored draws of one sample of `before`'s unseen cards, each reached by
/// discarding `discard` to leave `base` and drawing the card.
pub open spec fn sampled_branches(before: Node, after: Node, base: Seq<Card>, discard: Card) -> bool {
    exists|sel: Seq<Card>|
        #[trigger] sample_of(before, sel) && branches_follow(
            before,
            after,
            base,
            discard,
            kept_draws(before, base, sel),
        )
}

proof fn lemma_kept_draws_len(n: Node, base: Seq<Card>, sel: Seq<Card>)
    ensures
        kept_draws(n, base, sel).len() <= sel.len(),
        n.depth <= 1 ==> kept_draws(n, base, sel) == sel,
    decreases sel.len(),
{
    if sel.len() > 0 {
        lemma_kept_draws_len(n, base, sel.drop_last());
        if n.depth <= 1 {
            assert(sel.drop_last().push(sel.last()) =~= sel);
        }
    }
}

/// `after` is `before` built: its hand ordered by rank (a permutation of the
/// old hand), with the same pool, pile, baseline, depth and meld score.
pub open spec fn built_from(after: Node, before: Node) -> bool {
    &&& after.full_hand.cards@ == sort_by_rank(before.full_hand.cards@)
    &&& rank_ordered(after.full_hand.cards@)
    &&& after.full_hand.cards@.to_multiset() == before.full_hand.cards@.to_multiset()
    &&& after.possible_cards == before.possible_cards
    &&& after.discard_pile == before.discard_pile
    &&& after.baseline_score == before.baseline_score
    &&& after.depth == before.depth
    &&& after.meld_score == before.meld_score
}

/// Fills a fresh node: it orders the hand by rank, records one possible hand
/// per card of it, and, below
/// `MAX_DEPTH`, for each discard that leaves a scoring hand, the positions
/// reached by up to `SAMPLE_SIZE` sampled draws from the unseen cards. From
/// depth two on, a drawn position that does not beat the node's baseline is
/// not explored.
pub fn evaluate_hand(node: &mut Node) -> (r: Result<(), String>)
    requires
        old(node).possible_hands@.len() == 0,
        old(node).branches@.len() == 0,
        old(node).depth <= MAX_DEPTH,
        old(node).full_hand.cards@.len() <= 6,
    ensures
        r is Ok,
        built_from(*final(node), *old(node)),
        tree_ok(*final(node)),
        final(node).possible_hands@.len() == final(node).full_hand.cards@.len(),
        final(node).depth <= 1 ==> final(node).branches@.len() == expanded_discards(
            *final(node),
            final(node).full_hand.cards@.len() as int,
        ) * sample_count(*final(node)),
    decreases MAX_DEPTH - old(node).depth, 2nat, 0nat,
{
    evaluate_hand_with(node, false)
}

/// `evaluate_hand`, with the sampled draws below the root and the first
/// level built on parallel workers.
pub fn evaluate_hand_parallel(node: &mut Node) -> (r: Result<(), String>)
    requires
        old(node).possible_hands@.len() == 0,
        old(node).branches@.len() == 0,
        old(node).depth <= MAX_DEPTH,
        old(node).full_hand.cards@.len() <= 6,
    ensures
        r is Ok,
        built_from(*final(node), *old(node)),
        tree_ok(*final(node)),
        final(node).possible_hands@.len() == final(node).full_hand.cards@.len(),
        final(node).depth <= 1 ==> final(node).branches@.len() == expanded_discards(
            *final(node),
            final(node).full_hand.cards@.len() as int,
        ) * sample_count(*final(node)),
{
    evaluate_hand_with(node, true)
}

/// The tree builder, run serially or, at depth one and above, in parallel.
fn evaluate_hand_with(node: &mut Node, parallel: bool) -> (r: Result<(), String>)
    requires
        old(node).possible_hands@.len() == 0,
        old(node).branches@.len() == 0,
        old(node).depth <= MAX_DEPTH,
        old(node).full_hand.cards@.len() <= 6,
    ensures
        r is Ok,
        built_from(*final(node), *old(node)),
        tree_ok(*final(node)),
        final(node).possible_hands@.len() == final(node).full_hand.cards@.len(),
        final(node).depth <= 1 ==> final(node).branches@.len() == expanded_discards(
            *final(node),
            final(node).full_hand.cards@.len() as int,
        ) * sample_count(*final(node)),
    decreases MAX_DEPTH - old(node).depth, 1nat, 0nat,
{
    sort_cards_by_rank(&mut node.full_hand.cards);
    let ghost start = *node;
    let n = node.full_hand.cards.len();
    let pool = copy_cards(&node.possible_cards);
    let mut idx: usize = 0;
    assert(expanded_discards(start, 0) == 0);
    while idx < n
        invariant
            n == node.full_hand.cards@.len(),
            n <= 6,
            idx <= n,
            same_position(*node, start),
            start.depth == old(node).depth,
            node.meld_score == start.meld_score,
            node.depth <= MAX_DEPTH,
            pool@ == node.possible_cards@,
            node.possible_hands@.len() == idx,
            forall|i: int| 0 <= i < idx ==> #[trigger] possible_hand_ok(*node, i),
            forall|j: int| 0 <= j < node.branches@.len() ==> #[trigger] is_child(start, node.branches@[j]),
            forall|j: int| 0 <= j < node.branches@.len() ==> #[trigger] tree_ok(node.branches@[j]),
            node.depth <= 1 ==> node.branches@.len() == expanded_discards(start, idx as int)
                * sample_count(start),
            node.branches@.len() <= expanded_discards(start, idx as int) * sample_count(start),
        decreases n - idx,
    {
        evaluate_discard(node, idx, &pool, parallel, Ghost(start));
        idx = idx + 1;
    }
    proof {
        lemma_same_position(*node, start);
        assert(node.possible_hands@.len() == node.full_hand.cards@.len());
        assert(forall|i: int| 0 <= i < node.possible_hands@.len() ==> #[trigger] possible_hand_ok(*node, i));
        assert(forall|j: int| 0 <= j < node.branches@.len() ==> #[trigger] is_child(*node, node.branches@[j]));
        assert(node.depth <= 1 ==> node.branches@.len() == expanded_discards(*node, node.full_hand.cards@.len() as int)
        * sample_count(*node));
        assert(node.branches@.len() <= expanded_discards(*node, node.full_hand.cards@.len() as int)
        * sample_count(*node));
        assert(node_ok(*node));
        lemma_tree_ok_intro(*node);
    }
    Ok(())
}

/// One step of `evaluate_hand`: records the possible hand left by discarding
/// the card at `idx`, and expands it when it scores.
#[verifier::rlimit(100)]
fn evaluate_discard(
    node: &mut Node,
    idx: usize,
    pool: &Vec<Card>,
    parallel: bool,
    Ghost(start): Ghost<Node>,
)
    requires
        old(node).full_hand.cards@.len() <= 6,
        idx < old(node).full_hand.cards@.len(),
        same_position(*old(node), start),
        old(node).depth <= MAX_DEPTH,
        pool@ == old(node).possible_cards@,
        old(node).possible_hands@.len() == idx,
        forall|i: int| 0 <= i < idx ==> #[trigger] possible_hand_ok(*old(node), i),
        forall|j: int| 0 <= j < old(node).branches@.len() ==> #[trigger] is_child(start, old(node).branches@[j]),
        forall|j: int| 0 <= j < old(node).branches@.len() ==> #[trigger] tree_ok(old(node).branches@[j]),
        old(node).depth <= 1 ==> old(node).branches@.len() == expanded_discards(start, idx as int)
            * sample_count(start),
        old(node).branches@.len() <= expanded_discards(start, idx as int) * sample_count(start),
    ensures
        same_position(*final(node), start),
        final(node).meld_score == old(node).meld_score,
        final(node).possible_hands@.len() == idx + 1,
        forall|i: int| 0 <= i < idx + 1 ==> #[trigger] possible_hand_ok(*final(node), i),
        forall|j: int| 0 <= j < final(node).branches@.len() ==> #[trigger] is_child(start, final(node).branches@[j]),
        forall|j: int| 0 <= j < final(node).branches@.len() ==> #[trigger] tree_ok(final(node).branches@[j]),
        final(node).depth <= 1 ==> final(node).branches@.len() == expanded_discards(start, idx + 1)
            * sample_count(start),
        final(node).branches@.len() <= expanded_discards(start, idx + 1) * sample_count(start),
    decreases MAX_DEPTH - old(node).depth, 0nat, 1nat,
{
    let five = cards_without(&node.full_hand.cards, idx);
    let score = meld_points(&five);
    let discard = node.full_hand.cards[idx];
    let ghost before = *node;
    node.possible_hands.push(
        PossibleHand { hand: Hand { cards: copy_cards(&five) }, discard, meld_score: score },
    );
    assert forall|i: int| 0 <= i < idx + 1 implies #[trigger] possible_hand_ok(*node, i) by {
        if i < idx {
            assert(possible_hand_ok(before, i));
        }
    }
    let ghost mid = *node;
    proof {
        lemma_same_position(mid, start);
        assert(expanded_discards(start, idx + 1) == expanded_discards(start, idx as int) + if expands(
            start,
            idx as int,
        ) {
            1nat
        } else {
            0nat
        });
    }
    if node.depth < MAX_DEPTH && score > 0 {
        let ghost old_branches = node.branches@;
        let base = CardVec::from_vec(copy_cards(&five));
        if parallel && node.depth <= 1 {
            let _ = evaluate_branches_parallel(node, &base, pool.as_slice(), discard, Some(score));
        } else {
            let _ = evaluate_branches(node, &base, pool.as_slice(), discard, Some(score));
        }
        proof {
            assert forall|j: int| 0 <= j < node.branches@.len() implies #[trigger] is_child(
                start,
                node.branches@[j],
            ) by {
                if j < old_branches.len() {
                    assert(node.branches@[j] == node.branches@.subrange(
                        0,
                        old_branches.len() as int,
                    )[j]);
                }
            }
            assert forall|j: int| 0 <= j < node.branches@.len() implies #[trigger] tree_ok(
                node.branches@[j],
            ) by {
                if j < old_branches.len() {
                    assert(node.branches@[j] == node.branches@.subrange(
                        0,
                        old_branches.len() as int,
                    )[j]);
                }
            }
            assert forall|i: int| 0 <= i < idx + 1 implies #[trigger] possible_hand_ok(*node, i) by {
                assert(possible_hand_ok(mid, i));
            }
            let e = expanded_discards(start, idx as int);
            let c = sample_count(start);
            assert((e + 1) * c == e * c + c) by (nonlinear_arith);
        }
    }
}

/// Expands `node` after the discard of `discard`, which leaves `base_hand`:
/// samples up to `SAMPLE_SIZE` cards from `available_samples` (the node's
/// unseen cards) and adds one explored branch per sampled draw. From depth
/// two on, a draw whose hand does not beat the node's baseline adds no
/// branch.
pub fn evaluate_branches(
    node: &mut Node,
    base_hand: &CardVec,
    available_samples: &[Card],
    discard: Card,
    max_meld_score: Option<u64>,
) -> (r: Result<(), String>)
    requires
        old(node).depth < MAX_DEPTH,
        old(node).full_hand.cards@.len() <= 6,
        available_samples@ == old(node).possible_cards@,
        exists|i: int|
            0 <= i < old(node).full_hand.cards@.len() && expands(*old(node), i) && #[trigger] without(
                old(node).full_hand.cards@,
                i,
            ) == base_hand@ && old(node).full_hand.cards@[i] == discard && max_meld_score == Some(
                meld_score(base_hand@),
            ),
    ensures
        r is Ok,
        same_position(*final(node), *old(node)),
        final(node).meld_score == old(node).meld_score,
        final(node).possible_hands == old(node).possible_hands,
        final(node).branches@.len() >= old(node).branches@.len(),
        final(node).branches@.subrange(0, old(node).branches@.len() as int) == old(node).branches@,
        forall|j: int|
            old(node).branches@.len() <= j < final(node).branches@.len() ==> #[trigger] is_child(
                *old(node),
                final(node).branches@[j],
            ),
        forall|j: int|
            old(node).branches@.len() <= j < final(node).branches@.len() ==> #[trigger] tree_ok(
                final(node).branches@[j],
            ),
        old(node).depth <= 1 ==> final(node).branches@.len() == old(node).branches@.len()
            + sample_count(*old(node)),
        final(node).branches@.len() <= old(node).branches@.len() + sample_count(*old(node)),
        sampled_branches(*old(node), *final(node), base_hand@, discard),
    decreases MAX_DEPTH - old(node).depth, 0nat, 0nat,
{
    broadcast use vstd::seq_lib::group_to_multiset_ensures;

    let ghost start = *node;
    let ghost i0 = choose|i: int|
        0 <= i < old(node).full_hand.cards@.len() && expands(*old(node), i) && #[trigger] without(
            old(node).full_hand.cards@,
            i,
        ) == base_hand@ && old(node).full_hand.cards@[i] == discard && max_meld_score == Some(
            meld_score(base_hand@),
        );
    let samples = copy_slice(available_samples);
    let selected = sample_cards(&samples, SAMPLE_SIZE);
    let base = base_hand.to_vec();
    let mut k: usize = 0;
    assert(selected@.subrange(0, 0) =~= Seq::<Card>::empty());
    while k < selected.len()
        invariant
            k <= selected.len(),
            start == *old(node),
            same_position(*node, start),
            node.meld_score == start.meld_score,
            node.possible_hands == start.possible_hands,
            node.depth < MAX_DEPTH,
            base@ == without(start.full_hand.cards@, i0),
            0 <= i0 < start.full_hand.cards@.len(),
            expands(start, i0),
            start.full_hand.cards@[i0] == discard,
            max_meld_score == Some(meld_score(base@)),
            base@.len() <= 5,
            selected@.to_multiset().subset_of(start.possible_cards@.to_multiset()),
            selected@.len() == sample_count(start),
            node.branches@.len() >= start.branches@.len(),
            branches_follow(start, *node, base@, discard, kept_draws(start, base@, selected@.subrange(0, k as int))),
            node.branches@.subrange(0, start.branches@.len() as int) == start.branches@,
            forall|j: int|
                start.branches@.len() <= j < node.branches@.len() ==> #[trigger] is_child(
                    start,
                    node.branches@[j],
                ),
            forall|j: int|
                start.branches@.len() <= j < node.branches@.len() ==> #[trigger] tree_ok(
                    node.branches@[j],
                ),
            start.depth <= 1 ==> node.branches@.len() == start.branches@.len() + k,
        decreases selected.len() - k,
    {
        let drawn = selected[k];
        assert(selected@.contains(drawn)) by {
            assert(selected@[k as int] == drawn);
        }
        proof {
            selected@.to_multiset_ensures();
            start.possible_cards@.to_multiset_ensures();
        }
        assert(selected@.to_multiset().count(drawn) > 0);
        assert(start.possible_cards@.to_multiset().count(drawn) > 0);
        assert(start.possible_cards@.contains(drawn));
        let mut six = copy_cards(&base);
        six.push(drawn);
        let pool = remove_card(&node.possible_cards, drawn);
        let pile = pile_with(&node.discard_pile, discard);
        let (branch_baseline, _best) = calculate_best_meld_from_hand(&Hand { cards: copy_cards(&six) });
        proof {
            let sub = selected@.subrange(0, k + 1);
            assert(sub.drop_last() =~= selected@.subrange(0, k as int));
            assert(sub.last() == drawn);
            assert(six@ == base@.push(drawn));
            assert(kept_draws(start, base@, sub).len() == kept_draws(start, base@, selected@.subrange(0, k as int)).len() + if keeps(start, base@, drawn) { 1int } else { 0int });
        }
        if node.depth > 1 && branch_baseline <= node.baseline_score {
            assert(!keeps(start, base@, drawn));
            k = k + 1;
            continue;
        }
        let mut branch = Node {
            full_hand: Hand { cards: six },
            possible_hands: Vec::new(),
            possible_cards: pool,
            discard_pile: pile,
            meld_score: max_meld_score,
            baseline_score: branch_baseline,
            branches: Vec::new(),
            depth: node.depth + 1,
        };
        let ghost fresh = branch;
        let res = evaluate_hand(&mut branch);
        proof {
            assert(branch.full_hand.cards@ == sort_by_rank(base@.push(drawn)));
            assert(branch.possible_cards@ == without_card(start.possible_cards@, drawn));
            assert(branch.discard_pile@ == start.discard_pile@.push(start.full_hand.cards@[i0]));
            assert(branch.baseline_score == resolved_score(base@.push(drawn)));
            assert(branch.meld_score == Some(meld_score(without(start.full_hand.cards@, i0))));
            assert(child_of(start, i0, drawn, branch));
        }
        let ghost before = node.branches@;
        let ghost built = branch;
        let ghost prev = kept_draws(start, base@, selected@.subrange(0, k as int));
        let ghost next = kept_draws(start, base@, selected@.subrange(0, k + 1));
        assert(keeps(start, base@, drawn));
        assert(next == prev.push(drawn));
        node.branches.push(branch);
        assert(node.branches@.subrange(0, start.branches@.len() as int) =~= before.subrange(0, start.branches@.len() as int));
        assert forall|j: int| start.branches@.len() <= j < node.branches@.len() implies #[trigger] is_child(
            start,
            node.branches@[j],
        ) by {
            if j < before.len() {
                assert(node.branches@[j] == before[j]);
            } else {
                assert(node.branches@[j] == built);
            }
        }
        assert forall|j: int| start.branches@.len() <= j < node.branches@.len() implies #[trigger] tree_ok(
            node.branches@[j],
        ) by {
            if j < before.len() {
                assert(node.branches@[j] == before[j]);
            } else {
                assert(node.branches@[j] == built);
            }
        }
        assert(branches_follow(start, *node, base@, discard, next)) by {
            let from = start.branches@.len() as int;
            assert forall|j: int| from <= j < node.branches@.len() implies {
                &&& (#[trigger] node.branches@[j]).full_hand.cards@ == sort_by_rank(
                    base@.push(next[j - from]),
                )
                &&& node.branches@[j].possible_cards@ == without_card(
                    start.possible_cards@,
                    next[j - from],
                )
                &&& node.branches@[j].discard_pile@ == start.discard_pile@.push(discard)
            } by {
                if j < before.len() {
                    assert(node.branches@[j] == before[j]);
                    assert(next[j - from] == prev[j - from]);
                } else {
                    assert(node.branches@[j] == built);
                    assert(next[j - from] == drawn);
                }
            }
        }
        k = k + 1;
    }
    proof {
        assert(selected@.subrange(0, selected@.len() as int) =~= selected@);
        assert(sample_of(start, selected@));
        lemma_kept_draws_len(start, base@, selected@);
    }
    Ok(())
}

/// The branch reached by drawing `drawn` after `discard`, which leaves
/// `base`: its hand, pool, pile and baseline, not yet built.
fn fresh_branch(node: &Node, base: &Vec<Card>, drawn: Card, discard: Card, max_meld_score: Option<u64>) -> (b: Node)
    requires
        node.depth < MAX_DEPTH,
        base@.len() <= 5,
    ensures
        b.full_hand.cards@ == base@.push(drawn),
        b.possible_cards@ == without_card(node.possible_cards@, drawn),
        b.discard_pile@ == node.discard_pile@.push(discard),
        b.baseline_score == resolved_score(b.full_hand.cards@),
        b.meld_score == max_meld_score,
        b.depth == node.depth + 1,
        b.possible_hands@.len() == 0,
        b.branches@.len() == 0,
{
    let mut six = copy_cards(base);
    six.push(drawn);
    let pool = remove_card(&node.possible_cards, drawn);
    let pile = pile_with(&node.discard_pile, discard);
    let (baseline, _best) = calculate_best_meld_from_hand(&Hand { cards: copy_cards(&six) });
    Node {
        full_hand: Hand { cards: six },
        possible_hands: Vec::new(),
        possible_cards: pool,
        discard_pile: pile,
        meld_score: max_meld_score,
        baseline_score: baseline,
        branches: Vec::new(),
        depth: node.depth + 1,
    }
}

/// A fresh node that `evaluate_hand` can build.
pub open spec fn buildable(n: Node) -> bool {
    &&& n.possible_hands@.len() == 0
    &&& n.branches@.len() == 0
    &&& n.depth <= MAX_DEPTH
    &&& n.full_hand.cards@.len() <= 6
}

/// Relies on rayon's `into_par_iter`, `map` and `collect`: each node is built
/// by `evaluate_hand` on some worker, and the built nodes come back in the
/// order of `fresh`.
#[verifier::external_body]
fn build_in_parallel(fresh: Vec<Node>) -> (r: Vec<Node>)
    requires
        forall|i: int| 0 <= i < fresh@.len() ==> #[trigger] buildable(fresh@[i]),
    ensures
        r@.len() == fresh@.len(),
        forall|i: int|
            0 <= i < r@.len() ==> {
                &&& built_from(#[trigger] r@[i], fresh@[i])
                &&& tree_ok(r@[i])
            },
{
    fresh.into_par_iter().map(|mut n| {
        let _ = evaluate_hand(&mut n);
        n
    }).collect()
}

proof fn lemma_child_kept(n: Node, i: int, d: Card, a: Node, b: Node)
    requires
        fresh_child_of(n, i, d, a),
        built_from(b, a),
    ensures
        child_of(n, i, d, b),
{
}

/// `evaluate_branches` with the sampled branches built on parallel workers.
pub fn evaluate_branches_parallel(
    node: &mut Node,
    base_hand: &CardVec,
    available_samples: &[Card],
    discard: Card,
    max_meld_score: Option<u64>,
) -> (r: Result<(), String>)
    requires
        old(node).depth < MAX_DEPTH,
        old(node).full_hand.cards@.len() <= 6,
        available_samples@ == old(node).possible_cards@,
        exists|i: int|
            0 <= i < old(node).full_hand.cards@.len() && expands(*old(node), i) && #[trigger] without(
                old(node).full_hand.cards@,
                i,
            ) == base_hand@ && old(node).full_hand.cards@[i] == discard && max_meld_score == Some(
                meld_score(base_hand@),
            ),
    ensures
        r is Ok,
        same_position(*final(node), *old(node)),
        final(node).meld_score == old(node).meld_score,
        final(node).possible_hands == old(node).possible_hands,
        final(node).branches@.len() >= old(node).branches@.len(),
        final(node).branches@.subrange(0, old(node).branches@.len() as int) == old(node).branches@,
        forall|j: int|
            old(node).branches@.len() <= j < final(node).branches@.len() ==> #[trigger] is_child(
                *old(node),
                final(node).branches@[j],
            ),
        forall|j: int|
            old(node).branches@.len() <= j < final(node).branches@.len() ==> #[trigger] tree_ok(
                final(node).branches@[j],
            ),
        old(node).depth <= 1 ==> final(node).branches@.len() == old(node).branches@.len()
            + sample_count(*old(node)),
        final(node).branches@.len() <= old(node).branches@.len() + sample_count(*old(node)),
        sampled_branches(*old(node), *final(node), base_hand@, discard),
{
    broadcast use vstd::seq_lib::group_to_multiset_ensures;

    let ghost start = *node;
    let ghost i0 = choose|i: int|
        0 <= i < old(node).full_hand.cards@.len() && expands(*old(node), i) && #[trigger] without(
            old(node).full_hand.cards@,
            i,
        ) == base_hand@ && old(node).full_hand.cards@[i] == discard && max_meld_score == Some(
            meld_score(base_hand@),
        );
    let samples = copy_slice(available_samples);
    let selected = sample_cards(&samples, SAMPLE_SIZE);
    let base = base_hand.to_vec();
    let mut fresh: Vec<Node> = Vec::new();
    let mut k: usize = 0;
    assert(selected@.subrange(0, 0) =~= Seq::<Card>::empty());
    while k < selected.len()
        invariant
            k <= selected.len(),
            start == *old(node),
            *node == start,
            node.depth < MAX_DEPTH,
            base@ == without(start.full_hand.cards@, i0),
            0 <= i0 < start.full_hand.cards@.len(),
            expands(start, i0),
            start.full_hand.cards@[i0] == discard,
            max_meld_score == Some(meld_score(base@)),
            base@.len() <= 5,
            selected@.to_multiset().subset_of(start.possible_cards@.to_multiset()),
            selected@.len() == sample_count(start),
            fresh@.len() == kept_draws(start, base@, selected@.subrange(0, k as int)).len(),
            forall|j: int| 0 <= j < fresh@.len() ==> #[trigger] fresh_child_of(
                start,
                i0,
                kept_draws(start, base@, selected@.subrange(0, k as int))[j],
                fresh@[j],
            ),
            forall|j: int| 0 <= j < fresh@.len() ==> #[trigger] buildable(fresh@[j]),
        decreases selected.len() - k,
    {
        let drawn = selected[k];
        assert(selected@.contains(drawn)) by {
            assert(selected@[k as int] == drawn);
        }
        proof {
            selected@.to_multiset_ensures();
            start.possible_cards@.to_multiset_ensures();
        }
        assert(selected@.to_multiset().count(drawn) > 0);
        assert(start.possible_cards@.to_multiset().count(drawn) > 0);
        assert(start.possible_cards@.contains(drawn));
        let ghost prev = kept_draws(start, base@, selected@.subrange(0, k as int));
        let ghost next = kept_draws(start, base@, selected@.subrange(0, k + 1));
        proof {
            let sub = selected@.subrange(0, k + 1);
            assert(sub.drop_last() =~= selected@.subrange(0, k as int));
            assert(sub.last() == drawn);
        }
        let branch = fresh_branch(node, &base, drawn, discard, max_meld_score);
        if node.depth > 1 && branch.baseline_score <= node.baseline_score {
            assert(!keeps(start, base@, drawn));
            assert(next == prev);
            k = k + 1;
            continue;
        }
        assert(keeps(start, base@, drawn));
        assert(next == prev.push(drawn));
        proof {
            assert(fresh_child_of(start, i0, drawn, branch));
        }
        let ghost before = fresh@;
        fresh.push(branch);
        assert forall|j: int| 0 <= j < fresh@.len() implies #[trigger] fresh_child_of(
            start,
            i0,
            next[j],
            fresh@[j],
        ) by {
            if j < before.len() {
                assert(fresh@[j] == before[j]);
                assert(next[j] == prev[j]);
            } else {
                assert(next[j] == drawn);
            }
        }
        assert forall|j: int| 0 <= j < fresh@.len() implies #[trigger] buildable(fresh@[j]) by {
            if j < before.len() {
                assert(fresh@[j] == before[j]);
            }
        }
        k = k + 1;
    }
    let ghost drawn_all = kept_draws(start, base@, selected@);
    proof {
        assert(selected@.subrange(0, selected@.len() as int) =~= selected@);
        assert(sample_of(start, selected@));
        lemma_kept_draws_len(start, base@, selected@);
    }
    let ghost fresh_view = fresh@;
    let mut built = build_in_parallel(fresh);
    let ghost bv = built@;
    let count = built.len();
    let mut m: usize = 0;
    let ghost old_len = node.branches@.len();
    while m < count
        invariant
            m <= count,
            count == bv.len(),
            bv.len() == fresh_view.len(),
            fresh_view.len() == drawn_all.len(),
            built@ == bv.subrange(m as int, bv.len() as int),
            same_position(*node, start),
            node.meld_score == start.meld_score,
            node.possible_hands == start.possible_hands,
            old_len == start.branches@.len(),
            node.branches@.len() == old_len + m,
            node.branches@.subrange(0, old_len as int) == start.branches@,
            start.depth <= 1 ==> fresh_view.len() == sample_count(start),
            fresh_view.len() <= sample_count(start),
            sample_of(start, selected@),
            drawn_all == kept_draws(start, base@, selected@),
            base@ == without(start.full_hand.cards@, i0),
            start.full_hand.cards@[i0] == discard,
            forall|j: int| 0 <= j < fresh_view.len() ==> #[trigger] fresh_child_of(start, i0, drawn_all[j], fresh_view[j]),
            forall|i: int|
                0 <= i < bv.len() ==> {
                    &&& built_from(#[trigger] bv[i], fresh_view[i])
                    &&& tree_ok(bv[i])
                },
            forall|j: int| old_len <= j < node.branches@.len() ==> #[trigger] is_child(start, node.branches@[j]),
            forall|j: int| old_len <= j < node.branches@.len() ==> #[trigger] tree_ok(node.branches@[j]),
            forall|j: int| old_len <= j < node.branches@.len() ==> #[trigger] child_of(start, i0, drawn_all[j - old_len], node.branches@[j]),
        decreases count - m,
    {
        let ghost before = node.branches@;
        proof {
            lemma_child_kept(start, i0, drawn_all[m as int], fresh_view[m as int], bv[m as int]);
            assert(is_child(start, bv[m as int]));
        }
        let next = built.remove(0);
        assert(next == bv[m as int]);
        assert(built@ =~= bv.subrange(m + 1, bv.len() as int));
        node.branches.push(next);
        assert(node.branches@.subrange(0, old_len as int) =~= before.subrange(0, old_len as int));
        assert forall|j: int| old_len <= j < node.branches@.len() implies #[trigger] is_child(start, node.branches@[j]) by {
            if j < before.len() {
                assert(node.branches@[j] == before[j]);
            }
        }
        assert forall|j: int| old_len <= j < node.branches@.len() implies #[trigger] tree_ok(node.branches@[j]) by {
            if j < before.len() {
                assert(node.branches@[j] == before[j]);
            }
        }
        assert forall|j: int| old_len <= j < node.branches@.len() implies #[trigger] child_of(start, i0, drawn_all[j - old_len], node.branches@[j]) by {
            if j < before.len() {
                assert(node.branches@[j] == before[j]);
            }
        }
        m = m + 1;
    }
    assert(branches_follow(start, *node, base@, discard, drawn_all)) by {
        assert forall|j: int| old_len <= j < node.branches@.len() implies {
            &&& (#[trigger] node.branches@[j]).full_hand.cards@ == sort_by_rank(
                base@.push(drawn_all[j - old_len]),
            )
            &&& node.branches@[j].possible_cards@ == without_card(
                start.possible_cards@,
                drawn_all[j - old_len],
            )
            &&& node.branches@[j].discard_pile@ == start.discard_pile@.push(discard)
        } by {
            assert(child_of(start, i0, drawn_all[j - old_len], node.branches@[j]));
        }
    }
    Ok(())
}

/// A copy of the cards of a slice.
fn copy_slice(s: &[Card]) -> (r: Vec<Card>)
    ensures
        r@ == s@,
{
    let mut r: Vec<Card> = Vec::new();
    let mut i: usize = 0;
    while i < s.len()
        invariant
            i <= s@.len(),
            r@ == s@.subrange(0, i as int),
        decreases s@.len() - i,
    {
        r.push(s[i]);
        assert(r@ =~= s@.subrange(0, i + 1));
        i = i + 1;
    }
    assert(r@ =~= s@);
    r
}


/// In a built tree, the root and the nodes just below it are explored in
/// full: every sampled draw after every scoring discard is a branch, none is
/// pruned.
pub proof fn lemma_shallow_nodes_unpruned(n: Node)
    requires
        tree_ok(n),
        n.depth <= 1,
    ensures
        n.branches@.len() == expanded_discards(n, n.full_hand.cards@.len() as int) * sample_count(n),
{
}

// ---------------------------------------------------------------------------
// Walking the tree to a depth.
/// The probability mass given to the root: the unit of one whole.
pub const ROOT_MASS: u64 = 963761198400;

/// One million: probabilities are reported in parts per million, expected
/// improvements in millionths of a point.
pub const PPM: u64 = 1000000;

/// An equal share of `mass` for each of `k` parts (rounded down).
pub open spec fn share(mass: u64, k: nat) -> u64 {
    if k == 0 {
        0
    } else {
        (mass as int / k as int) as u64
    }
}

proof fn lemma_share(mass: u64, k: nat)
    requires
        k > 0,
    ensures
        share(mass, k) <= mass,
        k * share(mass, k) <= mass,
        share(mass, k) == mass as int / k as int,
{
    vstd::arithmetic::div_mod::lemma_fundamental_div_mod(mass as int, k as int);
    vstd::arithmetic::div_mod::lemma_div_is_ordered_by_denominator(mass as int, 1, k as int);
    assert(mass as int / 1 == mass as int);
    assert(mass as int % k as int >= 0) by {
        vstd::arithmetic::div_mod::lemma_mod_pos_bound(mass as int, k as int);
    }
}

/// The mass that part `i` of `k` receives when `mass` is split: an equal
/// share (rounded down), with what rounding leaves over added to the first
/// part, so that the parts add up to `mass`.
pub open spec fn part(mass: u64, k: nat, i: int) -> u64 {
    if i == 0 {
        (mass - (k - 1) * share(mass, k)) as u64
    } else {
        share(mass, k)
    }
}

/// What the first `j` of `k` parts of `mass` add up to.
pub open spec fn parts_sum(mass: u64, k: nat, j: int) -> int {
    if j <= 0 {
        0
    } else {
        mass - (k - j) * share(mass, k)
    }
}

proof fn lemma_part(mass: u64, k: nat, j: int)
    requires
        k > 0,
        0 <= j < k,
    ensures
        part(mass, k, j) <= mass,
        parts_sum(mass, k, j + 1) == parts_sum(mass, k, j) + part(mass, k, j),
        0 <= parts_sum(mass, k, j + 1) <= mass,
{
    lemma_share(mass, k);
    let e = share(mass, k);
    assert((k - 1) * e <= k * e) by (nonlinear_arith)
        requires
            e >= 0,
    ;
    assert((k - (j + 1)) * e <= k * e && (k - (j + 1)) * e >= 0) by (nonlinear_arith)
        requires
            e >= 0,
            0 <= j < k,
    ;
    assert((k - j) * e == (k - (j + 1)) * e + e) by (nonlinear_arith);
    assert(k * e == (k - 1) * e + e) by (nonlinear_arith);
}

/// The outcomes a node records itself, each as (final score, mass): a part
/// of `mass` for each possible hand, or all of it on the baseline when it
/// has none.
pub open spec fn own_leaves(n: Node, mass: u64) -> Seq<(u64, u64)> {
    let k = n.possible_hands@.len();
    if k > 0 {
        Seq::new(k, |i: int| (n.possible_hands@[i].meld_score, part(mass, k, i)))
    } else {
        seq![(n.baseline_score, mass)]
    }
}

/// The outcomes recorded when the tree below `n`, entered at depth `cur`
/// with `mass`, is walked to depth `target`: at the target depth, or at a
/// node without branches, the node's own outcomes; above it, a part of the
/// mass to each branch.
pub open spec fn leaves(n: Node, cur: int, target: int, mass: u64) -> Seq<(u64, u64)>
    decreases target - cur, 1nat, 0nat,
{
    if cur > target {
        Seq::empty()
    } else if cur == target || n.branches@.len() == 0 {
        own_leaves(n, mass)
    } else {
        branch_leaves(n, n.branches@.len() as int, cur, target, mass)
    }
}

/// The outcomes of the first `j` branches of `n`, each entered with its part
/// of `mass`.
pub open spec fn branch_leaves(n: Node, j: int, cur: int, target: int, mass: u64) -> Seq<
    (u64, u64),
>
    decreases target - cur, 0nat, j,
{
    if j <= 0 || cur >= target || j > n.branches@.len() {
        Seq::empty()
    } else {
        branch_leaves(n, j - 1, cur, target, mass) + leaves(
            n.branches@[j - 1],
            cur + 1,
            target,
            part(mass, n.branches@.len(), j - 1),
        )
    }
}

/// The total mass of a list of outcomes.
pub open spec fn mass_sum(l: Seq<(u64, u64)>) -> nat
    decreases l.len(),
{
    if l.len() == 0 {
        0
    } else {
        mass_sum(l.drop_last()) + l.last().1 as nat
    }
}

proof fn lemma_mass_sum_concat(a: Seq<(u64, u64)>, b: Seq<(u64, u64)>)
    ensures
        mass_sum(a + b) == mass_sum(a) + mass_sum(b),
    decreases b.len(),
{
    if b.len() > 0 {
        lemma_mass_sum_concat(a, b.drop_last());
        assert((a + b).drop_last() =~= a + b.drop_last());
    } else {
        assert(a + b =~= a);
    }
}

proof fn lemma_own_leaves_mass(n: Node, mass: u64, k: int)
    requires
        n.possible_hands@.len() > 0,
        0 <= k <= n.possible_hands@.len(),
    ensures
        mass_sum(own_leaves(n, mass).subrange(0, k)) == parts_sum(mass, n.possible_hands@.len(), k),
    decreases k,
{
    if k > 0 {
        lemma_own_leaves_mass(n, mass, k - 1);
        lemma_part(mass, n.possible_hands@.len(), k - 1);
        assert(own_leaves(n, mass).subrange(0, k).drop_last() =~= own_leaves(n, mass).subrange(0, k - 1));
    } else {
        assert(own_leaves(n, mass).subrange(0, k) =~= Seq::<(u64, u64)>::empty());
    }
}

/// Walking a tree neither loses nor creates mass: what is recorded below a
/// node adds up exactly to the mass it was entered with, whenever it is
/// entered at or above the target depth.
pub proof fn lemma_leaves_keep_mass(n: Node, cur: int, target: int, mass: u64)
    ensures
        cur <= target ==> mass_sum(leaves(n, cur, target, mass)) == mass,
        cur > target ==> mass_sum(leaves(n, cur, target, mass)) == 0,
    decreases target - cur, 1nat, 0nat,
{
    if cur > target {
        assert(leaves(n, cur, target, mass) == Seq::<(u64, u64)>::empty());
        assert(mass_sum(Seq::<(u64, u64)>::empty()) == 0);
    } else if cur == target || n.branches@.len() == 0 {
        assert(leaves(n, cur, target, mass) == own_leaves(n, mass));
        let k = n.possible_hands@.len();
        if k > 0 {
            lemma_own_leaves_mass(n, mass, k as int);
            assert(own_leaves(n, mass).subrange(0, k as int) =~= own_leaves(n, mass));
        } else {
            assert(own_leaves(n, mass).drop_last() =~= Seq::<(u64, u64)>::empty());
            assert(mass_sum(Seq::<(u64, u64)>::empty()) == 0);
            assert(mass_sum(own_leaves(n, mass)) == mass);
        }
    } else {
        let b = n.branches@.len();
        assert(leaves(n, cur, target, mass) == branch_leaves(n, b as int, cur, target, mass));
        lemma_branch_leaves_mass(n, b as int, cur, target, mass);
    }
}

proof fn lemma_branch_leaves_mass(n: Node, j: int, cur: int, target: int, mass: u64)
    requires
        cur < target,
        0 <= j <= n.branches@.len(),
    ensures
        mass_sum(branch_leaves(n, j, cur, target, mass)) == parts_sum(mass, n.branches@.len(), j),
    decreases target - cur, 0nat, j,
{
    if j > 0 {
        let b = n.branches@.len();
        lemma_branch_leaves_mass(n, j - 1, cur, target, mass);
        lemma_part(mass, b, j - 1);
        lemma_leaves_keep_mass(n.branches@[j - 1], cur + 1, target, part(mass, b, j - 1));
        lemma_mass_sum_concat(
            branch_leaves(n, j - 1, cur, target, mass),
            leaves(n.branches@[j - 1], cur + 1, target, part(mass, b, j - 1)),
        );
    } else {
        assert(mass_sum(Seq::<(u64, u64)>::empty()) == 0);
    }
}

/// The part of `mass` that part `i` of `k` receives, computed.
fn part_of(mass: u64, k: usize, i: usize) -> (r: u64)
    requires
        k > 0,
        i < k,
    ensures
        r == part(mass, k as nat, i as int),
{
    let each = mass / (k as u64);
    proof {
        lemma_share(mass, k as nat);
        lemma_part(mass, k as nat, 0);
        assert((k - 1) * each <= k * each) by (nonlinear_arith)
            requires
                each >= 0,
        ;
    }
    if i == 0 {
        mass - ((k as u64) - 1) * each
    } else {
        each
    }
}

impl Node {
    /// Records the node's own outcomes (see `own_leaves`).
    fn record_own_outcomes(&self, mass: u64, outcomes: &mut Vec<(u64, u64)>, total_prob: &mut u64)
        requires
            *old(total_prob) + mass <= u64::MAX,
        ensures
            final(outcomes)@ == old(outcomes)@ + own_leaves(*self, mass),
            *final(total_prob) == *old(total_prob) + mass_sum(own_leaves(*self, mass)),
    {
        let k = self.possible_hands.len();
        let ghost start = outcomes@;
        let ghost total0 = *total_prob;
        if k > 0 {
            let mut i: usize = 0;
            while i < k
                invariant
                    k == self.possible_hands@.len(),
                    k > 0,
                    total0 + mass <= u64::MAX,
                    i <= k,
                    outcomes@ == start + own_leaves(*self, mass).subrange(0, i as int),
                    *total_prob == total0 + parts_sum(mass, k as nat, i as int),
                decreases k - i,
            {
                proof {
                    lemma_part(mass, k as nat, i as int);
                }
                let m = part_of(mass, k, i);
                outcomes.push((self.possible_hands[i].meld_score, m));
                *total_prob = *total_prob + m;
                assert(outcomes@ =~= start + own_leaves(*self, mass).subrange(0, i + 1));
                i = i + 1;
            }
            proof {
                lemma_own_leaves_mass(*self, mass, k as int);
                assert(own_leaves(*self, mass).subrange(0, k as int) =~= own_leaves(*self, mass));
            }
        } else {
            outcomes.push((self.baseline_score, mass));
            *total_prob = *total_prob + mass;
            proof {
                assert(own_leaves(*self, mass).drop_last() =~= Seq::<(u64, u64)>::empty());
                assert(mass_sum(Seq::<(u64, u64)>::empty()) == 0);
            }
        }
    }

    /// Records, as (final score, mass) pairs, the outcomes reached from this
    /// node when the tree is walked from `current_depth` to `target_depth`
    /// with `current_probability` as this node's mass. The whole mass is
    /// recorded: none is lost to rounding.
    fn collect_weighted_paths(
        &self,
        current_depth: usize,
        target_depth: usize,
        current_probability: u64,
        outcomes: &mut Vec<(u64, u64)>,
        total_prob: &mut u64,
    )
        requires
            *old(total_prob) + current_probability <= u64::MAX,
        ensures
            final(outcomes)@ == old(outcomes)@ + leaves(
                *self,
                current_depth as int,
                target_depth as int,
                current_probability,
            ),
            *final(total_prob) == *old(total_prob) + mass_sum(
                leaves(*self, current_depth as int, target_depth as int, current_probability),
            ),
            current_depth <= target_depth ==> *final(total_prob) == *old(total_prob)
                + current_probability,
            current_depth <= target_depth ==> final(outcomes)@.len() > old(outcomes)@.len(),
        decreases target_depth - current_depth,
    {
        let ghost cur = current_depth as int;
        let ghost target = target_depth as int;
        proof {
            lemma_leaves_keep_mass(*self, cur, target, current_probability);
            lemma_leaves_nonempty(*self, cur, target, current_probability);
        }
        if current_depth > target_depth {
            assert(outcomes@ =~= old(outcomes)@ + leaves(*self, cur, target, current_probability));
            assert(mass_sum(Seq::<(u64, u64)>::empty()) == 0);
            return;
        }
        if current_depth == target_depth || self.branches.len() == 0 {
            self.record_own_outcomes(current_probability, outcomes, total_prob);
            return;
        }
        let b = self.branches.len();
        let ghost start = outcomes@;
        let ghost total0 = *total_prob;
        let mut j: usize = 0;
        while j < b
            invariant
                b == self.branches@.len(),
                b > 0,
                current_depth < target_depth,
                cur == current_depth,
                target == target_depth,
                total0 + current_probability <= u64::MAX,
                j <= b,
                outcomes@ == start + branch_leaves(*self, j as int, cur, target, current_probability),
                *total_prob == total0 + mass_sum(
                    branch_leaves(*self, j as int, cur, target, current_probability),
                ),
            decreases b - j,
        {
            let m = part_of(current_probability, b, j);
            proof {
                lemma_branch_leaves_mass(*self, j as int, cur, target, current_probability);
                lemma_part(current_probability, b as nat, j as int);
                lemma_mass_sum_concat(
                    branch_leaves(*self, j as int, cur, target, current_probability),
                    leaves(self.branches@[j as int], cur + 1, target, m),
                );
                lemma_leaves_keep_mass(self.branches@[j as int], cur + 1, target, m);
            }
            self.branches[j].collect_weighted_paths(
                current_depth + 1,
                target_depth,
                m,
                outcomes,
                total_prob,
            );
            proof {
                assert(branch_leaves(*self, j + 1, cur, target, current_probability)
                    == branch_leaves(*self, j as int, cur, target, current_probability) + leaves(
                    self.branches@[j as int],
                    cur + 1,
                    target,
                    m,
                ));
                assert(outcomes@ =~= start + branch_leaves(
                    *self,
                    j + 1,
                    cur,
                    target,
                    current_probability,
                ));
            }
            j = j + 1;
        }
        assert(leaves(*self, cur, target, current_probability) == branch_leaves(
            *self,
            b as int,
            cur,
            target,
            current_probability,
        ));
    }
}

/// Walking from at or above the target depth records at least one outcome.
proof fn lemma_leaves_nonempty(n: Node, cur: int, target: int, mass: u64)
    ensures
        cur <= target ==> leaves(n, cur, target, mass).len() > 0,
    decreases target - cur, 1nat, 0nat,
{
    if cur <= target && cur < target && n.branches@.len() > 0 {
        lemma_branch_leaves_nonempty(n, n.branches@.len() as int, cur, target, mass);
    }
}

proof fn lemma_branch_leaves_nonempty(n: Node, j: int, cur: int, target: int, mass: u64)
    requires
        cur < target,
        0 < j <= n.branches@.len(),
    ensures
        branch_leaves(n, j, cur, target, mass).len() > 0,
    decreases target - cur, 0nat, j,
{
    lemma_leaves_nonempty(n.branches@[j - 1], cur + 1, target, part(mass, n.branches@.len(), j - 1));
}

// ---------------------------------------------------------------------------
// Sums over recorded outcomes.
/// The mass of the outcomes with final score `s`.
pub open spec fn mass_at(l: Seq<(u64, u64)>, s: u64) -> nat
    decreases l.len(),
{
    if l.len() == 0 {
        0
    } else {
        mass_at(l.drop_last(), s) + if l.last().0 == s {
            l.last().1 as nat
        } else {
            0nat
        }
    }
}

/// How many outcomes have final score `s`.
pub open spec fn paths_at(l: Seq<(u64, u64)>, s: u64) -> nat
    decreases l.len(),
{
    if l.len() == 0 {
        0
    } else {
        paths_at(l.drop_last(), s) + if l.last().0 == s {
            1nat
        } else {
            0nat
        }
    }
}

/// The mass of the outcomes above the baseline `b`.
pub open spec fn mass_above(l: Seq<(u64, u64)>, b: u64) -> nat
    decreases l.len(),
{
    if l.len() == 0 {
        0
    } else {
        mass_above(l.drop_last(), b) + if l.last().0 > b {
            l.last().1 as nat
        } else {
            0nat
        }
    }
}

/// The mass of the outcomes below the baseline `b`.
pub open spec fn mass_below(l: Seq<(u64, u64)>, b: u64) -> nat
    decreases l.len(),
{
    if l.len() == 0 {
        0
    } else {
        mass_below(l.drop_last(), b) + if l.last().0 < b {
            l.last().1 as nat
        } else {
            0nat
        }
    }
}

/// The mass-weighted gain of the outcomes above the baseline `b`.
pub open spec fn gain(l: Seq<(u64, u64)>, b: u64) -> nat
    decreases l.len(),
{
    if l.len() == 0 {
        0
    } else {
        gain(l.drop_last(), b) + if l.last().0 > b {
            ((l.last().0 - b) * l.last().1) as nat
        } else {
            0nat
        }
    }
}

/// The mass-weighted loss of the outcomes below the baseline `b`.
pub open spec fn loss(l: Seq<(u64, u64)>, b: u64) -> nat
    decreases l.len(),
{
    if l.len() == 0 {
        0
    } else {
        loss(l.drop_last(), b) + if l.last().0 < b {
            ((b - l.last().0) * l.last().1) as nat
        } else {
            0nat
        }
    }
}

/// `part` of `total`, in parts per million (rounded down).
pub open spec fn ppm_of(part: nat, total: nat) -> nat {
    if total == 0 {
        0
    } else {
        part * PPM as nat / total
    }
}

/// The expected improvement over `b`, in millionths of a point (rounded
/// toward zero).
pub open spec fn expected_ppm(l: Seq<(u64, u64)>, b: u64, total: nat) -> int {
    if total == 0 {
        0
    } else if gain(l, b) >= loss(l, b) {
        (gain(l, b) - loss(l, b)) * PPM as int / total as int
    } else {
        -((loss(l, b) - gain(l, b)) * PPM as int / total as int)
    }
}

/// The total mass of a list of grouped outcomes.
pub open spec fn outcome_mass_sum(g: Seq<ImprovementOutcome>) -> nat
    decreases g.len(),
{
    if g.len() == 0 {
        0
    } else {
        outcome_mass_sum(g.drop_last()) + g.last().mass as nat
    }
}

/// The grouped outcomes of `l` against baseline `b`: one entry per final
/// score, highest first, each with the mass, share and number of outcomes
/// that end on it.
pub open spec fn groups_ok(g: Seq<ImprovementOutcome>, l: Seq<(u64, u64)>, b: u64, total: nat) -> bool {
    &&& forall|i: int, j: int| 0 <= i < j < g.len() ==> #[trigger] g[i].final_score > #[trigger] g[j].final_score
    &&& forall|i: int| 0 <= i < g.len() ==> #[trigger] outcome_ok(g[i], l, b, total)
    &&& forall|k: int| 0 <= k < l.len() ==> #[trigger] has_group(g, l[k].0)
}

pub open spec fn outcome_ok(o: ImprovementOutcome, l: Seq<(u64, u64)>, b: u64, total: nat) -> bool {
    &&& o.mass == mass_at(l, o.final_score)
    &&& o.path_count == paths_at(l, o.final_score)
    &&& o.path_count > 0
    &&& o.improvement == o.final_score - b
    &&& o.probability == ppm_of(o.mass as nat, total)
}

pub open spec fn has_group(g: Seq<ImprovementOutcome>, s: u64) -> bool {
    exists|i: int| 0 <= i < g.len() && #[trigger] g[i].final_score == s
}

proof fn lemma_outcome_sum_update(g: Seq<ImprovementOutcome>, p: int, x: ImprovementOutcome)
    requires
        0 <= p < g.len(),
    ensures
        outcome_mass_sum(g.update(p, x)) == outcome_mass_sum(g) - g[p].mass + x.mass,
    decreases g.len(),
{
    if p < g.len() - 1 {
        lemma_outcome_sum_update(g.drop_last(), p, x);
        assert(g.update(p, x).drop_last() =~= g.drop_last().update(p, x));
    } else {
        assert(g.update(p, x).drop_last() =~= g.drop_last());
    }
}

proof fn lemma_outcome_sum_insert(g: Seq<ImprovementOutcome>, p: int, x: ImprovementOutcome)
    requires
        0 <= p <= g.len(),
    ensures
        outcome_mass_sum(g.insert(p, x)) == outcome_mass_sum(g) + x.mass,
    decreases g.len(),
{
    if p < g.len() {
        lemma_outcome_sum_insert(g.drop_last(), p, x);
        assert(g.insert(p, x).drop_last() =~= g.drop_last().insert(p, x));
    } else {
        assert(g.insert(p, x).drop_last() =~= g);
    }
}

proof fn lemma_mass_at_bounded(l: Seq<(u64, u64)>, s: u64)
    ensures
        mass_at(l, s) <= mass_sum(l),
        paths_at(l, s) <= l.len(),
    decreases l.len(),
{
    if l.len() > 0 {
        lemma_mass_at_bounded(l.drop_last(), s);
    }
}

proof fn lemma_sums_bounded(l: Seq<(u64, u64)>, b: u64)
    ensures
        mass_above(l, b) + mass_below(l, b) + mass_at(l, b) == mass_sum(l),
        gain(l, b) <= u64::MAX * mass_sum(l),
        loss(l, b) <= u64::MAX * mass_sum(l),
    decreases l.len(),
{
    if l.len() > 0 {
        lemma_sums_bounded(l.drop_last(), b);
        let x = l.last();
        if x.0 > b {
            assert((x.0 - b) * x.1 <= u64::MAX * x.1) by (nonlinear_arith)
                requires
                    x.0 - b <= u64::MAX,
            ;
        }
        if x.0 < b {
            assert((b - x.0) * x.1 <= u64::MAX * x.1) by (nonlinear_arith)
                requires
                    b - x.0 <= u64::MAX,
            ;
        }
        assert(u64::MAX * mass_sum(l) == u64::MAX * mass_sum(l.drop_last()) + u64::MAX * x.1)
            by (nonlinear_arith)
            requires
                mass_sum(l) == mass_sum(l.drop_last()) + x.1,
        ;
    }
}

/// `part * PPM / total` for `part <= total`.
fn scaled_ppm(part: u64, total: u64) -> (r: u64)
    requires
        part <= total,
        total > 0,
    ensures
        r == ppm_of(part as nat, total as nat),
        r <= PPM,
{
    assert((part as u128) * (PPM as u128) <= u64::MAX * PPM) by (nonlinear_arith)
        requires
            part <= u64::MAX,
    ;
    let x: u128 = (part as u128) * (PPM as u128);
    assert(x == part * PPM) by (nonlinear_arith)
        requires
            x == (part as u128) * (PPM as u128),
    ;
    assert(part * PPM <= total * PPM) by (nonlinear_arith)
        requires
            part <= total,
    ;
    let q = x / (total as u128);
    proof {
        vstd::arithmetic::div_mod::lemma_div_is_ordered(x as int, (total * PPM) as int, total as int);
        vstd::arithmetic::div_mod::lemma_div_by_multiple(PPM as int, total as int);
        assert((total * PPM) as int == PPM * total) by (nonlinear_arith);
    }
    q as u64
}

/// Score `s` lies on `side` of the baseline `b`: above (1), below (-1) or on
/// it (0).
pub open spec fn on_side(s: u64, b: u64, side: int) -> bool {
    if side > 0 {
        s > b
    } else if side < 0 {
        s < b
    } else {
        s == b
    }
}

/// The total mass of the grouped outcomes whose final score lies on `side`
/// of the baseline `b`.
pub open spec fn outcome_mass_on(g: Seq<ImprovementOutcome>, b: u64, side: int) -> nat
    decreases g.len(),
{
    if g.len() == 0 {
        0
    } else {
        outcome_mass_on(g.drop_last(), b, side) + if on_side(g.last().final_score, b, side) {
            g.last().mass as nat
        } else {
            0nat
        }
    }
}

proof fn lemma_outcome_side_update(g: Seq<ImprovementOutcome>, p: int, x: ImprovementOutcome, b: u64, side: int)
    requires
        0 <= p < g.len(),
    ensures
        outcome_mass_on(g.update(p, x), b, side) + (if on_side(g[p].final_score, b, side) {
            g[p].mass as int
        } else {
            0
        }) == outcome_mass_on(g, b, side) + (if on_side(x.final_score, b, side) {
            x.mass as int
        } else {
            0
        }),
    decreases g.len(),
{
    if p < g.len() - 1 {
        lemma_outcome_side_update(g.drop_last(), p, x, b, side);
        assert(g.update(p, x).drop_last() =~= g.drop_last().update(p, x));
    } else {
        assert(g.update(p, x).drop_last() =~= g.drop_last());
    }
}

proof fn lemma_outcome_side_insert(g: Seq<ImprovementOutcome>, p: int, x: ImprovementOutcome, b: u64, side: int)
    requires
        0 <= p <= g.len(),
    ensures
        outcome_mass_on(g.insert(p, x), b, side) == outcome_mass_on(g, b, side) + (if on_side(
            x.final_score,
            b,
            side,
        ) {
            x.mass as int
        } else {
            0
        }),
    decreases g.len(),
{
    if p < g.len() {
        lemma_outcome_side_insert(g.drop_last(), p, x, b, side);
        assert(g.insert(p, x).drop_last() =~= g.drop_last().insert(p, x));
    } else {
        assert(g.insert(p, x).drop_last() =~= g);
    }
}

/// Adds the outcome (`s`, `m`) to the grouped outcomes, keeping them ordered
/// by final score, highest first.
fn add_to_groups(
    groups: &mut Vec<ImprovementOutcome>,
    s: u64,
    m: u64,
    b: u64,
    total: u64,
    Ghost(l): Ghost<Seq<(u64, u64)>>,
    Ghost(k): Ghost<int>,
)
    requires
        0 <= k < l.len(),
        l.len() <= usize::MAX,
        l[k] == (s, m),
        total > 0,
        mass_sum(l) <= total,
        groups_ok(old(groups)@, l.subrange(0, k), b, total as nat),
        outcome_mass_sum(old(groups)@) == mass_sum(l.subrange(0, k)),
    ensures
        groups_ok(final(groups)@, l.subrange(0, k + 1), b, total as nat),
        outcome_mass_sum(final(groups)@) == mass_sum(l.subrange(0, k + 1)),
        forall|side: int| #[trigger] outcome_mass_on(final(groups)@, b, side) == outcome_mass_on(
            old(groups)@,
            b,
            side,
        ) + if on_side(s, b, side) {
            m as int
        } else {
            0
        },
{
    let ghost pre = l.subrange(0, k);
    let ghost post = l.subrange(0, k + 1);
    assert(post.drop_last() =~= pre);
    proof {
        lemma_mass_at_bounded(post, s);
        lemma_mass_sum_prefix(l, k + 1);
    }
    let mut p: usize = 0;
    while p < groups.len() && groups[p].final_score > s
        invariant
            p <= groups@.len(),
            forall|i: int| 0 <= i < p ==> #[trigger] groups@[i].final_score > s,
        decreases groups@.len() - p,
    {
        p = p + 1;
    }
    let ghost g = groups@;
    if p < groups.len() && groups[p].final_score == s {
        let o = groups[p];
        assert(outcome_ok(o, pre, b, total as nat));
        let mass = o.mass + m;
        let updated = ImprovementOutcome {
            final_score: s,
            improvement: o.improvement,
            probability: scaled_ppm(mass, total),
            mass,
            path_count: o.path_count + 1,
        };
        groups.set(p, updated);
        proof {
            lemma_outcome_sum_update(g, p as int, updated);
            assert forall|side: int| #[trigger] outcome_mass_on(groups@, b, side) == outcome_mass_on(
                g,
                b,
                side,
            ) + if on_side(s, b, side) {
                m as int
            } else {
                0
            } by {
                lemma_outcome_side_update(g, p as int, updated, b, side);
            }
            assert forall|i: int| 0 <= i < groups@.len() implies #[trigger] outcome_ok(groups@[i], post, b, total as nat) by {
                if i != p {
                    assert(outcome_ok(g[i], pre, b, total as nat));
                }
            }
            assert forall|q: int| 0 <= q < post.len() implies #[trigger] has_group(groups@, post[q].0) by {
                if q < k {
                    assert(has_group(g, pre[q].0));
                    let i = choose|i: int| 0 <= i < g.len() && #[trigger] g[i].final_score == pre[q].0;
                    assert(groups@[i].final_score == post[q].0);
                } else {
                    assert(groups@[p as int].final_score == post[q].0);
                }
            }
        }
    } else {
        let fresh = ImprovementOutcome {
            final_score: s,
            improvement: s as i128 - b as i128,
            probability: scaled_ppm(m, total),
            mass: m,
            path_count: 1,
        };
        proof {
            assert forall|i: int| 0 <= i < g.len() implies #[trigger] g[i].final_score != s by {
                if i >= p {
                    if i > p {
                        assert(g[p as int].final_score > g[i].final_score);
                    }
                }
            }
            lemma_absent_score(pre, s, g, b, total as nat);
        }
        groups.insert(p, fresh);
        proof {
            lemma_outcome_sum_insert(g, p as int, fresh);
            assert forall|side: int| #[trigger] outcome_mass_on(groups@, b, side) == outcome_mass_on(
                g,
                b,
                side,
            ) + if on_side(s, b, side) {
                m as int
            } else {
                0
            } by {
                lemma_outcome_side_insert(g, p as int, fresh, b, side);
            }
            assert forall|i: int| 0 <= i < groups@.len() implies #[trigger] outcome_ok(groups@[i], post, b, total as nat) by {
                if i < p {
                    assert(outcome_ok(g[i], pre, b, total as nat));
                    assert(groups@[i] == g[i]);
                } else if i > p {
                    assert(outcome_ok(g[i - 1], pre, b, total as nat));
                    assert(groups@[i] == g[i - 1]);
                }
            }
            assert forall|q: int| 0 <= q < post.len() implies #[trigger] has_group(groups@, post[q].0) by {
                if q < k {
                    assert(has_group(g, pre[q].0));
                    let i = choose|i: int| 0 <= i < g.len() && #[trigger] g[i].final_score == pre[q].0;
                    if i < p {
                        assert(groups@[i].final_score == post[q].0);
                    } else {
                        assert(groups@[i + 1].final_score == post[q].0);
                    }
                } else {
                    assert(groups@[p as int].final_score == post[q].0);
                }
            }
            assert forall|i: int, j: int| 0 <= i < j < groups@.len() implies #[trigger] groups@[i].final_score > #[trigger] groups@[j].final_score by {
                if j < p {
                } else if j == p {
                } else if i < p {
                    assert(groups@[j] == g[j - 1]);
                    if j - 1 > p {
                        assert(g[p as int].final_score > g[j - 1].final_score);
                    }
                } else if i == p {
                    assert(groups@[j] == g[j - 1]);
                    if j - 1 > p {
                        assert(g[p as int].final_score > g[j - 1].final_score);
                    }
                } else {
                    assert(groups@[j] == g[j - 1]);
                    assert(groups@[i] == g[i - 1]);
                }
            }
        }
    }
}

proof fn lemma_mass_sum_prefix(l: Seq<(u64, u64)>, k: int)
    requires
        0 <= k <= l.len(),
    ensures
        mass_sum(l.subrange(0, k)) <= mass_sum(l),
    decreases l.len() - k,
{
    if k < l.len() {
        lemma_mass_sum_prefix(l, k + 1);
        assert(l.subrange(0, k + 1).drop_last() =~= l.subrange(0, k));
    } else {
        assert(l.subrange(0, k) =~= l);
    }
}

/// A score that no group has is not the score of any recorded outcome.
proof fn lemma_absent_score(l: Seq<(u64, u64)>, s: u64, g: Seq<ImprovementOutcome>, b: u64, total: nat)
    requires
        forall|k: int| 0 <= k < l.len() ==> #[trigger] has_group(g, l[k].0),
        forall|i: int| 0 <= i < g.len() ==> #[trigger] g[i].final_score != s,
    ensures
        mass_at(l, s) == 0,
        paths_at(l, s) == 0,
    decreases l.len(),
{
    if l.len() > 0 {
        assert forall|k: int| 0 <= k < l.drop_last().len() implies #[trigger] has_group(g, l.drop_last()[k].0) by {
            assert(has_group(g, l[k].0));
        }
        lemma_absent_score(l.drop_last(), s, g, b, total);
        assert(has_group(g, l[l.len() - 1].0));
    }
}


/// `r` summarises the outcomes `l` of round `t` against baseline `b`.
pub open spec fn round_ok(r: RoundProbabilities, l: Seq<(u64, u64)>, b: u64, t: int) -> bool {
    let total = mass_sum(l);
    &&& r.round == t
    &&& r.baseline_score == b
    &&& if l.len() == 0 || total == 0 {
        &&& r.total_simulations == 0
        &&& r.improvements@.len() == 0
        &&& r.total_mass == 0
        &&& r.probability_of_improvement == 0
        &&& r.expected_improvement == 0
        &&& r.risk_of_degradation == 0
    } else {
        &&& r.total_simulations == l.len()
        &&& r.total_mass == total
        &&& groups_ok(r.improvements@, l, b, total)
        &&& outcome_mass_sum(r.improvements@) == total
        &&& outcome_mass_on(r.improvements@, b, 1) == mass_above(l, b)
        &&& outcome_mass_on(r.improvements@, b, -1) == mass_below(l, b)
        &&& outcome_mass_on(r.improvements@, b, 0) == mass_at(l, b)
        &&& r.probability_of_improvement == ppm_of(mass_above(l, b), total)
        &&& r.risk_of_degradation == ppm_of(mass_below(l, b), total)
        &&& r.expected_improvement == expected_ppm(l, b, total)
    }
}

/// The outcomes of the tree below `n` walked to depth `t` from the root mass.
pub open spec fn round_leaves(n: Node, t: int) -> Seq<(u64, u64)> {
    leaves(n, 0, t, ROOT_MASS)
}

proof fn lemma_prefix_step(l: Seq<(u64, u64)>, i: int)
    requires
        0 <= i < l.len(),
    ensures
        l.subrange(0, i + 1).drop_last() == l.subrange(0, i),
        l.subrange(0, i + 1).last() == l[i],
{
    assert(l.subrange(0, i + 1).drop_last() =~= l.subrange(0, i));
}

impl Node {
    /// Walks the tree to `target_depth` and summarises the outcomes against
    /// `baseline`.
    pub(crate) fn analyze_round_with_paths(&self, target_depth: usize, baseline: u64) -> (r: RoundProbabilities)
        ensures
            round_ok(r, round_leaves(*self, target_depth as int), baseline, target_depth as int),
            round_bounded(r),
    {
        let mut outcomes: Vec<(u64, u64)> = Vec::new();
        let mut total: u64 = 0;
        self.collect_weighted_paths(0, target_depth, ROOT_MASS, &mut outcomes, &mut total);
        let ghost l = round_leaves(*self, target_depth as int);
        assert(outcomes@ =~= l);
        proof {
            assert(mass_sum(Seq::<(u64, u64)>::empty()) == 0);
        }
        if outcomes.len() == 0 || total == 0 {
            return RoundProbabilities {
                round: target_depth,
                total_simulations: 0,
                baseline_score: baseline,
                improvements: Vec::new(),
                total_mass: 0,
                probability_of_improvement: 0,
                expected_improvement: 0,
                risk_of_degradation: 0,
            };
        }
        let mut groups: Vec<ImprovementOutcome> = Vec::new();
        let mut above: u64 = 0;
        let mut below: u64 = 0;
        let mut up: u128 = 0;
        let mut down: u128 = 0;
        let mut i: usize = 0;
        proof {
            assert(l.subrange(0, 0) =~= Seq::<(u64, u64)>::empty());
        }
        while i < outcomes.len()
            invariant
                outcomes@ == l,
                total == mass_sum(l),
                total > 0,
                i <= l.len(),
                groups_ok(groups@, l.subrange(0, i as int), baseline, total as nat),
                outcome_mass_sum(groups@) == mass_sum(l.subrange(0, i as int)),
                above == mass_above(l.subrange(0, i as int), baseline),
                outcome_mass_on(groups@, baseline, 1) == mass_above(l.subrange(0, i as int), baseline),
                outcome_mass_on(groups@, baseline, -1) == mass_below(l.subrange(0, i as int), baseline),
                outcome_mass_on(groups@, baseline, 0) == mass_at(l.subrange(0, i as int), baseline),
                below == mass_below(l.subrange(0, i as int), baseline),
                up == gain(l.subrange(0, i as int), baseline),
                down == loss(l.subrange(0, i as int), baseline),
            decreases l.len() - i,
        {
            let (sc, m) = outcomes[i];
            proof {
                lemma_prefix_step(l, i as int);
                lemma_mass_sum_prefix(l, i + 1);
                lemma_sums_bounded(l.subrange(0, i + 1), baseline);
                lemma_sums_bounded(l.subrange(0, i as int), baseline);
                assert(u64::MAX * mass_sum(l.subrange(0, i + 1)) <= u64::MAX * total) by (nonlinear_arith)
                    requires
                        mass_sum(l.subrange(0, i + 1)) <= total,
                ;
            }
            add_to_groups(&mut groups, sc, m, baseline, total, Ghost(l), Ghost(i as int));
            if sc > baseline {
                above = above + m;
                up = up + ((sc - baseline) as u128) * (m as u128);
            } else if sc < baseline {
                below = below + m;
                down = down + ((baseline - sc) as u128) * (m as u128);
            }
            i = i + 1;
        }
        assert(l.subrange(0, l.len() as int) =~= l);
        proof {
            lemma_sums_bounded(l, baseline);
        }
        let probability_of_improvement = scaled_ppm(above, total);
        let risk_of_degradation = scaled_ppm(below, total);
        let expected_improvement = signed_ppm(up, down, total);
        RoundProbabilities {
            round: target_depth,
            total_simulations: outcomes.len(),
            baseline_score: baseline,
            improvements: groups,
            total_mass: total,
            probability_of_improvement,
            expected_improvement,
            risk_of_degradation,
        }
    }
}

/// A bound on the size of an expected improvement, in millionths of a point.
pub const EXPECT_LIMIT: i128 = 77371252455336267181195264;

/// The figures of a round are in range: probabilities at most one whole and
/// the expected improvement within `EXPECT_LIMIT`.
pub open spec fn round_bounded(r: RoundProbabilities) -> bool {
    &&& r.probability_of_improvement <= PPM
    &&& r.risk_of_degradation <= PPM
    &&& -EXPECT_LIMIT <= r.expected_improvement <= EXPECT_LIMIT
}

/// `(up - down) * PPM / total`, rounded toward zero.
fn signed_ppm(up: u128, down: u128, total: u64) -> (r: i128)
    requires
        total > 0,
        up <= u64::MAX * total,
        down <= u64::MAX * total,
    ensures
        -EXPECT_LIMIT <= r <= EXPECT_LIMIT,
        r == if up >= down {
            (up - down) * PPM as int / total as int
        } else {
            -((down - up) * PPM as int / total as int)
        },
{
    let (diff, negative) = if up >= down {
        (up - down, false)
    } else {
        (down - up, true)
    };
    let q1 = diff / (total as u128);
    proof {
        vstd::arithmetic::div_mod::lemma_div_is_ordered(diff as int, (u64::MAX * total) as int, total as int);
        vstd::arithmetic::div_mod::lemma_div_by_multiple(u64::MAX as int, total as int);
        vstd::arithmetic::div_mod::lemma_fundamental_div_mod(diff as int, total as int);
        vstd::arithmetic::div_mod::lemma_fundamental_div_mod((diff * PPM) as int, total as int);
        assert((u64::MAX * total) as int == u64::MAX * total) by (nonlinear_arith);
    }
    assert(q1 <= u64::MAX);
    let rem = diff % (total as u128);
    // diff * PPM / total == q1 * PPM + rem * PPM / total
    assert(rem < total);
    assert((rem as u128) * (PPM as u128) < (total as u128) * (PPM as u128)) by (nonlinear_arith)
        requires
            rem < total,
    ;
    let q2 = (rem * (PPM as u128)) / (total as u128);
    proof {
        assert(diff * PPM == (q1 * PPM) * total + rem * PPM) by (nonlinear_arith)
            requires
                diff == total * q1 + rem,
        ;
        vstd::arithmetic::div_mod::lemma_hoist_over_denominator(rem * PPM as int, q1 * PPM as int, total as nat);
    }
    assert(q1 * PPM <= u64::MAX * PPM) by (nonlinear_arith)
        requires
            q1 <= u64::MAX,
    ;
    assert(q2 <= PPM) by {
        vstd::arithmetic::div_mod::lemma_div_is_ordered((rem * PPM) as int, (total * PPM) as int, total as int);
        vstd::arithmetic::div_mod::lemma_div_by_multiple(PPM as int, total as int);
        assert((total * PPM) as int == PPM * total) by (nonlinear_arith);
    }
    let mag = (q1 * (PPM as u128) + q2) as i128;
    if negative {
        -mag
    } else {
        mag
    }
}


/// Whenever a round recorded at least one outcome, the masses of its final
/// scores add up exactly to the round's whole mass: the probabilities of the
/// recorded outcomes sum to one.
pub proof fn lemma_round_mass_is_whole(r: RoundProbabilities, l: Seq<(u64, u64)>, b: u64, t: int)
    requires
        round_ok(r, l, b, t),
        r.total_simulations > 0,
    ensures
        r.total_mass > 0,
        outcome_mass_sum(r.improvements@) == r.total_mass,
{
}

/// A round summarised from a tree records the whole root mass: at least one
/// outcome is recorded, nothing is lost to rounding, and the masses of its
/// final scores add up to exactly one whole.
pub proof fn lemma_tree_round_is_whole(n: Node, r: RoundProbabilities, b: u64, t: int)
    requires
        t >= 0,
        round_ok(r, round_leaves(n, t), b, t),
    ensures
        r.total_simulations > 0,
        r.total_mass == ROOT_MASS,
        outcome_mass_sum(r.improvements@) == ROOT_MASS,
{
    lemma_leaves_keep_mass(n, 0, t, ROOT_MASS);
    lemma_leaves_nonempty(n, 0, t, ROOT_MASS);
}

/// The risk of degradation and the probability of improvement together are
/// at most one whole. Over the listed outcomes, exactly: the mass above the
/// baseline, the mass below it and the mass of the outcome that keeps it add
/// up to the round's whole mass, and the probability of improvement and the
/// risk are the first two of these as shares of that whole.
pub proof fn lemma_risk_and_improvement(r: RoundProbabilities, l: Seq<(u64, u64)>, b: u64, t: int)
    requires
        round_ok(r, l, b, t),
    ensures
        r.risk_of_degradation + r.probability_of_improvement <= PPM,
        r.total_simulations > 0 ==> r.total_mass - mass_above(l, b) - mass_below(l, b) == mass_at(l, b),
        r.total_simulations > 0 ==> outcome_mass_on(r.improvements@, b, 1) + outcome_mass_on(
            r.improvements@,
            b,
            -1,
        ) + outcome_mass_on(r.improvements@, b, 0) == r.total_mass,
        r.total_simulations > 0 ==> r.probability_of_improvement == ppm_of(
            outcome_mass_on(r.improvements@, b, 1),
            r.total_mass as nat,
        ),
        r.total_simulations > 0 ==> r.risk_of_degradation == ppm_of(
            outcome_mass_on(r.improvements@, b, -1),
            r.total_mass as nat,
        ),
{
    lemma_sums_bounded(l, b);
    let total = mass_sum(l);
    if l.len() > 0 && total > 0 {
        let x = mass_below(l, b) * PPM;
        let y = mass_above(l, b) * PPM;
        let qx = x as int / total as int;
        let qy = y as int / total as int;
        vstd::arithmetic::div_mod::lemma_fundamental_div_mod(x as int, total as int);
        vstd::arithmetic::div_mod::lemma_fundamental_div_mod(y as int, total as int);
        vstd::arithmetic::div_mod::lemma_mod_pos_bound(x as int, total as int);
        vstd::arithmetic::div_mod::lemma_mod_pos_bound(y as int, total as int);
        assert(x + y <= total * PPM) by (nonlinear_arith)
            requires
                x == mass_below(l, b) * PPM,
                y == mass_above(l, b) * PPM,
                mass_below(l, b) + mass_above(l, b) <= total,
        ;
        assert(total * (qx + qy) <= x + y) by (nonlinear_arith)
            requires
                x == total * qx + x as int % total as int,
                y == total * qy + y as int % total as int,
                x as int % total as int >= 0,
                y as int % total as int >= 0,
        ;
        assert(qx + qy <= PPM) by (nonlinear_arith)
            requires
                total * (qx + qy) <= total * PPM,
                total > 0,
        ;
    }
}


/// Tallies over every possible hand of a tree, for one card: how many hands
/// there are, how many hold the card, how many hold it and score, and the
/// summed scores of those that hold it.
pub open spec fn tally(n: Node, c: Card) -> (nat, nat, nat, nat)
    decreases n, 1nat, 0nat,
{
    let own = hands_tally(n.possible_hands@, c, n.possible_hands@.len() as int);
    let below = branches_tally(n, c, n.branches@.len() as int);
    (own.0 + below.0, own.1 + below.1, own.2 + below.2, own.3 + below.3)
}

/// The tally of the first `j` branches of `n`.
pub open spec fn branches_tally(n: Node, c: Card, j: int) -> (nat, nat, nat, nat)
    decreases n, 0nat, j,
{
    if j <= 0 || j > n.branches@.len() {
        (0, 0, 0, 0)
    } else {
        let a = branches_tally(n, c, j - 1);
        let b = tally(n.branches@[j - 1], c);
        (a.0 + b.0, a.1 + b.1, a.2 + b.2, a.3 + b.3)
    }
}

/// The tally of the first `k` of a node's possible hands.
pub open spec fn hands_tally(h: Seq<PossibleHand>, c: Card, k: int) -> (nat, nat, nat, nat)
    decreases k,
{
    if k <= 0 || k > h.len() {
        (0, 0, 0, 0)
    } else {
        let a = hands_tally(h, c, k - 1);
        let held = h[k - 1].hand.cards@.contains(c);
        (
            a.0 + 1,
            a.1 + if held { 1nat } else { 0nat },
            a.2 + if held && h[k - 1].meld_score > 0 { 1nat } else { 0nat },
            a.3 + if held { h[k - 1].meld_score as nat } else { 0nat },
        )
    }
}

/// `x`, or the largest `u64` when `x` is larger.
pub open spec fn sat(x: nat) -> u64 {
    if x <= u64::MAX {
        x as u64
    } else {
        u64::MAX
    }
}

proof fn lemma_sat_add(x: nat, y: nat)
    ensures
        sat((sat(x) + sat(y)) as nat) == sat(x + y),
{
}

/// A tally with each count capped at the largest `u64`.
pub open spec fn capped(t: (nat, nat, nat, nat)) -> (u64, u64, u64, u64) {
    (sat(t.0), sat(t.1), sat(t.2), sat(t.3))
}

fn add_capped(a: (u64, u64, u64, u64), b: (u64, u64, u64, u64)) -> (r: (u64, u64, u64, u64))
    ensures
        r == (
            a.0.saturating_add(b.0),
            a.1.saturating_add(b.1),
            a.2.saturating_add(b.2),
            a.3.saturating_add(b.3),
        ),
{
    (a.0.saturating_add(b.0), a.1.saturating_add(b.1), a.2.saturating_add(b.2), a.3.saturating_add(b.3))
}

proof fn lemma_capped_add(x: (nat, nat, nat, nat), y: (nat, nat, nat, nat))
    ensures
        ({
            let a = capped(x);
            let b = capped(y);
            (
                a.0.saturating_add(b.0),
                a.1.saturating_add(b.1),
                a.2.saturating_add(b.2),
                a.3.saturating_add(b.3),
            )
        }) == capped((x.0 + y.0, x.1 + y.1, x.2 + y.2, x.3 + y.3)),
{
    lemma_sat_add(x.0, y.0);
    lemma_sat_add(x.1, y.1);
    lemma_sat_add(x.2, y.2);
    lemma_sat_add(x.3, y.3);
}

impl Node {
    /// The tally of `tally`, each count capped at the largest `u64`.
    pub(crate) fn tally_card(&self, c: Card) -> (r: (u64, u64, u64, u64))
        ensures
            r == capped(tally(*self, c)),
        decreases self,
    {
        let mut own: (u64, u64, u64, u64) = (0, 0, 0, 0);
        let mut k: usize = 0;
        while k < self.possible_hands.len()
            invariant
                k <= self.possible_hands@.len(),
                own == capped(hands_tally(self.possible_hands@, c, k as int)),
            decreases self.possible_hands@.len() - k,
        {
            let ph = &self.possible_hands[k];
            let held = contains_card(&ph.hand.cards, c);
            let one: (u64, u64, u64, u64) = (
                1,
                if held { 1 } else { 0 },
                if held && ph.meld_score > 0 { 1 } else { 0 },
                if held { ph.meld_score } else { 0 },
            );
            proof {
                let h = self.possible_hands@;
                let hl = h[k as int].hand.cards@.contains(c);
                let t1: (nat, nat, nat, nat) = (
                    1,
                    if hl { 1nat } else { 0nat },
                    if hl && h[k as int].meld_score > 0 { 1nat } else { 0nat },
                    if hl { h[k as int].meld_score as nat } else { 0nat },
                );
                assert(one == capped(t1));
                lemma_capped_add(hands_tally(h, c, k as int), t1);
            }
            own = add_capped(own, one);
            k = k + 1;
        }
        let mut below: (u64, u64, u64, u64) = (0, 0, 0, 0);
        let mut j: usize = 0;
        while j < self.branches.len()
            invariant
                j <= self.branches@.len(),
                below == capped(branches_tally(*self, c, j as int)),
            decreases self.branches@.len() - j,
        {
            let t = self.branches[j].tally_card(c);
            proof {
                lemma_capped_add(branches_tally(*self, c, j as int), tally(self.branches@[j as int], c));
            }
            below = add_capped(below, t);
            j = j + 1;
        }
        proof {
            lemma_capped_add(
                hands_tally(self.possible_hands@, c, self.possible_hands@.len() as int),
                branches_tally(*self, c, self.branches@.len() as int),
            );
        }
        add_capped(own, below)
    }
}

/// Whether `c` is among `cards`.
pub(crate) fn contains_card(cards: &Vec<Card>, c: Card) -> (r: bool)
    ensures
        r == cards@.contains(c),
{
    let mut i: usize = 0;
    while i < cards.len()
        invariant
            i <= cards@.len(),
            forall|k: int| 0 <= k < i ==> cards@[k] != c,
        decreases cards@.len() - i,
    {
        if cards[i] == c {
            return true;
        }
        i = i + 1;
    }
    false
}

} // verus!
