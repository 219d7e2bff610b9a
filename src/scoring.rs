//! The meld table: twelve independent scoring functions over a five-card hand.
//!
//! Each function returns its fixed points when the hand matches its pattern and
//! zero otherwise; a hand's meld score is the largest of the twelve.
use crate::card::{Card, Suite, ToU64};
use crate::game::cards_without;
use smallvec::SmallVec;
use vstd::prelude::*;

verus! {

/// A hand of cards held inline, as the scoring functions take it.
#[verifier::external_body]
pub struct CardVec {
    inner: SmallVec<[Card; 6]>,
}

/// The cards a `CardVec` holds, in order.
pub uninterp spec fn card_vec_items(v: CardVec) -> Seq<Card>;

impl View for CardVec {
    type V = Seq<Card>;

    open spec fn view(&self) -> Seq<Card> {
        card_vec_items(*self)
    }
}

/// Relies on `SmallVec::from_vec`: the small vector holds the same items in
/// the same order.
#[verifier::external_body]
fn small_vec_from(v: Vec<Card>) -> (r: CardVec)
    ensures
        card_vec_items(r) == v@,
{
    CardVec { inner: SmallVec::from_vec(v) }
}

/// Relies on `SmallVec::into_vec`: the vector holds the same items in the
/// same order.
#[verifier::external_body]
fn small_vec_into(v: CardVec) -> (r: Vec<Card>)
    ensures
        r@ == card_vec_items(v),
{
    v.inner.into_vec()
}

/// Relies on `SmallVec`'s slice view and `to_vec`: a vector of the same items
/// in the same order.
#[verifier::external_body]
fn small_vec_to_vec(v: &CardVec) -> (r: Vec<Card>)
    ensures
        r@ == card_vec_items(*v),
{
    v.inner.to_vec()
}

impl CardVec {
    /// Builds a `CardVec` holding the given cards in order.
    pub fn from_vec(cards: Vec<Card>) -> (r: CardVec)
        ensures
            r@ == cards@,
    {
        small_vec_from(cards)
    }

    /// A copy of the held cards, in order.
    pub fn to_vec(&self) -> (r: Vec<Card>)
        ensures
            r@ == self@,
    {
        small_vec_to_vec(self)
    }

    /// The held cards, in order.
    pub fn into_vec(self) -> (r: Vec<Card>)
        ensures
            r@ == self@,
    {
        small_vec_into(self)
    }
}

// ---------------------------------------------------------------------------
// The patterns, stated over the sequence of cards.
/// How many cards of `h` have the rank value `v`.
pub open spec fn value_count(h: Seq<Card>, v: int) -> nat
    decreases h.len(),
{
    if h.len() == 0 {
        0
    } else {
        value_count(h.drop_last(), v) + if h.last().value() == v {
            1nat
        } else {
            0nat
        }
    }
}

/// Some card of `h` has the rank value `v`.
pub open spec fn has_value(h: Seq<Card>, v: int) -> bool {
    exists|k: int| 0 <= k < h.len() && #[trigger] h[k].value() == v
}

/// Some card of `h` has suite `s` and rank value `v`.
pub open spec fn has_card(h: Seq<Card>, s: Suite, v: int) -> bool {
    exists|k: int| 0 <= k < h.len() && #[trigger] h[k].value() == v && h[k].suite == s
}

/// How many rank values in `[2, hi)` are held by two or more cards.
pub open spec fn paired_values(h: Seq<Card>, hi: int) -> nat
    decreases hi,
{
    if hi <= 2 {
        0
    } else {
        paired_values(h, hi - 1) + if value_count(h, hi - 1) >= 2 {
            1nat
        } else {
            0nat
        }
    }
}

/// The sum of the rank values of `h`.
pub open spec fn value_sum(h: Seq<Card>) -> int
    decreases h.len(),
{
    if h.len() == 0 {
        0
    } else {
        value_sum(h.drop_last()) + h.last().value()
    }
}

/// The card at `i` shares its rank with `n` cards in all (itself included).
pub open spec fn rank_held(h: Seq<Card>, i: int, n: nat) -> bool {
    value_count(h, h[i].value()) == n
}

pub open spec fn is_pair(h: Seq<Card>) -> bool {
    exists|i: int| 0 <= i < h.len() && value_count(h, #[trigger] h[i].value()) >= 2
}

/// Exactly two distinct ranks are held by two or more cards each.
pub open spec fn is_two_pair(h: Seq<Card>) -> bool {
    paired_values(h, 15) == 2
}

/// Three cards of one suite whose ranks follow the card at `i`'s: v, v+1, v+2.
pub open spec fn run_of_three_at(h: Seq<Card>, i: int) -> bool {
    has_card(h, h[i].suite, h[i].value() + 1) && has_card(h, h[i].suite, h[i].value() + 2)
}

pub open spec fn is_run_of_three(h: Seq<Card>) -> bool {
    exists|i: int| 0 <= i < h.len() && #[trigger] run_of_three_at(h, i)
}

pub open spec fn is_three_of_a_kind(h: Seq<Card>) -> bool {
    exists|i: int| 0 <= i < h.len() && #[trigger] rank_held(h, i, 3)
}

/// The ranks of the card at `i` and the four next values are all held.
pub open spec fn straight_from(h: Seq<Card>, i: int) -> bool {
    has_value(h, h[i].value() + 1) && has_value(h, h[i].value() + 2) && has_value(
        h,
        h[i].value() + 3,
    ) && has_value(h, h[i].value() + 4)
}

/// For five cards: the ranks are five consecutive values.
pub open spec fn is_straight(h: Seq<Card>) -> bool {
    exists|i: int| 0 <= i < h.len() && #[trigger] straight_from(h, i)
}

pub open spec fn is_flush(h: Seq<Card>) -> bool {
    h.len() > 0 && forall|i: int| 0 <= i < h.len() ==> #[trigger] h[i].suite == h[0].suite
}

/// Four cards of one suite whose ranks follow the card at `i`'s.
pub open spec fn run_of_four_at(h: Seq<Card>, i: int) -> bool {
    run_of_three_at(h, i) && has_card(h, h[i].suite, h[i].value() + 3)
}

pub open spec fn is_run_of_four(h: Seq<Card>) -> bool {
    exists|i: int| 0 <= i < h.len() && #[trigger] run_of_four_at(h, i)
}

/// The cards of `h` other than those at `i` and `j` (`i < j`).
pub open spec fn others(h: Seq<Card>, i: int, j: int) -> Seq<Card> {
    h.remove(j).remove(i)
}

/// The cards of `r` hold the value of the card at `k` and the two values
/// after it.
pub open spec fn run_from(r: Seq<Card>, k: int) -> bool {
    has_value(r, r[k].value() + 1) && has_value(r, r[k].value() + 2)
}

/// The cards of `r` hold three consecutive values.
pub open spec fn holds_run(r: Seq<Card>) -> bool {
    exists|k: int| 0 <= k < r.len() && #[trigger] run_from(r, k)
}

/// The cards at `i` and `j` share a rank and the other cards hold a run of
/// three values (for five cards: the other three are that run), however
/// often the pair's rank occurs.
pub open spec fn full_set_at(h: Seq<Card>, i: int, j: int) -> bool {
    0 <= i < j < h.len() && h[i].rank == h[j].rank && holds_run(others(h, i, j))
}

pub open spec fn is_full_set(h: Seq<Card>) -> bool {
    exists|i: int, j: int| #[trigger] full_set_at(h, i, j)
}

/// For five cards: one rank is held three times and another twice.
pub open spec fn is_full_house(h: Seq<Card>) -> bool {
    is_three_of_a_kind(h) && exists|j: int| 0 <= j < h.len() && #[trigger] rank_held(h, j, 2)
}

pub open spec fn is_four_of_a_kind(h: Seq<Card>) -> bool {
    exists|i: int| 0 <= i < h.len() && #[trigger] rank_held(h, i, 4)
}

pub open spec fn is_straight_flush(h: Seq<Card>) -> bool {
    is_straight(h) && is_flush(h)
}

/// A straight flush whose rank values add up to 60: ten to ace.
pub open spec fn is_royal_flush(h: Seq<Card>) -> bool {
    is_straight(h) && is_flush(h) && value_sum(h) == 60
}

/// `points` when the pattern holds, else zero.
pub open spec fn points_if(matched: bool, points: u64) -> u64 {
    if matched {
        points
    } else {
        0
    }
}

pub open spec fn pair_points(h: Seq<Card>) -> u64 {
    points_if(is_pair(h), 2)
}

pub open spec fn two_pair_points(h: Seq<Card>) -> u64 {
    points_if(is_two_pair(h), 5)
}

pub open spec fn run_of_three_points(h: Seq<Card>) -> u64 {
    points_if(is_run_of_three(h), 10)
}

pub open spec fn three_of_a_kind_points(h: Seq<Card>) -> u64 {
    points_if(is_three_of_a_kind(h), 15)
}

pub open spec fn straight_points(h: Seq<Card>) -> u64 {
    points_if(is_straight(h), 20)
}

pub open spec fn flush_points(h: Seq<Card>) -> u64 {
    points_if(is_flush(h), 25)
}

pub open spec fn run_of_four_points(h: Seq<Card>) -> u64 {
    points_if(is_run_of_four(h), 30)
}

pub open spec fn full_set_points(h: Seq<Card>) -> u64 {
    points_if(is_full_set(h), 35)
}

pub open spec fn full_house_points(h: Seq<Card>) -> u64 {
    points_if(is_full_house(h), 40)
}

pub open spec fn four_of_a_kind_points(h: Seq<Card>) -> u64 {
    points_if(is_four_of_a_kind(h), 50)
}

pub open spec fn straight_flush_points(h: Seq<Card>) -> u64 {
    points_if(is_straight_flush(h), 80)
}

pub open spec fn royal_flush_points(h: Seq<Card>) -> u64 {
    points_if(is_royal_flush(h), 100)
}

pub open spec fn max_u64(a: u64, b: u64) -> u64 {
    if a >= b {
        a
    } else {
        b
    }
}

/// The meld score of a five-card hand: the largest of the twelve scores.
#[verifier::opaque]
pub open spec fn meld_score(h: Seq<Card>) -> u64 {
    max_u64(
        max_u64(
            max_u64(max_u64(pair_points(h), two_pair_points(h)), max_u64(run_of_three_points(h), three_of_a_kind_points(h))),
            max_u64(max_u64(straight_points(h), flush_points(h)), max_u64(run_of_four_points(h), full_set_points(h))),
        ),
        max_u64(
            max_u64(full_house_points(h), four_of_a_kind_points(h)),
            max_u64(straight_flush_points(h), royal_flush_points(h)),
        ),
    )
}


// ---------------------------------------------------------------------------
// Counting and lookup over a vector of cards.
/// The numeric value of a card's rank.
fn card_value(c: &Card) -> (v: u64)
    ensures
        v == c.value(),
        2 <= v <= 14,
{
    match c.rank.to_u64() {
        Ok(v) => v,
        Err(_) => 0,
    }
}

proof fn lemma_value_count_step(h: Seq<Card>, i: int, v: int)
    requires
        0 <= i < h.len(),
    ensures
        value_count(h.subrange(0, i + 1), v) == value_count(h.subrange(0, i), v) + if h[i].value()
            == v {
            1nat
        } else {
            0nat
        },
{
    assert(h.subrange(0, i + 1).drop_last() =~= h.subrange(0, i));
}

proof fn lemma_value_sum_step(h: Seq<Card>, i: int)
    requires
        0 <= i < h.len(),
    ensures
        value_sum(h.subrange(0, i + 1)) == value_sum(h.subrange(0, i)) + h[i].value(),
{
    assert(h.subrange(0, i + 1).drop_last() =~= h.subrange(0, i));
}

proof fn lemma_value_count_bound(h: Seq<Card>, v: int)
    ensures
        value_count(h, v) <= h.len(),
    decreases h.len(),
{
    if h.len() > 0 {
        lemma_value_count_bound(h.drop_last(), v);
    }
}

/// How many cards of `h` have the rank value `v`.
pub(crate) fn count_value(h: &Vec<Card>, v: u64) -> (n: usize)
    ensures
        n == value_count(h@, v as int),
{
    let mut n: usize = 0;
    let mut i: usize = 0;
    while i < h.len()
        invariant
            i <= h.len(),
            n == value_count(h@.subrange(0, i as int), v as int),
        decreases h.len() - i,
    {
        proof {
            lemma_value_count_step(h@, i as int, v as int);
            lemma_value_count_bound(h@.subrange(0, i as int), v as int);
        }
        if card_value(&h[i]) == v {
            n = n + 1;
        }
        i = i + 1;
    }
    assert(h@.subrange(0, h.len() as int) =~= h@);
    n
}

pub(crate) fn contains_value(h: &Vec<Card>, v: u64) -> (b: bool)
    ensures
        b == has_value(h@, v as int),
{
    let mut i: usize = 0;
    while i < h.len()
        invariant
            i <= h.len(),
            forall|k: int| 0 <= k < i ==> #[trigger] h@[k].value() != v,
        decreases h.len() - i,
    {
        if card_value(&h[i]) == v {
            return true;
        }
        i = i + 1;
    }
    false
}

fn contains_card(h: &Vec<Card>, s: Suite, v: u64) -> (b: bool)
    ensures
        b == has_card(h@, s, v as int),
{
    let mut i: usize = 0;
    while i < h.len()
        invariant
            i <= h.len(),
            forall|k: int| 0 <= k < i ==> !(#[trigger] h@[k].value() == v && h@[k].suite == s),
        decreases h.len() - i,
    {
        if card_value(&h[i]) == v && h[i].suite == s {
            return true;
        }
        i = i + 1;
    }
    false
}

fn sum_values(h: &Vec<Card>) -> (t: u64)
    requires
        h.len() <= 6,
    ensures
        t == value_sum(h@),
{
    let mut t: u64 = 0;
    let mut i: usize = 0;
    while i < h.len()
        invariant
            i <= h.len() <= 6,
            t == value_sum(h@.subrange(0, i as int)),
            t <= 14 * i,
        decreases h.len() - i,
    {
        proof {
            lemma_value_sum_step(h@, i as int);
        }
        t = t + card_value(&h[i]);
        i = i + 1;
    }
    assert(h@.subrange(0, h.len() as int) =~= h@);
    t
}

/// Whether some card's rank is held exactly `n` times (at least `n` times
/// when `at_least` is set).
fn some_rank_held(h: &Vec<Card>, n: usize, at_least: bool) -> (b: bool)
    ensures
        at_least ==> b == exists|i: int| 0 <= i < h@.len() && value_count(h@, #[trigger] h@[i].value()) >= n,
        !at_least ==> b == exists|i: int| 0 <= i < h@.len() && #[trigger] rank_held(h@, i, n as nat),
{
    let mut i: usize = 0;
    while i < h.len()
        invariant
            i <= h.len(),
            at_least ==> forall|k: int| 0 <= k < i ==> value_count(h@, #[trigger] h@[k].value()) < n,
            !at_least ==> forall|k: int| 0 <= k < i ==> !#[trigger] rank_held(h@, k, n as nat),
        decreases h.len() - i,
    {
        let c = count_value(h, card_value(&h[i]));
        if (at_least && c >= n) || (!at_least && c == n) {
            assert(!at_least ==> rank_held(h@, i as int, n as nat));
            return true;
        }
        i = i + 1;
    }
    false
}


// ---------------------------------------------------------------------------
// The patterns, checked on a vector of cards.
fn check_two_pair(h: &Vec<Card>) -> (b: bool)
    ensures
        b == is_two_pair(h@),
{
    let mut pairs: usize = 0;
    let mut v: u64 = 2;
    while v < 15
        invariant
            2 <= v <= 15,
            pairs == paired_values(h@, v as int),
            pairs <= v,
        decreases 15 - v,
    {
        if count_value(h, v) >= 2 {
            pairs = pairs + 1;
        }
        v = v + 1;
    }
    pairs == 2
}

fn check_run_of_three(h: &Vec<Card>) -> (b: bool)
    ensures
        b == is_run_of_three(h@),
{
    let mut i: usize = 0;
    while i < h.len()
        invariant
            i <= h.len(),
            forall|k: int| 0 <= k < i ==> !#[trigger] run_of_three_at(h@, k),
        decreases h.len() - i,
    {
        let v = card_value(&h[i]);
        if contains_card(h, h[i].suite, v + 1) && contains_card(h, h[i].suite, v + 2) {
            assert(run_of_three_at(h@, i as int));
            return true;
        }
        i = i + 1;
    }
    false
}

fn check_straight(h: &Vec<Card>) -> (b: bool)
    ensures
        b == is_straight(h@),
{
    let mut i: usize = 0;
    while i < h.len()
        invariant
            i <= h.len(),
            forall|k: int| 0 <= k < i ==> !#[trigger] straight_from(h@, k),
        decreases h.len() - i,
    {
        let v = card_value(&h[i]);
        if contains_value(h, v + 1) && contains_value(h, v + 2) && contains_value(h, v + 3)
            && contains_value(h, v + 4) {
            assert(straight_from(h@, i as int));
            return true;
        }
        i = i + 1;
    }
    false
}

fn check_flush(h: &Vec<Card>) -> (b: bool)
    ensures
        b == is_flush(h@),
{
    if h.len() == 0 {
        return false;
    }
    let mut i: usize = 0;
    while i < h.len()
        invariant
            0 < h.len(),
            i <= h.len(),
            forall|k: int| 0 <= k < i ==> #[trigger] h@[k].suite == h@[0].suite,
        decreases h.len() - i,
    {
        if h[i].suite != h[0].suite {
            return false;
        }
        i = i + 1;
    }
    true
}

fn check_run_of_four(h: &Vec<Card>) -> (b: bool)
    ensures
        b == is_run_of_four(h@),
{
    let mut i: usize = 0;
    while i < h.len()
        invariant
            i <= h.len(),
            forall|k: int| 0 <= k < i ==> !#[trigger] run_of_four_at(h@, k),
        decreases h.len() - i,
    {
        let v = card_value(&h[i]);
        if contains_card(h, h[i].suite, v + 1) && contains_card(h, h[i].suite, v + 2)
            && contains_card(h, h[i].suite, v + 3) {
            assert(run_of_four_at(h@, i as int));
            return true;
        }
        i = i + 1;
    }
    false
}

/// Whether the cards hold three consecutive values.
fn check_holds_run(r: &Vec<Card>) -> (b: bool)
    ensures
        b == holds_run(r@),
{
    let mut k: usize = 0;
    while k < r.len()
        invariant
            k <= r.len(),
            forall|m: int| 0 <= m < k ==> !#[trigger] run_from(r@, m),
        decreases r.len() - k,
    {
        let v = card_value(&r[k]);
        if contains_value(r, v + 1) && contains_value(r, v + 2) {
            assert(run_from(r@, k as int));
            return true;
        }
        k = k + 1;
    }
    false
}

fn check_full_set(h: &Vec<Card>) -> (b: bool)
    ensures
        b == is_full_set(h@),
{
    let mut i: usize = 0;
    while i < h.len()
        invariant
            i <= h.len(),
            forall|a: int, c: int| 0 <= a < i ==> !#[trigger] full_set_at(h@, a, c),
        decreases h.len() - i,
    {
        let mut j: usize = i + 1;
        while j < h.len()
            invariant
                i < h.len(),
                i + 1 <= j <= h.len(),
                forall|a: int, c: int| 0 <= a < i ==> !#[trigger] full_set_at(h@, a, c),
                forall|c: int| i < c < j ==> !#[trigger] full_set_at(h@, i as int, c),
            decreases h.len() - j,
        {
            if h[i].rank == h[j].rank {
                let without_j = cards_without(h, j);
                let rest = cards_without(&without_j, i);
                if check_holds_run(&rest) {
                    assert(full_set_at(h@, i as int, j as int));
                    return true;
                }
            }
            j = j + 1;
        }
        assert forall|c: int| !#[trigger] full_set_at(h@, i as int, c) by {
            if i < c < j {
            }
        }
        i = i + 1;
    }
    false
}

fn check_full_house(h: &Vec<Card>) -> (b: bool)
    ensures
        b == is_full_house(h@),
{
    some_rank_held(h, 3, false) && some_rank_held(h, 2, false)
}

fn check_royal_flush(h: &Vec<Card>) -> (b: bool)
    requires
        h.len() <= 6,
    ensures
        b == is_royal_flush(h@),
{
    check_straight(h) && check_flush(h) && sum_values(h) == 60
}

/// The meld score of the cards: the largest of the twelve scores.
pub(crate) fn meld_points(h: &Vec<Card>) -> (r: u64)
    requires
        h.len() <= 6,
    ensures
        r == meld_score(h@),
{
    let straight = check_straight(h);
    let flush = check_flush(h);
    let scores: [u64; 12] = [
        if some_rank_held(h, 2, true) { 2 } else { 0 },
        if check_two_pair(h) { 5 } else { 0 },
        if check_run_of_three(h) { 10 } else { 0 },
        if some_rank_held(h, 3, false) { 15 } else { 0 },
        if straight { 20 } else { 0 },
        if flush { 25 } else { 0 },
        if check_run_of_four(h) { 30 } else { 0 },
        if check_full_set(h) { 35 } else { 0 },
        if check_full_house(h) { 40 } else { 0 },
        if some_rank_held(h, 4, false) { 50 } else { 0 },
        if straight && flush { 80 } else { 0 },
        if straight && flush && sum_values(h) == 60 { 100 } else { 0 },
    ];
    proof {
        reveal(meld_score);
    }
    let a = max_of(max_of(scores[0], scores[1]), max_of(scores[2], scores[3]));
    let b = max_of(max_of(scores[4], scores[5]), max_of(scores[6], scores[7]));
    let c = max_of(max_of(scores[8], scores[9]), max_of(scores[10], scores[11]));
    max_of(max_of(a, b), c)
}

fn max_of(a: u64, b: u64) -> (r: u64)
    ensures
        r == max_u64(a, b),
{
    if a >= b {
        a
    } else {
        b
    }
}


// ---------------------------------------------------------------------------
// The twelve scoring functions.
/// Calculates score for having a pair in the hand.
pub fn pair_score(hand: CardVec) -> (r: Result<u64, String>)
    requires
        hand@.len() == 5,
    ensures
        r == Ok::<u64, String>(pair_points(hand@)),
{
    let h = hand.into_vec();
    Ok(if some_rank_held(&h, 2, true) { 2 } else { 0 })
}

/// Calculates score for having exactly two pairs in the hand.
pub fn two_pair_score(hand: CardVec) -> (r: Result<u64, String>)
    requires
        hand@.len() == 5,
    ensures
        r == Ok::<u64, String>(two_pair_points(hand@)),
{
    let h = hand.into_vec();
    Ok(if check_two_pair(&h) { 5 } else { 0 })
}

/// Calculates score for having a sequence of three consecutive ranks of the same suite.
pub fn sequence_of_three_score(hand: CardVec) -> (r: Result<u64, String>)
    requires
        hand@.len() == 5,
    ensures
        r == Ok::<u64, String>(run_of_three_points(hand@)),
{
    let h = hand.into_vec();
    Ok(if check_run_of_three(&h) { 10 } else { 0 })
}

/// Calculates score for having three cards of the same rank.
pub fn three_of_a_kind_score(hand: CardVec) -> (r: Result<u64, String>)
    requires
        hand@.len() == 5,
    ensures
        r == Ok::<u64, String>(three_of_a_kind_points(hand@)),
{
    let h = hand.into_vec();
    Ok(if some_rank_held(&h, 3, false) { 15 } else { 0 })
}

/// Calculates score for having a straight (5 consecutive ranks).
pub fn straight_score(hand: CardVec) -> (r: Result<u64, String>)
    requires
        hand@.len() == 5,
    ensures
        r == Ok::<u64, String>(straight_points(hand@)),
{
    let h = hand.into_vec();
    Ok(if check_straight(&h) { 20 } else { 0 })
}

/// Calculates score for having a flush (all cards same suite).
pub fn flush_score(hand: CardVec) -> (r: Result<u64, String>)
    requires
        hand@.len() == 5,
    ensures
        r == Ok::<u64, String>(flush_points(hand@)),
{
    let h = hand.into_vec();
    Ok(if check_flush(&h) { 25 } else { 0 })
}

/// Calculates score for having a sequence of four consecutive ranks of the same suite.
pub fn sequence_of_four_score(hand: CardVec) -> (r: Result<u64, String>)
    requires
        hand@.len() == 5,
    ensures
        r == Ok::<u64, String>(run_of_four_points(hand@)),
{
    let h = hand.into_vec();
    Ok(if check_run_of_four(&h) { 30 } else { 0 })
}

/// Calculates score for having a pair plus a sequence of three consecutive ranks.
pub fn full_set_score(hand: CardVec) -> (r: Result<u64, String>)
    requires
        hand@.len() == 5,
    ensures
        r == Ok::<u64, String>(full_set_points(hand@)),
{
    let h = hand.into_vec();
    Ok(if check_full_set(&h) { 35 } else { 0 })
}

/// Calculates score for having a full house (three of a kind + pair).
pub fn full_house_score(hand: CardVec) -> (r: Result<u64, String>)
    requires
        hand@.len() == 5,
    ensures
        r == Ok::<u64, String>(full_house_points(hand@)),
{
    let h = hand.into_vec();
    Ok(if check_full_house(&h) { 40 } else { 0 })
}

/// Calculates score for having four cards of the same rank.
pub fn four_of_a_kind_score(hand: CardVec) -> (r: Result<u64, String>)
    requires
        hand@.len() == 5,
    ensures
        r == Ok::<u64, String>(four_of_a_kind_points(hand@)),
{
    let h = hand.into_vec();
    Ok(if some_rank_held(&h, 4, false) { 50 } else { 0 })
}

/// Calculates score for having a straight flush (straight + flush).
pub fn straight_flush_score(hand: CardVec) -> (r: Result<u64, String>)
    requires
        hand@.len() == 5,
    ensures
        r == Ok::<u64, String>(straight_flush_points(hand@)),
{
    let h = hand.into_vec();
    Ok(if check_straight(&h) && check_flush(&h) { 80 } else { 0 })
}

/// Calculates score for having a royal flush (A, K, Q, J, 10 all same suite).
pub fn royal_flush_score(hand: CardVec) -> (r: Result<u64, String>)
    requires
        hand@.len() == 5,
    ensures
        r == Ok::<u64, String>(royal_flush_points(hand@)),
{
    let h = hand.into_vec();
    Ok(if check_royal_flush(&h) { 100 } else { 0 })
}

// ---------------------------------------------------------------------------
// Laws of the table.
/// The meld score of a hand is the largest of the twelve scores: it is at
/// least each of them, it equals one of them, and it is zero exactly when the
/// hand matches no pattern.
pub proof fn lemma_meld_score_is_largest(h: Seq<Card>)
    ensures
        meld_score(h) >= pair_points(h),
        meld_score(h) >= two_pair_points(h),
        meld_score(h) >= run_of_three_points(h),
        meld_score(h) >= three_of_a_kind_points(h),
        meld_score(h) >= straight_points(h),
        meld_score(h) >= flush_points(h),
        meld_score(h) >= run_of_four_points(h),
        meld_score(h) >= full_set_points(h),
        meld_score(h) >= full_house_points(h),
        meld_score(h) >= four_of_a_kind_points(h),
        meld_score(h) >= straight_flush_points(h),
        meld_score(h) >= royal_flush_points(h),
        meld_score(h) == pair_points(h) || meld_score(h) == two_pair_points(h) || meld_score(h)
            == run_of_three_points(h) || meld_score(h) == three_of_a_kind_points(h) || meld_score(h)
            == straight_points(h) || meld_score(h) == flush_points(h) || meld_score(h)
            == run_of_four_points(h) || meld_score(h) == full_set_points(h) || meld_score(h)
            == full_house_points(h) || meld_score(h) == four_of_a_kind_points(h) || meld_score(h)
            == straight_flush_points(h) || meld_score(h) == royal_flush_points(h),
        (meld_score(h) == 0) == (!is_pair(h) && !is_two_pair(h) && !is_run_of_three(h)
            && !is_three_of_a_kind(h) && !is_straight(h) && !is_flush(h) && !is_run_of_four(h)
            && !is_full_set(h) && !is_full_house(h) && !is_four_of_a_kind(h) && !is_straight_flush(h)
            && !is_royal_flush(h)),
{
    reveal(meld_score);
}


/// Ten, jack, queen, king and ace of one suite, in any order, score exactly
/// the royal flush's 100.
pub proof fn lemma_royal_flush(h: Seq<Card>)
    requires
        h.len() == 5,
        forall|k: int| 0 <= k < 5 ==> #[trigger] h[k].suite == h[0].suite,
        has_value(h, 10),
        has_value(h, 11),
        has_value(h, 12),
        has_value(h, 13),
        has_value(h, 14),
    ensures
        meld_score(h) == 100,
        royal_flush_points(h) == 100,
{
    reveal(meld_score);
    let a = choose|k: int| 0 <= k < h.len() && #[trigger] h[k].value() == 10;
    let b = choose|k: int| 0 <= k < h.len() && #[trigger] h[k].value() == 11;
    let c = choose|k: int| 0 <= k < h.len() && #[trigger] h[k].value() == 12;
    let d = choose|k: int| 0 <= k < h.len() && #[trigger] h[k].value() == 13;
    let e = choose|k: int| 0 <= k < h.len() && #[trigger] h[k].value() == 14;
    assert(straight_from(h, a));
    assert(is_flush(h));
    reveal_with_fuel(value_sum, 6);
    assert(h.drop_last().drop_last().drop_last().drop_last().drop_last().len() == 0);
    assert forall|j: int| 0 <= j < 5 implies 10 <= #[trigger] h[j].value() <= 14 by {
        assert(j == a || j == b || j == c || j == d || j == e);
    }
    assert(value_sum(h) == h[0].value() + h[1].value() + h[2].value() + h[3].value() + h[4].value());
    assert(value_sum(h) == 60) by {
        assert(h[a].value() + h[b].value() + h[c].value() + h[d].value() + h[e].value() == 60);
        assert(0 <= a < 5 && 0 <= b < 5 && 0 <= c < 5 && 0 <= d < 5 && 0 <= e < 5);
        assert(a != b && a != c && a != d && a != e && b != c && b != d && b != e && c != d && c != e && d != e);
    }
}

proof fn lemma_distinct_values_unpaired(h: Seq<Card>, v: int)
    requires
        forall|i: int, j: int| 0 <= i < j < h.len() ==> #[trigger] h[i].value() != #[trigger] h[j].value(),
    ensures
        value_count(h, v) <= 1,
        value_count(h, v) == 1 ==> has_value(h, v),
    decreases h.len(),
{
    if h.len() > 0 {
        let t = h.drop_last();
        assert forall|i: int, j: int| 0 <= i < j < t.len() implies #[trigger] t[i].value() != #[trigger] t[j].value() by {
            assert(h[i].value() != h[j].value());
        }
        lemma_distinct_values_unpaired(t, v);
        if h.last().value() == v && value_count(t, v) == 1 {
            let k = choose|k: int| 0 <= k < t.len() && #[trigger] t[k].value() == v;
            assert(h[k].value() != h[h.len() - 1].value());
        }
        if value_count(t, v) == 1 {
            let k = choose|k: int| 0 <= k < t.len() && #[trigger] t[k].value() == v;
            assert(h[k].value() == v);
        }
        if h.last().value() == v {
            assert(h[h.len() - 1].value() == v);
        }
    }
}

proof fn lemma_no_paired_values(h: Seq<Card>, hi: int)
    requires
        forall|v: int| value_count(h, v) <= 1,
    ensures
        paired_values(h, hi) == 0,
    decreases hi,
{
    if hi > 2 {
        lemma_no_paired_values(h, hi - 1);
    }
}

/// Four consecutive royal ranks of one suite (ten to king, or jack to ace)
/// with a low fifth card of that suite, in any order, score a suited run of
/// four, 30, and not a royal flush. The low card is at most eight beside ten
/// to king (a nine would complete a straight flush) and at most nine beside
/// jack to ace.
#[verifier::rlimit(60)]
pub proof fn lemma_four_royal_ranks_score_run_of_four(h: Seq<Card>, first: int)
    requires
        h.len() == 5,
        first == 10 || first == 11,
        forall|k: int| 0 <= k < 5 ==> #[trigger] h[k].suite == h[0].suite,
        has_value(h, first),
        has_value(h, first + 1),
        has_value(h, first + 2),
        has_value(h, first + 3),
        exists|k: int| 0 <= k < 5 && #[trigger] h[k].value() <= first - 2,
    ensures
        meld_score(h) == 30,
        royal_flush_points(h) == 0,
{
    reveal(meld_score);
    let a = choose|k: int| 0 <= k < h.len() && #[trigger] h[k].value() == first;
    let b = choose|k: int| 0 <= k < h.len() && #[trigger] h[k].value() == first + 1;
    let c = choose|k: int| 0 <= k < h.len() && #[trigger] h[k].value() == first + 2;
    let d = choose|k: int| 0 <= k < h.len() && #[trigger] h[k].value() == first + 3;
    let e = choose|k: int| 0 <= k < 5 && #[trigger] h[k].value() <= first - 2;
    assert(a != b && a != c && a != d && a != e && b != c && b != d && b != e && c != d && c != e
        && d != e);
    assert forall|i: int, j: int| 0 <= i < j < h.len() implies #[trigger] h[i].value() != #[trigger] h[j].value() by {
        assert(i == a || i == b || i == c || i == d || i == e);
        assert(j == a || j == b || j == c || j == d || j == e);
    }
    assert forall|v: int| value_count(h, v) <= 1 by {
        lemma_distinct_values_unpaired(h, v);
    }
    lemma_no_paired_values(h, 15);
    assert(!is_pair(h));
    assert(!is_three_of_a_kind(h));
    assert(!is_four_of_a_kind(h));
    assert(!is_full_house(h));
    assert(!is_full_set(h)) by {
        assert forall|i: int, j: int| !#[trigger] full_set_at(h, i, j) by {
            if 0 <= i < j < h.len() {
                assert(h[i].value() != h[j].value());
            }
        }
    }
    assert forall|i: int| 0 <= i < h.len() implies !#[trigger] straight_from(h, i) by {
        assert(i == a || i == b || i == c || i == d || i == e);
        if i != e {
            if has_value(h, h[i].value() + 4) {
                let k = choose|k: int| 0 <= k < h.len() && #[trigger] h[k].value() == h[i].value() + 4;
                assert(k == a || k == b || k == c || k == d || k == e);
            }
        } else {
            if has_value(h, h[i].value() + 1) {
                let k = choose|k: int| 0 <= k < h.len() && #[trigger] h[k].value() == h[i].value() + 1;
                assert(k == a || k == b || k == c || k == d || k == e);
            }
        }
    }
    assert(!is_straight(h));
    assert(is_flush(h));
    assert(has_card(h, h[a].suite, first + 1));
    assert(has_card(h, h[a].suite, first + 2));
    assert(has_card(h, h[a].suite, first + 3));
    assert(run_of_four_at(h, a));
    assert(is_run_of_four(h));
}

} // verus!
