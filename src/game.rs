//! Hands, players, the deck, and the best-meld resolver.
use crate::card::{Card, Name, Rank, Suite, ToU64};
use crate::scoring::{meld_points, meld_score, max_u64};
use crate::random::shuffle_cards;
use std::collections::VecDeque;
use vstd::prelude::*;

verus! {

/// The piles of cards not held by any player.
pub struct Deck {
    pub draw_pile: VecDeque<Card>,
    pub discard_pile: VecDeque<Card>,
}

#[derive(Clone, Debug, Eq, PartialEq, Hash)]
pub struct Hand {
    pub cards: Vec<Card>,
}

#[derive(Clone, Debug)]
pub struct Player {
    pub name: String,
    pub description: String,
    pub player_type: Option<PlayerType>,
    pub hand: Hand,
    pub actions: VecDeque<ActionHistory>,
    pub dialogue: VecDeque<String>,
    pub score: usize,
}

/// The risk profile that an automatic player decides by.
#[derive(Clone, Copy, Debug, PartialEq, Eq, Structural)]
pub enum PlayerType {
    Conservative,
    Aggressive,
    Balanced,
}

#[derive(Clone, Copy, Debug, PartialEq, Eq, Structural)]
pub enum PlayAction {
    /// Draw one card from the draw pile (and discard one).
    Draw,
    /// Play the current hand.
    Play,
    /// Take the top card of the discard pile (and discard one).
    Retrieve,
}

/// An automatic player's decision: the action, a confidence in parts per
/// million, the expected final score in ten-millionths of a point, and the
/// card to discard when the action adds a card to the hand.
#[derive(Clone, Copy, Debug, PartialEq, Eq, Structural)]
pub struct AutoPlayDecision {
    pub action: PlayAction,
    pub confidence: u64,
    pub expected_score: i128,
    pub card_to_discard: Option<Card>,
}

#[derive(Clone, Debug)]
pub struct ActionHistory {
    pub choice: Choice,
    /// Which card was discarded, when the action drew one.
    pub card_to_discard: Option<Card>,
}

#[derive(Clone, Copy, Debug, PartialEq, Eq, Structural)]
pub enum Choice {
    Draw,
    Play,
    Retrieve,
}

/// Players are told apart by name.
impl PartialEq for Player {
    fn eq(&self, other: &Self) -> (r: bool)
        ensures
            r == (self.name@ == other.name@),
    {
        self.name == other.name
    }
}

impl vstd::std_specs::cmp::PartialEqSpecImpl for Player {
    open spec fn obeys_eq_spec() -> bool {
        true
    }

    open spec fn eq_spec(&self, other: &Player) -> bool {
        self.name@ == other.name@
    }
}

/// A copy of the cards of a hand.
pub(crate) fn copy_cards(v: &Vec<Card>) -> (r: Vec<Card>)
    ensures
        r@ == v@,
{
    let r = v.clone();
    assert(r@ =~= v@);
    r
}

/// The hand without its card at `i`.
pub open spec fn without(h: Seq<Card>, i: int) -> Seq<Card> {
    h.remove(i)
}

/// The best meld score among the hands that leave out one of the first `n`
/// cards of `h`.
pub open spec fn best_removal_score(h: Seq<Card>, n: int) -> u64
    decreases n,
{
    if n <= 0 {
        0
    } else {
        max_u64(best_removal_score(h, n - 1), meld_score(without(h, n - 1)))
    }
}

/// The best meld score of a six-card hand: the best of its six five-card
/// hands.
pub open spec fn best_meld_of_six(h: Seq<Card>) -> u64 {
    best_removal_score(h, 6)
}

/// What the resolver reports for a hand: the best of its five-card hands when
/// it holds six cards, else zero.
pub open spec fn resolved_score(h: Seq<Card>) -> u64 {
    if h.len() == 6 {
        best_meld_of_six(h)
    } else {
        0
    }
}

/// `x` placed into `s` after its leading cards whose rank is not above `x`'s.
pub open spec fn insert_by_rank(s: Seq<Card>, x: Card) -> Seq<Card>
    decreases s.len(),
{
    if s.len() == 0 {
        seq![x]
    } else if s[0].value() <= x.value() {
        seq![s[0]] + insert_by_rank(s.drop_first(), x)
    } else {
        seq![x] + s
    }
}

/// The cards of `s` ordered by rank, lowest first (cards of equal rank in
/// their order in `s`).
pub open spec fn sort_by_rank(s: Seq<Card>) -> Seq<Card>
    decreases s.len(),
{
    if s.len() == 0 {
        Seq::empty()
    } else {
        insert_by_rank(sort_by_rank(s.drop_last()), s.last())
    }
}

/// The cards of `s` are in rank order, lowest first.
pub open spec fn rank_ordered(s: Seq<Card>) -> bool {
    forall|a: int, b: int| 0 <= a < b < s.len() ==> #[trigger] s[a].value() <= #[trigger] s[b].value()
}

proof fn lemma_insert_by_rank(s: Seq<Card>, x: Card, p: int)
    requires
        0 <= p <= s.len(),
        forall|a: int| 0 <= a < p ==> #[trigger] s[a].value() <= x.value(),
        p < s.len() ==> s[p].value() > x.value(),
    ensures
        insert_by_rank(s, x) == s.insert(p, x),
    decreases p,
{
    if p == 0 {
        if s.len() == 0 {
            assert(s.insert(0, x) =~= seq![x]);
        } else {
            assert(s.insert(0, x) =~= seq![x] + s);
        }
    } else {
        let t = s.drop_first();
        assert forall|a: int| 0 <= a < p - 1 implies #[trigger] t[a].value() <= x.value() by {
            assert(t[a] == s[a + 1]);
        }
        lemma_insert_by_rank(t, x, p - 1);
        assert(s[0].value() <= x.value());
        assert(seq![s[0]] + t.insert(p - 1, x) =~= s.insert(p, x));
    }
}

/// Orders the cards by rank, lowest first, keeping cards of equal rank in
/// their order.
pub(crate) fn sort_cards_by_rank(cards: &mut Vec<Card>)
    ensures
        final(cards)@ == sort_by_rank(old(cards)@),
        rank_ordered(final(cards)@),
        final(cards)@.to_multiset() == old(cards)@.to_multiset(),
        final(cards)@.len() == old(cards)@.len(),
{
    let ghost original = cards@;
    let mut sorted: Vec<Card> = Vec::new();
    let mut i: usize = 0;
    assert(original.subrange(0, 0) =~= sorted@);
    while i < cards.len()
        invariant
            cards@ == original,
            i <= original.len(),
            sorted@ == sort_by_rank(original.subrange(0, i as int)),
            sorted@.len() == i,
            sorted@.to_multiset() == original.subrange(0, i as int).to_multiset(),
            rank_ordered(sorted@),
        decreases original.len() - i,
    {
        let x = cards[i];
        let xv = card_rank_value(&x);
        let mut p: usize = 0;
        while p < sorted.len() && card_rank_value(&sorted[p]) <= xv
            invariant
                p <= sorted@.len(),
                xv == x.value(),
                forall|a: int| 0 <= a < p ==> #[trigger] sorted@[a].value() <= x.value(),
            decreases sorted@.len() - p,
        {
            p = p + 1;
        }
        let ghost s0 = sorted@;
        proof {
            lemma_insert_by_rank(s0, x, p as int);
            assert(original.subrange(0, i + 1).drop_last() =~= original.subrange(0, i as int));
            assert(original.subrange(0, i + 1) =~= original.subrange(0, i as int).push(x));
            original.subrange(0, i as int).to_multiset_ensures();
            assert(s0.insert(p as int, x) =~= s0.subrange(0, p as int).push(x) + s0.subrange(p as int, s0.len() as int));
            assert(s0 =~= s0.subrange(0, p as int) + s0.subrange(p as int, s0.len() as int));
            vstd::seq_lib::lemma_multiset_commutative(s0.subrange(0, p as int).push(x), s0.subrange(p as int, s0.len() as int));
            vstd::seq_lib::lemma_multiset_commutative(s0.subrange(0, p as int), s0.subrange(p as int, s0.len() as int));
            s0.subrange(0, p as int).to_multiset_ensures();
        }
        sorted.insert(p, x);
        proof {
            assert(sorted@.to_multiset() =~= original.subrange(0, i + 1).to_multiset());
            assert forall|a: int, b: int| 0 <= a < b < sorted@.len() implies #[trigger] sorted@[a].value()
                <= #[trigger] sorted@[b].value() by {
                if b < p {
                } else if b == p {
                } else if a < p {
                    assert(sorted@[b] == s0[b - 1]);
                    if p < s0.len() {
                        assert(s0[p as int].value() > x.value());
                    }
                } else if a == p {
                    assert(sorted@[b] == s0[b - 1]);
                    assert(s0[p as int].value() > x.value());
                    assert(s0[p as int].value() <= s0[b - 1].value() || b - 1 == p);
                } else {
                    assert(sorted@[b] == s0[b - 1]);
                    assert(sorted@[a] == s0[a - 1]);
                }
            }
        }
        i = i + 1;
    }
    assert(original.subrange(0, original.len() as int) =~= original);
    *cards = sorted;
}

fn card_rank_value(c: &Card) -> (v: u64)
    ensures
        v == c.value(),
{
    match c.rank.to_u64() {
        Ok(v) => v,
        Err(_) => 0,
    }
}

/// The cards of `h` without the one at `skip`.
pub(crate) fn cards_without(h: &Vec<Card>, skip: usize) -> (r: Vec<Card>)
    requires
        skip < h.len(),
    ensures
        r@ == without(h@, skip as int),
{
    let mut r: Vec<Card> = Vec::new();
    let mut i: usize = 0;
    while i < h.len()
        invariant
            i <= h.len(),
            skip < h.len(),
            r@ == (if i <= skip {
                h@.subrange(0, i as int)
            } else {
                without(h@.subrange(0, i as int), skip as int)
            }),
        decreases h.len() - i,
    {
        if i != skip {
            r.push(h[i]);
        }
        proof {
            if i < skip {
                assert(h@.subrange(0, i + 1) =~= h@.subrange(0, i as int).push(h@[i as int]));
            } else if i == skip {
                assert(without(h@.subrange(0, i + 1), skip as int) =~= h@.subrange(0, i as int));
            } else {
                assert(without(h@.subrange(0, i + 1), skip as int) =~= without(
                    h@.subrange(0, i as int),
                    skip as int,
                ).push(h@[i as int]));
            }
        }
        i = i + 1;
    }
    assert(h@.subrange(0, h.len() as int) =~= h@);
    r
}

/// Calculates the best possible meld score from a 6-card hand by trying all
/// 5-card combinations. A hand of another size has no such combination and
/// scores 0, with the hand itself returned.
pub fn calculate_best_meld_from_hand(hand: &Hand) -> (r: (u64, Hand))
    ensures
        r.0 == resolved_score(hand.cards@),
        hand.cards@.len() != 6 ==> r.1.cards@ == hand.cards@,
        hand.cards@.len() == 6 ==> r.0 == best_meld_of_six(hand.cards@) && exists|k: int|
            0 <= k < 6 && r.1.cards@ == without(hand.cards@, k) && meld_score(
                without(hand.cards@, k),
            ) == r.0,
{
    if hand.cards.len() != 6 {
        return (0, Hand { cards: copy_cards(&hand.cards) });
    }
    let h = &hand.cards;
    let mut best_cards = cards_without(h, 0);
    let mut best = meld_points(&best_cards);
    let ghost mut best_k: int = 0;
    assert(best_removal_score(h@, 1) == max_u64(best_removal_score(h@, 0), best));
    let mut skip: usize = 1;
    while skip < 6
        invariant
            h@.len() == 6,
            1 <= skip <= 6,
            best == best_removal_score(h@, skip as int),
            0 <= best_k < skip,
            best_cards@ == without(h@, best_k),
            meld_score(without(h@, best_k)) == best,
        decreases 6 - skip,
    {
        let five = cards_without(h, skip);
        let score = meld_points(&five);
        if score > best {
            best = score;
            best_cards = five;
            proof {
                best_k = skip as int;
            }
        }
        skip = skip + 1;
    }
    (best, Hand { cards: best_cards })
}

/// Calculates the meld score of a 5-card hand. A hand of another size scores
/// 0. The hand itself is returned with the score.
pub fn calculate_best_meld_from_5_card_hand(hand: &Hand) -> (r: (u64, Hand))
    ensures
        hand.cards@.len() == 5 ==> r.0 == meld_score(hand.cards@),
        hand.cards@.len() != 5 ==> r.0 == 0,
        r.1.cards@ == hand.cards@,
{
    let score = if hand.cards.len() == 5 {
        meld_points(&hand.cards)
    } else {
        0
    };
    (score, Hand { cards: copy_cards(&hand.cards) })
}


proof fn lemma_best_removal_bounds(h: Seq<Card>, n: int)
    requires
        0 <= n <= h.len(),
    ensures
        forall|i: int| 0 <= i < n ==> best_removal_score(h, n) >= meld_score(#[trigger] without(h, i)),
        n > 0 ==> exists|i: int| 0 <= i < n && best_removal_score(h, n) == meld_score(#[trigger] without(h, i)),
    decreases n,
{
    if n > 0 {
        lemma_best_removal_bounds(h, n - 1);
        if n > 1 && best_removal_score(h, n - 1) >= meld_score(without(h, n - 1)) {
            let i = choose|i: int| 0 <= i < n - 1 && best_removal_score(h, n - 1) == meld_score(#[trigger] without(h, i));
            assert(best_removal_score(h, n) == meld_score(without(h, i)));
        } else {
            assert(best_removal_score(h, n) == meld_score(without(h, n - 1)));
        }
    }
}

/// The best meld of a six-card hand is at least the meld score of each of its
/// six five-card hands, and equals the meld score of one of them.
pub proof fn lemma_best_meld_of_six_is_max(h: Seq<Card>)
    requires
        h.len() == 6,
    ensures
        forall|i: int| 0 <= i < 6 ==> best_meld_of_six(h) >= meld_score(#[trigger] without(h, i)),
        exists|i: int| 0 <= i < 6 && best_meld_of_six(h) == meld_score(#[trigger] without(h, i)),
{
    lemma_best_removal_bounds(h, 6);
}

// ---------------------------------------------------------------------------
// The deck.
/// The cards that player `i` of `p` players receives when five rounds are
/// dealt, one card a round, from the top (the back) of `pile`.
pub open spec fn dealt_to(pile: Seq<Card>, p: int, i: int) -> Seq<Card> {
    Seq::new(5, |r: int| pile[pile.len() - 1 - (r * p + i)])
}

/// Deals 5 cards to each player from the deck, one card per player a round,
/// and returns the players with the draw and discard piles that remain. When
/// the draw pile holds fewer than five cards per player nothing is dealt.
pub fn deal_cards(players: Vec<Player>, deck: &mut Deck) -> (r: Result<
    (Vec<Player>, VecDeque<Card>, VecDeque<Card>),
    String,
>)
    ensures
        old(deck).draw_pile@.len() < 5 * players@.len() <==> r is Err,
        r is Err ==> final(deck).draw_pile@ == old(deck).draw_pile@,
        r matches Err(e) ==> e@ == "Deck is empty"@,
        final(deck).discard_pile@ == old(deck).discard_pile@,
        r matches Ok(t) ==> {
            &&& t.0@.len() == players@.len()
            &&& t.1@ == final(deck).draw_pile@
            &&& t.2@ == old(deck).discard_pile@
            &&& final(deck).draw_pile@ == old(deck).draw_pile@.subrange(
                0,
                old(deck).draw_pile@.len() - 5 * players@.len(),
            )
            &&& forall|i: int|
                0 <= i < players@.len() ==> {
                    &&& (#[trigger] t.0@[i]).hand.cards@ == players@[i].hand.cards@ + dealt_to(
                        old(deck).draw_pile@,
                        players@.len() as int,
                        i,
                    )
                    &&& t.0@[i].name == players@[i].name
                    &&& t.0@[i].description == players@[i].description
                    &&& t.0@[i].player_type == players@[i].player_type
                    &&& t.0@[i].actions == players@[i].actions
                    &&& t.0@[i].dialogue == players@[i].dialogue
                    &&& t.0@[i].score == players@[i].score
                }
        },
{
    let np = players.len();
    if np > deck.draw_pile.len() / 5 {
        return Err(String::from_str("Deck is empty"));
    }
    let ghost pile = deck.draw_pile@;
    let total = 5 * np;
    let mut drawn: Vec<Card> = Vec::new();
    let mut j: usize = 0;
    while j < total
        invariant
            total == 5 * np,
            total <= pile.len(),
            j <= total,
            deck.draw_pile@ == pile.subrange(0, pile.len() - j),
            deck.discard_pile@ == old(deck).discard_pile@,
            drawn@.len() == j,
            forall|k: int| 0 <= k < j ==> #[trigger] drawn@[k] == pile[pile.len() - 1 - k],
        decreases total - j,
    {
        match deck.draw_pile.pop_back() {
            Some(c) => {
                drawn.push(c);
            },
            None => {
                return Err(String::from_str("Deck is empty"));
            },
        }
        j = j + 1;
    }
    let mut rest = players;
    let ghost orig = rest@;
    let mut out: Vec<Player> = Vec::new();
    let mut i: usize = 0;
    while i < np
        invariant
            np == orig.len(),
            total == 5 * np,
            drawn@.len() == total,
            forall|k: int| 0 <= k < total ==> #[trigger] drawn@[k] == pile[pile.len() - 1 - k],
            i <= np,
            rest@ == orig.subrange(i as int, np as int),
            out@.len() == i,
            forall|k: int|
                0 <= k < i ==> {
                    &&& (#[trigger] out@[k]).hand.cards@ == orig[k].hand.cards@ + dealt_to(
                        pile,
                        np as int,
                        k,
                    )
                    &&& out@[k].name == orig[k].name
                    &&& out@[k].description == orig[k].description
                    &&& out@[k].player_type == orig[k].player_type
                    &&& out@[k].actions == orig[k].actions
                    &&& out@[k].dialogue == orig[k].dialogue
                    &&& out@[k].score == orig[k].score
                },
        decreases np - i,
    {
        let mut p = rest.remove(0);
        let ghost before = p.hand.cards@;
        let mut round: usize = 0;
        while round < 5
            invariant
                i < np,
                total == 5 * np,
                drawn@.len() == total,
                0 <= round <= 5,
                p.hand.cards@ == before + dealt_to(pile, np as int, i as int).subrange(0, round as int),
                forall|k: int| 0 <= k < total ==> #[trigger] drawn@[k] == pile[pile.len() - 1 - k],
                p.name == orig[i as int].name,
                p.description == orig[i as int].description,
                p.player_type == orig[i as int].player_type,
                p.actions == orig[i as int].actions,
                p.dialogue == orig[i as int].dialogue,
                p.score == orig[i as int].score,
            decreases 5 - round,
        {
            assert(round * np + i < 5 * np) by (nonlinear_arith)
                requires
                    round < 5,
                    i < np,
            ;
            p.hand.cards.push(drawn[round * np + i]);
            proof {
                assert(p.hand.cards@ =~= before + dealt_to(pile, np as int, i as int).subrange(
                    0,
                    round + 1,
                ));
            }
            round = round + 1;
        }
        assert(dealt_to(pile, np as int, i as int).subrange(0, 5) =~= dealt_to(
            pile,
            np as int,
            i as int,
        ));
        out.push(p);
        i = i + 1;
    }
    let draw_pile = deck.draw_pile.clone();
    let discard_pile = deck.discard_pile.clone();
    assert(draw_pile@ =~= deck.draw_pile@);
    assert(discard_pile@ =~= deck.discard_pile@);
    Ok((out, draw_pile, discard_pile))
}


/// The suite of the `i`th group of thirteen cards of a fresh deck.
pub open spec fn deck_suite(i: int) -> Suite {
    if i == 0 {
        Suite::Spades
    } else if i == 1 {
        Suite::Hearts
    } else if i == 2 {
        Suite::Diamonds
    } else {
        Suite::Clubs
    }
}

/// The name at position `j` (0 to 12) of a suite's thirteen cards, 2 to ace.
pub open spec fn deck_name(j: int) -> Name {
    if j == 0 {
        Name::Two
    } else if j == 1 {
        Name::Three
    } else if j == 2 {
        Name::Four
    } else if j == 3 {
        Name::Five
    } else if j == 4 {
        Name::Six
    } else if j == 5 {
        Name::Seven
    } else if j == 6 {
        Name::Eight
    } else if j == 7 {
        Name::Nine
    } else if j == 8 {
        Name::Ten
    } else if j == 9 {
        Name::Jack
    } else if j == 10 {
        Name::Queen
    } else if j == 11 {
        Name::King
    } else {
        Name::Ace
    }
}

/// The standard 52-card deck, suite by suite, each from 2 to ace.
pub open spec fn standard_deck() -> Seq<Card> {
    Seq::new(
        52,
        |i: int|
            Card {
                rank: deck_name(i % 13).spec_rank(),
                suite: deck_suite(i / 13),
                name: deck_name(i % 13),
            },
    )
}

fn suite_at(i: usize) -> (s: Suite)
    ensures
        s == deck_suite(i as int),
{
    if i == 0 {
        Suite::Spades
    } else if i == 1 {
        Suite::Hearts
    } else if i == 2 {
        Suite::Diamonds
    } else {
        Suite::Clubs
    }
}

fn name_at(j: usize) -> (n: Name)
    ensures
        n == deck_name(j as int),
{
    if j == 0 {
        Name::Two
    } else if j == 1 {
        Name::Three
    } else if j == 2 {
        Name::Four
    } else if j == 3 {
        Name::Five
    } else if j == 4 {
        Name::Six
    } else if j == 5 {
        Name::Seven
    } else if j == 6 {
        Name::Eight
    } else if j == 7 {
        Name::Nine
    } else if j == 8 {
        Name::Ten
    } else if j == 9 {
        Name::Jack
    } else if j == 10 {
        Name::Queen
    } else if j == 11 {
        Name::King
    } else {
        Name::Ace
    }
}

fn rank_of(n: Name) -> (r: Rank)
    ensures
        r == n.spec_rank(),
{
    match n.to_rank() {
        Ok(r) => r,
        Err(_) => Rank::Two,
    }
}

/// The cards of `v`, in order, as a double-ended queue.
fn to_queue(v: &Vec<Card>) -> (q: VecDeque<Card>)
    ensures
        q@ == v@,
{
    let mut q: VecDeque<Card> = VecDeque::new();
    let mut i: usize = 0;
    while i < v.len()
        invariant
            i <= v.len(),
            q@ == v@.subrange(0, i as int),
        decreases v.len() - i,
    {
        q.push_back(v[i]);
        assert(q@ =~= v@.subrange(0, i + 1));
        i = i + 1;
    }
    assert(v@.subrange(0, v.len() as int) =~= v@);
    q
}

/// Creates and shuffles a standard 52-card deck.
pub fn shuffle_deck() -> (r: Result<VecDeque<Card>, String>)
    ensures
        r matches Ok(d) && d@.to_multiset() == standard_deck().to_multiset(),
{
    let mut deck: Vec<Card> = Vec::new();
    let mut s: usize = 0;
    while s < 4
        invariant
            s <= 4,
            deck@ == standard_deck().subrange(0, 13 * s),
        decreases 4 - s,
    {
        let suite = suite_at(s);
        let mut j: usize = 0;
        while j < 13
            invariant
                s < 4,
                j <= 13,
                suite == deck_suite(s as int),
                deck@ == standard_deck().subrange(0, 13 * s + j),
            decreases 13 - j,
        {
            let name = name_at(j);
            deck.push(Card { rank: rank_of(name), suite, name });
            proof {
                let k = 13 * s + j;
                assert(k % 13 == j as int && k / 13 == s as int) by (nonlinear_arith)
                    requires
                        k == 13 * s + j,
                        j < 13,
                ;
                assert(deck@ =~= standard_deck().subrange(0, 13 * s + j + 1));
            }
            j = j + 1;
        }
        s = s + 1;
    }
    assert(deck@ =~= standard_deck());
    shuffle_cards(&mut deck);
    Ok(to_queue(&deck))
}

impl Deck {
    /// Moves the discard pile, shuffled, to the draw pile, leaving the discard
    /// pile empty.
    pub fn reshuffle_deck(&mut self) -> (r: Result<(), String>)
        ensures
            r is Ok,
            final(self).draw_pile@.to_multiset() == old(self).discard_pile@.to_multiset(),
            final(self).discard_pile@.len() == 0,
    {
        let mut cards: Vec<Card> = Vec::new();
        let mut i: usize = 0;
        while i < self.discard_pile.len()
            invariant
                i <= self.discard_pile@.len(),
                self.discard_pile@ == old(self).discard_pile@,
                cards@ == self.discard_pile@.subrange(0, i as int),
            decreases self.discard_pile@.len() - i,
        {
            cards.push(self.discard_pile[i]);
            assert(cards@ =~= self.discard_pile@.subrange(0, i + 1));
            i = i + 1;
        }
        assert(cards@ =~= old(self).discard_pile@);
        shuffle_cards(&mut cards);
        self.draw_pile = to_queue(&cards);
        self.discard_pile = VecDeque::new();
        Ok(())
    }
}

} // verus!
