//! The random choices of the library, drawn from the thread's generator.
use crate::card::Card;
use rand::seq::SliceRandom;
use vstd::prelude::*;

verus! {

/// Relies on `SliceRandom::shuffle` (rand): the cards are put in a random
/// order, each card kept.
#[verifier::external_body]
pub(crate) fn shuffle_cards(cards: &mut Vec<Card>)
    ensures
        final(cards)@.to_multiset() == old(cards)@.to_multiset(),
{
    cards.shuffle(&mut rand::rng());
}

/// Relies on `SliceRandom::partial_shuffle` (rand): `amount` cards, or all of
/// them when there are fewer, are chosen at random without replacement.
#[verifier::external_body]
pub(crate) fn sample_cards(pool: &Vec<Card>, amount: usize) -> (r: Vec<Card>)
    ensures
        r@.len() == if amount <= pool@.len() {
            amount as int
        } else {
            pool@.len() as int
        },
        r@.to_multiset().subset_of(pool@.to_multiset()),
{
    let mut cards = pool.clone();
    let (chosen, _) = cards.partial_shuffle(&mut rand::rng(), amount);
    chosen.to_vec()
}

} // verus!
