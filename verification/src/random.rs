//! Chance, from the `rand` crate. Nothing is claimed of what comes out but
//! what holds of every outcome.

use rand::seq::{IndexedRandom, SliceRandom};
use vstd::prelude::*;

verus! {

/// `SliceRandom::shuffle` with the generator of `rand::rng`: the deck is
/// rearranged, so it holds what it held, in some order. `rand::rng` panics
/// where the operating system has no entropy to give.
#[verifier::external_body]
pub(crate) fn shuffle(deck: &mut Vec<usize>)
    ensures
        final(deck)@.to_multiset() == old(deck)@.to_multiset(),
{
    deck.shuffle(&mut rand::rng())
}

/// `IndexedRandom::choose` with the generator of `rand::rng`: one of the
/// words, and there is one because the list is not empty. `rand::rng` panics
/// where the operating system has no entropy to give.
#[verifier::external_body]
pub(crate) fn choose_word(words: &[&'static str]) -> (word: &'static str)
    requires
        words@.len() > 0,
    ensures
        words@.contains(word),
{
    words.choose(&mut rand::rng()).unwrap()
}

/// `rand::random` for a number of 128 bits: any such number. It panics where
/// the operating system has no entropy to give.
#[verifier::external_body]
pub(crate) fn random_number() -> u128 {
    rand::random()
}

} // verus!
