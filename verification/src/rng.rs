//! The random number generator behind shuffles, AI moods, and table life:
//! a seeded ChaCha8 stream from `rand_chacha`, sampled through `rand`.
//!
//! Everything here is a thin, trusted seam: the contracts state only what
//! holds of every outcome the generator can produce.
use vstd::prelude::*;
use rand::seq::SliceRandom;
use rand::{Rng, RngCore, SeedableRng};
use rand_chacha::ChaCha8Rng;
use crate::card::Card;

verus! {

/// The ChaCha8 generator, carried opaquely through verified code.
#[verifier::external_type_specification]
#[verifier::external_body]
pub struct ExChaCha8Rng(ChaCha8Rng);

/// `ChaCha8Rng::seed_from_u64`: a generator whose stream is fixed by
/// `seed`. Nothing is claimed about the stream itself.
#[verifier::external_body]
pub(crate) fn seeded(seed: u64) -> ChaCha8Rng {
    ChaCha8Rng::seed_from_u64(seed)
}

/// `SliceRandom::shuffle`: a Fisher–Yates shuffle of the cards in place.
/// The claim is only that the result is a permutation of the input: the
/// same cards, each as many times as before.
#[verifier::external_body]
pub(crate) fn shuffle_cards(cards: &mut Vec<Card>, rng: &mut ChaCha8Rng)
    ensures
        final(cards)@.len() == old(cards)@.len(),
        final(cards)@.to_multiset() == old(cards)@.to_multiset(),
{
    cards.shuffle(rng);
}

/// `RngCore::next_u32`: the next 32 bits of the stream. Any value is
/// possible.
#[verifier::external_body]
pub(crate) fn next_u32(rng: &mut ChaCha8Rng) -> u32 {
    rng.next_u32()
}

/// `Rng::random_range` over `low..=high` for `usize`: a uniform draw, always
/// within the bounds.
#[verifier::external_body]
pub(crate) fn random_usize(rng: &mut ChaCha8Rng, low: usize, high: usize) -> (r: usize)
    requires
        low <= high,
    ensures
        low <= r <= high,
{
    rng.random_range(low..=high)
}

/// `Rng::random_range` over `low..=high` for `u32`: a uniform draw, always
/// within the bounds.
#[verifier::external_body]
pub(crate) fn random_u32(rng: &mut ChaCha8Rng, low: u32, high: u32) -> (r: u32)
    requires
        low <= high,
    ensures
        low <= r <= high,
{
    rng.random_range(low..=high)
}

/// `Rng::random_ratio`: true with probability `numerator / denominator`.
/// A zero numerator is never true and a full ratio always is; those are
/// the only outcomes claimed.
#[verifier::external_body]
pub(crate) fn random_ratio(rng: &mut ChaCha8Rng, numerator: u32, denominator: u32) -> (b: bool)
    requires
        0 < denominator,
        numerator <= denominator,
    ensures
        numerator == 0 ==> !b,
        numerator == denominator ==> b,
{
    rng.random_ratio(numerator, denominator)
}

} // verus!
