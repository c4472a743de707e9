//! The engine's only source of randomness.
//!
//! Generation is randomized but nothing downstream of it is: every layout
//! that can come out of these draws is handled by the verified code. The
//! contracts here therefore state only what holds of every outcome of a
//! draw: a bound, distinctness, or preservation of the drawn-from
//! multiset. Which particular value comes out is never relied upon.

use vstd::prelude::*;

verus! {

#[verifier::external_type_specification]
#[verifier::external_body]
pub struct ExStdRng(rand::rngs::StdRng);

/// A seedable random-number generator for card-set generation, wrapping
/// the `rand` crate's standard generator.
pub struct GameRng {
    inner: rand::rngs::StdRng,
}

impl GameRng {
    /// Relies on `rand::SeedableRng::seed_from_u64`: builds a generator
    /// from a word-sized seed. Nothing is promised of the stream it
    /// produces.
    #[verifier::external_body]
    pub fn from_seed(seed: u64) -> GameRng {
        GameRng { inner: <rand::rngs::StdRng as rand::SeedableRng>::seed_from_u64(seed) }
    }

    /// Relies on `rand::SeedableRng::from_entropy`: builds a generator
    /// seeded from the operating system. Nothing is promised of the
    /// stream it produces.
    #[verifier::external_body]
    pub fn from_entropy() -> GameRng {
        GameRng { inner: <rand::rngs::StdRng as rand::SeedableRng>::from_entropy() }
    }

    /// Relies on `rand::Rng::gen_range`: a draw from `0..n` lies below
    /// `n`, and the range is non-empty so the call cannot panic.
    #[verifier::external_body]
    pub fn next_below(&mut self, n: usize) -> (r: usize)
        requires
            n >= 1,
        ensures
            r < n,
    {
        rand::Rng::gen_range(&mut self.inner, 0..n)
    }

    /// Relies on `rand::seq::index::sample`: it returns exactly `amount`
    /// distinct indices drawn from `0..length`, and panics only when
    /// `amount > length`, which the precondition rules out.
    #[verifier::external_body]
    pub(crate) fn sample_distinct(&mut self, length: usize, amount: usize) -> (r: Vec<usize>)
        requires
            amount <= length,
        ensures
            r@.len() == amount,
            forall|i: int| 0 <= i < r@.len() ==> r@[i] < length,
            forall|i: int, j: int| 0 <= i < j < r@.len() ==> r@[i] != r@[j],
    {
        rand::seq::index::sample(&mut self.inner, length, amount).into_vec()
    }

    /// Relies on `rand::seq::SliceRandom::shuffle`: a Fisher-Yates pass
    /// that permutes the slice in place, so the elements it holds are
    /// preserved as a multiset.
    #[verifier::external_body]
    pub(crate) fn shuffle(&mut self, cards: &mut Vec<u32>)
        ensures
            final(cards)@.len() == old(cards)@.len(),
            final(cards)@.to_multiset() == old(cards)@.to_multiset(),
    {
        rand::seq::SliceRandom::shuffle(cards.as_mut_slice(), &mut self.inner)
    }
}

} // verus!
