//! The solvers' randomness source: a seeded generator from the `rand` crate,
//! reached only through the trusted wrappers below. Every wrapper states only
//! what holds of every possible outcome, so the logic built on them is
//! verified for every draw the generator can make.

use vstd::prelude::*;

use rand::Rng;
use rand::distr::Distribution;
use rand::distr::weighted::WeightedIndex;
use rand::seq::SliceRandom;

verus! {

#[verifier::external_type_specification]
#[verifier::external_body]
pub struct ExStdRng(rand::rngs::StdRng);

/// Relies on rand's `Rng::random_range`: a uniform draw from `0..n`, which is
/// non-empty, so the call cannot panic and the result is below `n`.
#[verifier::external_body]
pub fn rand_below(rng: &mut rand::rngs::StdRng, n: usize) -> (r: usize)
    requires
        n >= 1,
    ensures
        r < n,
{
    rng.random_range(0..n)
}

/// Relies on rand's `SliceRandom::shuffle`: an in-place Fisher-Yates
/// permutation, so the elements are rearranged and none is added or lost.
#[verifier::external_body]
pub fn shuffle(rng: &mut rand::rngs::StdRng, v: &mut Vec<usize>)
    ensures
        final (v)@.to_multiset() == old(v)@.to_multiset(),
        final (v)@.len() == old(v)@.len(),
{
    v.shuffle(rng);
}

/// Relies on rand's `WeightedIndex::new` and `Distribution::sample`. With at
/// least one weight, every weight in `1 ..= 2^32`, and at most `2^28` weights,
/// the total fits in a `u64`, so `new` cannot fail; `sample` returns the index
/// of some weight, which is below the number of weights.
#[verifier::external_body]
pub fn weighted_pick(rng: &mut rand::rngs::StdRng, weights: &Vec<u64>) -> (r: usize)
    requires
        weights@.len() >= 1,
        weights@.len() <= 0x1000_0000,
        forall|i: int| 0 <= i < weights@.len() ==> 1 <= #[trigger] weights@[i] <= 0x1_0000_0000,
    ensures
        r < weights@.len(),
{
    let dist = WeightedIndex::new(weights).unwrap();
    dist.sample(rng)
}

} // verus!
