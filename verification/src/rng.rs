//! Trusted boundary to the `rand` crate.
//!
//! Every random draw the library makes goes through one of the wrappers
//! below.  Each wrapper states only what holds of every possible outcome;
//! no contract pins the drawn value itself.

use vstd::prelude::*;
use crate::individual::Individual;

verus! {

#[verifier::external_type_specification]
#[verifier::external_body]
pub struct ExThreadRng(rand::rngs::ThreadRng);

/// The sum of a sequence of weights.
pub open spec fn seq_sum(s: Seq<usize>) -> int
    decreases s.len(),
{
    if s.len() == 0 {
        0
    } else {
        s[0] + seq_sum(s.drop_first())
    }
}

/// Relies on rand::rng: a handle to the thread-local random generator.
#[verifier::external_body]
pub fn fresh_rng() -> rand::rngs::ThreadRng {
    rand::rng()
}

/// Relies on rand::RngExt::random_range over `0..n`: a uniformly drawn
/// index strictly below `n`.  The call panics on an empty range, so `n`
/// must be positive.
#[verifier::external_body]
pub fn rand_below(rng: &mut rand::rngs::ThreadRng, n: usize) -> (r: usize)
    requires
        n > 0,
    ensures
        r < n,
{
    rand::RngExt::random_range(rng, 0..n)
}

/// Relies on rand::RngExt::random_ratio: a Boolean that is true with
/// probability `num / den`.  The call panics when `den == 0` or
/// `num > den`, so those inputs are excluded.
#[verifier::external_body]
pub fn rand_ratio(rng: &mut rand::rngs::ThreadRng, num: u32, den: u32) -> bool
    requires
        1 <= den,
        num <= den,
{
    rand::RngExt::random_ratio(rng, num, den)
}

/// Relies on rand_distr::weighted::WeightedIndex (construction) and
/// rand::RngExt::sample (the draw): an index drawn with probability
/// proportional to its weight.  The construction panics on an empty or
/// all-zero weight list and on weight-sum overflow, so the requirements
/// exclude those; an index of weight zero is never returned, so the
/// drawn index always carries a positive weight.
#[verifier::external_body]
pub fn sample_weighted(rng: &mut rand::rngs::ThreadRng, weights: &Vec<usize>) -> (r: usize)
    requires
        weights.len() > 0,
        seq_sum(weights@) > 0,
        seq_sum(weights@) <= usize::MAX,
    ensures
        r < weights.len(),
        weights@[r as int] > 0,
{
    let dist = rand_distr::weighted::WeightedIndex::new(weights).unwrap();
    rand::RngExt::sample(rng, dist)
}

/// Relies on rand::seq::SliceRandom::shuffle: an in-place permutation of
/// the slice (Fisher-Yates swaps), so the length and the multiset of
/// elements are unchanged.
#[verifier::external_body]
pub fn shuffle_individuals(rng: &mut rand::rngs::ThreadRng, v: &mut Vec<Individual>)
    ensures
        final(v)@.len() == old(v)@.len(),
        final(v)@.to_multiset() == old(v)@.to_multiset(),
{
    rand::seq::SliceRandom::shuffle(v.as_mut_slice(), rng)
}

/// Relies on rand::Rng::fill_bytes: fills the buffer with random bytes
/// in place, leaving its length unchanged.
#[verifier::external_body]
pub fn fill_random_bytes(rng: &mut rand::rngs::ThreadRng, buf: &mut Vec<u8>)
    ensures
        final(buf)@.len() == old(buf)@.len(),
{
    rand::Rng::fill_bytes(rng, buf.as_mut_slice())
}

} // verus!
