//! The explicit, seedable source of randomness that generation draws from.

use vstd::prelude::*;
use rand::rngs::StdRng;
use rand::{Rng, SeedableRng};

verus! {

#[verifier::external_type_specification]
#[verifier::external_body]
pub struct ExStdRng(StdRng);

/// Relies on rand's `SeedableRng::seed_from_u64` for `StdRng`: a generator
/// determined by the seed.  Nothing is stated of its stream.
#[verifier::external_body]
fn seeded_generator(seed: u64) -> (r: StdRng) {
    StdRng::seed_from_u64(seed)
}

/// Relies on rand's `Rng::random_range` over `0..bound`: a value below `bound`;
/// it panics only on an empty range, which `bound > 0` rules out.
#[verifier::external_body]
fn draw_below(rng: &mut StdRng, bound: u64) -> (r: u64)
    requires
        bound > 0,
    ensures
        r < bound,
{
    rng.random_range(0..bound)
}

/// A random source owned by the caller and threaded through generation.
pub struct RandomSource {
    rng: StdRng,
}

impl RandomSource {
    /// A source whose draws are determined by `seed`.
    pub fn from_seed(seed: u64) -> Self {
        RandomSource { rng: seeded_generator(seed) }
    }

    /// A value drawn uniformly from `0..bound`.
    pub fn below(&mut self, bound: u64) -> (r: u64)
        requires
            bound > 0,
        ensures
            r < bound,
    {
        draw_below(&mut self.rng, bound)
    }

    /// An index drawn uniformly from `0..len`.
    pub fn index_below(&mut self, len: usize) -> (r: usize)
        requires
            len > 0,
        ensures
            r < len,
    {
        let x = self.below(len as u64);
        x as usize
    }

    /// A fair coin.
    pub fn coin(&mut self) -> bool {
        self.below(2) == 1
    }

    /// A value drawn uniformly from `lo..=hi`.
    pub fn in_range(&mut self, lo: i64, hi: i64) -> (r: i64)
        requires
            lo <= hi,
            hi - lo < u64::MAX,
        ensures
            lo <= r <= hi,
    {
        let span = (hi as i128 - lo as i128 + 1) as u64;
        let x = self.below(span);
        (lo as i128 + x as i128) as i64
    }
}

} // verus!
