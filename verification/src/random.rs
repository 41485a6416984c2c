//! The seedable source of random choices used by expansion and rollouts.

use rand::rngs::StdRng;
use vstd::prelude::*;

verus! {

/// Makes `rand::rngs::StdRng` known as a type whose values are only passed on.
#[verifier::external_type_specification]
#[verifier::external_body]
pub struct ExStdRng(StdRng);

/// A stream of random choices, reproducible from its seed.
pub struct RandomSource {
    rng: StdRng,
    seed: u64,
}

/// Calls `rand::SeedableRng::seed_from_u64` for `rand::rngs::StdRng`.
/// Nothing is claimed about the generator that comes back.
#[verifier::external_body]
fn std_rng_from_seed(seed: u64) -> (rng: StdRng) {
    rand::SeedableRng::seed_from_u64(seed)
}

/// Calls `rand::Rng::gen_range` with the half-open range `0..bound`.
/// The crate documents that the value lies in the range and that an empty
/// range panics, so `bound` must be positive and the result is below it.
#[verifier::external_body]
fn draw_below(rng: &mut StdRng, bound: usize) -> (r: usize)
    requires
        bound > 0,
    ensures
        r < bound,
{
    rand::Rng::gen_range(rng, 0..bound)
}

impl RandomSource {
    /// A source whose choices are determined by `seed`, which it keeps.
    pub fn from_seed(seed: u64) -> (source: RandomSource)
        ensures
            source.spec_seed() == seed,
    {
        RandomSource { rng: std_rng_from_seed(seed), seed }
    }

    /// The seed the source was made from.
    pub closed spec fn spec_seed(&self) -> u64 {
        self.seed
    }

    /// The seed the source was made from. A source made from the same seed
    /// and asked the same questions repeats this one's run.
    pub fn seed(&self) -> (seed: u64)
        ensures
            seed == self.spec_seed(),
    {
        self.seed
    }

    /// Draws an index into a collection of `len` items: some index below
    /// `len`, or `None` exactly when there is nothing to choose from. The
    /// source keeps its seed.
    pub fn pick_index(&mut self, len: usize) -> (choice: Option<usize>)
        ensures
            len == 0 <==> choice is None,
            choice matches Some(i) ==> i < len,
            final(self).spec_seed() == old(self).spec_seed(),
    {
        if len == 0 {
            None
        } else {
            Some(draw_below(&mut self.rng, len))
        }
    }
}

} // verus!
