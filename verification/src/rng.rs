//! A seeded pseudo-random source, so that runs that draw from it can be
//! replayed exactly.

use vstd::prelude::*;
use rand::rngs::StdRng;
use rand::{RngExt, SeedableRng};

verus! {

#[verifier::external_type_specification]
#[verifier::external_body]
pub struct ExStdRng(rand::rngs::StdRng);

/// `StdRng::seed_from_u64`: the generator that the seed selects. Nothing is
/// stated of the generator, which Verus cannot see into.
#[verifier::external_body]
fn seeded(seed: u64) -> StdRng {
    StdRng::seed_from_u64(seed)
}

/// `RngExt::random_ratio(1, 2)`: a fair coin drawn from `rng`. Which side
/// comes up depends on the generator's state and is not stated.
#[verifier::external_body]
fn fair_coin(rng: &mut StdRng) -> bool {
    rng.random_ratio(1, 2)
}

/// `RngExt::random_range(0..max)`: a number drawn from `rng` below `max`.
/// The range must not be empty, else the call panics.
#[verifier::external_body]
fn below(rng: &mut StdRng, max: usize) -> (r: usize)
    requires
        max > 0,
    ensures
        r < max,
{
    rng.random_range(0..max)
}

pub struct DeterministicRng {
    rng: StdRng,
    origin: Ghost<u64>,
}

impl DeterministicRng {
    /// The seed the generator was made from; its draws continue the
    /// sequence of that seed.
    pub closed spec fn seed(&self) -> u64 {
        self.origin@
    }

    /// The generator for `seed`; the same seed gives the same draws.
    pub fn new(seed: u64) -> (r: Self)
        ensures
            r.seed() == seed,
    {
        DeterministicRng { rng: seeded(seed), origin: Ghost(seed) }
    }

    /// A fair coin toss.
    pub fn next_bool(&mut self) -> (b: bool)
        ensures
            final(self).seed() == old(self).seed(),
    {
        fair_coin(&mut self.rng)
    }

    /// A draw from `0..max`, or 0 when `max` is 0.
    pub fn next_in_range(&mut self, max: usize) -> (r: usize)
        ensures
            max == 0 ==> r == 0,
            max > 0 ==> r < max,
            final(self).seed() == old(self).seed(),
    {
        if max == 0 {
            return 0;
        }
        below(&mut self.rng, max)
    }
}

} // verus!
