//! A weak pseudo-random number generator.

use vstd::prelude::*;

verus! {

/// The next state of the generator: a linear congruential step modulo 2^32.
pub open spec fn weak_rng_step(seed: u32) -> u32 {
    ((seed * 1103515245 + 12345) % 0x1_0000_0000) as u32
}

/// This is a random number generator used when there is no true randomness
/// in our system. It is seeded with 1 by default and is deterministic:
/// the same seed always yields the same sequence. It can be reseeded at
/// any time.
pub struct WeakRng {
    seed: u32,
}

impl WeakRng {
    /// The current seed, as contracts speak of it.
    pub closed spec fn seed_spec(&self) -> u32 {
        self.seed
    }

    /// Create a new weak random number generator.
    pub fn new() -> (r: WeakRng)
        ensures
            r.seed_spec() == 1u32,
    {
        WeakRng { seed: 1 }
    }

    /// Reseed the weak random number generator.
    pub fn reseed(&mut self, seed: u32)
        ensures
            final(self).seed_spec() == seed,
    {
        self.seed = seed;
    }

    /// Get a new pseudo-random number.
    pub fn next(&mut self) -> (r: u32)
        ensures
            final(self).seed_spec() == weak_rng_step(old(self).seed_spec()),
            r == final(self).seed_spec(),
    {
        let stepped = self.seed as u64 * 1103515245 + 12345;
        self.seed = (stepped % 0x1_0000_0000) as u32;
        self.seed
    }
}

} // verus!
