//! The randomness capability the generation algorithms consume, and a seeded
//! generator implementing it, so callers control reproducibility.

use vstd::prelude::*;

verus! {

/// A source of randomness: the only two draws the maze algorithms need. A
/// caller may implement this with any generator; the library provides
/// [`SeededRand`], a deterministic generator built from a seed. Nothing is
/// assumed about which values come out beyond their range.
pub trait RandSource: Sized {
    /// A uniform integer in `[0, n)`.
    fn below(&mut self, n: usize) -> (r: usize)
        requires
            n > 0,
        ensures
            r < n,
    ;

    /// A coin flip.
    fn flip(&mut self) -> bool;
}

/// The pseudorandom generator behind [`SeededRand`], opaque to the verifier.
#[verifier::external_type_specification]
#[verifier::external_body]
pub struct ExSplitMix64(rand_xoshiro::SplitMix64);

/// A deterministic random generator seeded with a single integer: the same
/// seed always drives the generation algorithms to the same maze.
pub struct SeededRand {
    pub rng: rand_xoshiro::SplitMix64,
}

impl SeededRand {
    /// Relies on rand_xoshiro::SplitMix64::seed_from_u64, which builds the
    /// generator state deterministically from the seed.
    #[verifier::external_body]
    pub fn seeded(seed: u64) -> SeededRand {
        SeededRand { rng: <rand_xoshiro::SplitMix64 as rand::SeedableRng>::seed_from_u64(seed) }
    }

    /// Relies on rand::Rng::gen_range, which returns a uniform sample from
    /// the given non-empty range, here `0..n`.
    #[verifier::external_body]
    fn raw_below(&mut self, n: usize) -> (r: usize)
        requires
            n > 0,
        ensures
            r < n,
    {
        rand::Rng::gen_range(&mut self.rng, 0..n)
    }

    /// Relies on rand::Rng::gen with the Standard distribution on bool, which
    /// returns either truth value.
    #[verifier::external_body]
    fn raw_flip(&mut self) -> bool {
        rand::Rng::gen(&mut self.rng)
    }
}

impl RandSource for SeededRand {
    fn below(&mut self, n: usize) -> (r: usize) {
        self.raw_below(n)
    }

    fn flip(&mut self) -> bool {
        self.raw_flip()
    }
}

} // verus!
