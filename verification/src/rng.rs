//! Trusted boundary to the `rand` crate: a seeded `StdRng` together with a
//! ghost record of the draws made on it, so that contracts can speak of the
//! generator's output as a mathematical function.

use rand::rngs::StdRng;
use rand::Rng;
use rand::SeedableRng;
use vstd::prelude::*;

verus! {

#[verifier::external_type_specification]
#[verifier::external_body]
pub struct ExStdRng(StdRng);

/// The value that `rand`'s `gen_range(0..bound)` returns on a `StdRng`
/// seeded with `seed_from_u64(seed)` after earlier draws with the bounds in
/// `history`.  `StdRng` in the pinned `rand` version is a ChaCha-based
/// generator whose stream is a pure, platform-independent function of its
/// seed, so the draw is determined by these three arguments alone.
pub uninterp spec fn rng_next(seed: u64, history: Seq<u32>, bound: u32) -> u32;

/// A pseudo-random source seeded once, with the ghost draw history that the
/// contracts of its draws are phrased over.
pub struct SeededRng {
    rng: StdRng,
    seed: Ghost<u64>,
    history: Ghost<Seq<u32>>,
}

impl SeededRng {
    /// The seed this source was constructed with.
    pub closed spec fn seed(self) -> u64 {
        self.seed@
    }

    /// The bounds of the draws made so far, in order.
    pub closed spec fn history(self) -> Seq<u32> {
        self.history@
    }

    /// Relies on `rand::SeedableRng::seed_from_u64`: it builds the
    /// deterministic generator state for `seed`, before any draw.
    #[verifier::external_body]
    pub fn new(seed: u64) -> (r: SeededRng)
        ensures
            r.seed() == seed,
            r.history() == Seq::<u32>::empty(),
    {
        SeededRng { rng: StdRng::seed_from_u64(seed), seed: Ghost(seed), history: Ghost(Seq::empty()) }
    }

    /// Relies on `rand::Rng::gen_range` over `0..bound`: the draw lies below
    /// `bound` (the range is not empty, so it does not panic) and is the
    /// deterministic next value of the seeded stream.
    #[verifier::external_body]
    pub fn gen_below(&mut self, bound: u32) -> (r: u32)
        requires
            bound > 0,
        ensures
            r == rng_next(old(self).seed(), old(self).history(), bound),
            r < bound,
            final(self).seed() == old(self).seed(),
            final(self).history() == old(self).history().push(bound),
    {
        self.rng.gen_range(0..bound)
    }
}

} // verus!
