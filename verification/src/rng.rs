//! The seeded pseudorandom generator behind the evolutionary search.
//!
//! The generator is rand_chacha's ChaCha8 stream cipher generator.
//! Its output after seeding is a pure function of the seed: seeding
//! expands the seed arithmetically (no entropy source is consulted)
//! and each block is a function of the key and the block counter.
//! That function is named here, uninterpreted, as `chacha_stream`,
//! so that everything built on the generator is deterministic in the
//! seed — the property the search engine's reproducibility rests on.

use vstd::prelude::*;

use rand::RngCore;
use rand::SeedableRng;
use rand_chacha::ChaCha8Rng;

verus! {

#[verifier::external_type_specification]
#[verifier::external_body]
pub struct ExChaCha8Rng(ChaCha8Rng);

/// The value that the ChaCha8 generator seeded with `seed` returns
/// on its `idx`-th 64-bit draw.  A pure function of both arguments.
pub uninterp spec fn chacha_stream(seed: u64, idx: nat) -> u64;

/// A seeded ChaCha8 generator together with the seed it was built
/// from and the number of draws made so far.
pub struct SeededRng {
    inner: ChaCha8Rng,
    seed: Ghost<u64>,
    idx: Ghost<nat>,
}

impl SeededRng {
    /// The seed this generator was built from.
    pub closed spec fn seed(&self) -> u64 {
        self.seed@
    }

    /// How many 64-bit values have been drawn.
    pub closed spec fn idx(&self) -> nat {
        self.idx@
    }

    /// Relies on ChaCha8Rng::seed_from_u64 (rand_core's PCG32 seed
    /// expansion followed by from_seed): a pure function of the seed.
    #[verifier::external_body]
    pub fn new(seed: u64) -> (r: Self)
        ensures
            r.seed() == seed,
            r.idx() == 0,
    {
        SeededRng { inner: ChaCha8Rng::seed_from_u64(seed), seed: Ghost(seed), idx: Ghost(0) }
    }

    /// Relies on ChaCha8Rng::next_u64: the next value of the keystream,
    /// a pure function of the generator state, here named by the seed
    /// and the draw index that this wrapper carries alongside it.
    #[verifier::external_body]
    pub fn next_u64(&mut self) -> (r: u64)
        ensures
            r == chacha_stream(old(self).seed(), old(self).idx()),
            final(self).seed() == old(self).seed(),
            final(self).idx() == old(self).idx() + 1,
    {
        self.inner.next_u64()
    }

    /// A draw reduced below `n`.
    pub fn next_below(&mut self, n: usize) -> (r: usize)
        requires
            n >= 1,
        ensures
            r < n,
            r == chacha_stream(old(self).seed(), old(self).idx()) as int % (n as int),
            final(self).seed() == old(self).seed(),
            final(self).idx() == old(self).idx() + 1,
    {
        let v = self.next_u64();
        (v % (n as u64)) as usize
    }

    /// Whether an event of the given probability, in millionths,
    /// fires on this draw.
    pub fn chance_ppm(&mut self, ppm: u32) -> (b: bool)
        ensures
            b == (chacha_stream(old(self).seed(), old(self).idx()) as int % 1000000 < ppm as int),
            final(self).seed() == old(self).seed(),
            final(self).idx() == old(self).idx() + 1,
    {
        let v = self.next_u64();
        (v % 1000000) < ppm as u64
    }
}

} // verus!
