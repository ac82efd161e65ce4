//! Seeded byte source for the matrix construction.
//!
//! The substitution matrix must be a deterministic function of the seed, so
//! the generator is modelled by its seed and by how many draws of each kind
//! have been made. Single-byte draws all happen before any three-byte draw,
//! which the contracts enforce; under that discipline the position of a draw
//! determines its result.

use vstd::prelude::*;
use rand::rngs::StdRng;
use rand::{Rng, RngCore, SeedableRng};

verus! {

#[verifier::external_type_specification]
#[verifier::external_body]
pub struct ExStdRng(StdRng);

/// The byte that the `idx`-th single-byte draw returns, when every draw
/// before it was also a single-byte draw from a generator seeded with `seed`.
pub uninterp spec fn seeded_byte(seed: u64, idx: nat) -> u8;

/// The three bytes that the `idx`-th three-byte draw returns, when the
/// generator was seeded with `seed` and consumed exactly `singles`
/// single-byte draws, all of them before the first three-byte draw.
pub uninterp spec fn seeded_triple(seed: u64, singles: nat, idx: nat) -> (u8, u8, u8);

/// A pseudo-random generator together with the draw history that pins its
/// state: the seed, and how many draws of each kind have been made.
pub struct DigitRng {
    pub inner: StdRng,
    pub seed: Ghost<u64>,
    pub singles: Ghost<nat>,
    pub triples: Ghost<nat>,
}

impl DigitRng {
    /// Relies on rand's `StdRng::seed_from_u64`: within the linked rand
    /// version, `StdRng` is a seeded stream-cipher generator whose output
    /// stream is a deterministic function of the seed.
    #[verifier::external_body]
    pub(crate) fn from_seed(seed: u64) -> (r: DigitRng)
        ensures
            r.seed@ == seed,
            r.singles@ == 0,
            r.triples@ == 0,
    {
        DigitRng {
            inner: StdRng::seed_from_u64(seed),
            seed: Ghost(seed),
            singles: Ghost(0nat),
            triples: Ghost(0nat),
        }
    }

    /// Relies on rand's `Rng::gen::<u8>`: it advances the generator and
    /// returns the next byte of its deterministic output stream, so with all
    /// draws so far being single-byte draws, the result is a function of the
    /// seed and the draw position alone.
    #[verifier::external_body]
    pub(crate) fn next_byte(&mut self) -> (r: u8)
        requires
            old(self).triples@ == 0,
        ensures
            final(self).seed@ == old(self).seed@,
            final(self).singles@ == old(self).singles@ + 1,
            final(self).triples@ == 0,
            r == seeded_byte(old(self).seed@, old(self).singles@),
    {
        self.inner.gen()
    }

    /// Relies on rand's `RngCore::fill_bytes`: it advances the generator and
    /// fills the buffer with the next bytes of its deterministic output
    /// stream, so the result is a function of the seed and of the draws made
    /// before it.
    #[verifier::external_body]
    pub(crate) fn next_triple(&mut self) -> (r: (u8, u8, u8))
        ensures
            final(self).seed@ == old(self).seed@,
            final(self).singles@ == old(self).singles@,
            final(self).triples@ == old(self).triples@ + 1,
            r == seeded_triple(old(self).seed@, old(self).singles@, old(self).triples@),
    {
        let mut buf = [0u8; 3];
        self.inner.fill_bytes(&mut buf);
        (buf[0], buf[1], buf[2])
    }
}

} // verus!
