//! Seeded pseudo-randomness.  A `SeededRng` wraps the standard seeded
//! generator of the `rand` crate together with the seed it was built from
//! and the number of 64-bit words drawn so far, so that the word stream can
//! be spoken of as a function of the seed alone: both prover and verifier
//! must be able to re-derive the same audit subset from the same seed.

use vstd::prelude::*;
use crate::scalar::Scalar;
use rand::{RngCore, SeedableRng};

verus! {

/// The `k`-th 64-bit word of the stream that the standard seeded generator
/// (`rand::rngs::StdRng`) produces from the given 32-byte seed.  The stream
/// is a pure function of the seed: `StdRng` is documented as a
/// deterministic pseudo-random generator, reproducible from its seed for a
/// fixed version of the crate.
pub uninterp spec fn stdrng_word(seed: Seq<u8>, k: int) -> u64;

#[verifier::external_type_specification]
#[verifier::external_body]
pub struct ExStdRng(rand::rngs::StdRng);

/// A deterministic generator together with the seed that built it and the
/// position reached in its word stream.
pub struct SeededRng {
    inner: rand::rngs::StdRng,
    seed: [u8; 32],
    pos: u128,
}

impl SeededRng {
    /// The seed this generator was built from.
    pub closed spec fn seed_of(self) -> Seq<u8> {
        self.seed@
    }

    /// How many 64-bit words have been drawn so far.
    pub closed spec fn pos_of(self) -> int {
        self.pos as int
    }

    /// Relies on `rand::rngs::StdRng::from_seed`: builds the deterministic
    /// generator for this seed, positioned at the start of its stream.
    #[verifier::external_body]
    pub fn from_seed(seed: &Vec<u8>) -> (r: SeededRng)
        requires
            seed@.len() == 32,
        ensures
            r.seed_of() == seed@,
            r.pos_of() == 0,
    {
        let mut arr = [0u8; 32];
        arr.copy_from_slice(seed.as_slice());
        SeededRng { inner: rand::rngs::StdRng::from_seed(arr), seed: arr, pos: 0 }
    }

    /// Relies on `rand::RngCore::next_u64` on `StdRng`: returns the next
    /// word of the seed-determined stream and advances by one.
    #[verifier::external_body]
    pub fn next_word(&mut self) -> (w: u64)
        ensures
            final(self).seed_of() == old(self).seed_of(),
            final(self).pos_of() == old(self).pos_of() + 1,
            w == stdrng_word(old(self).seed_of(), old(self).pos_of()),
    {
        self.pos += 1;
        self.inner.next_u64()
    }
}

/// A generator used only to draw fresh field elements, e.g. encryption
/// randomness.  Unlike `SeededRng`, nothing is stated about its stream, so
/// it never enters a determinism argument; seeding it merely makes runs
/// reproducible in tests.
pub struct EntropyRng {
    inner: rand::rngs::StdRng,
}

impl EntropyRng {
    /// Relies on `rand::rngs::StdRng::from_seed`.
    #[verifier::external_body]
    pub fn from_seed(seed: &Vec<u8>) -> (r: EntropyRng)
        requires
            seed@.len() == 32,
    {
        let mut arr = [0u8; 32];
        arr.copy_from_slice(seed.as_slice());
        EntropyRng { inner: rand::rngs::StdRng::from_seed(arr) }
    }

    /// Relies on `ark_ff::UniformRand`: draws a uniformly random field
    /// element in canonical form.  Only canonicity is stated, which holds
    /// of every outcome of the draw.
    #[verifier::external_body]
    pub fn rand_scalar(&mut self) -> (r: Scalar)
        ensures
            r.wf(),
    {
        let f = <ark_bls12_381::Fr as ark_ff::UniformRand>::rand(&mut self.inner);
        let l = ark_ff::PrimeField::into_bigint(f).0;
        Scalar { l0: l[0], l1: l[1], l2: l[2], l3: l[3] }
    }
}

} // verus!
