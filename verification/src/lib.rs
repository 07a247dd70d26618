//! Probabilistic audit protocol for ElGamal-encrypted polynomial evaluations
//! over the BLS12-381 scalar field and group `G1`.
//!
//! A prover holds a vector of secret field elements, commits to them, and
//! publishes an ElGamal ciphertext vector that is claimed to encrypt exactly
//! those elements.  The modules below build the encryption proof, derive a
//! deterministic audit subset from a commitment (Fiat-Shamir), project the
//! proof and the evaluations onto that subset, and persist a whole session
//! as a verified byte encoding.

pub mod domain;
pub mod elgamal;
pub mod encryption;
pub mod point;
pub mod rng;
pub mod scalar;
pub mod session;
pub mod split;
pub mod veck;

use vstd::prelude::*;

verus! {

/// Failures reported to callers of the fallible operations.
#[derive(Clone, Copy, PartialEq, Eq, Structural, Debug)]
pub enum Error {
    /// A requested evaluation-domain size is not supported by the field.
    InvalidDomainSize,
    /// An audit parameter is out of range, e.g. the subset is larger than
    /// the domain it is drawn from.
    InvalidParameters,
    /// Persisted session bytes are malformed or truncated.
    DeserializationFailed,
    /// Rejection sampling spent its whole draw budget without collecting
    /// enough distinct indices.  Termination of rejection sampling is a
    /// probabilistic matter, so the sampler carries an explicit budget so
    /// large that this cannot happen in practice.
    SamplingExhausted,
}

} // verus!
