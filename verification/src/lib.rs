//! A verified implementation of the ML-KEM key-encapsulation mechanism.
//!
//! The computational core — polynomial-ring arithmetic with a number-theoretic
//! transform, rejection and centered-binomial sampling, lossy compression,
//! bit-exact serialization, the IND-CPA K-PKE primitive and the CCA wrapper
//! with implicit rejection — is specified by contracts and verified.  The
//! SHA-3 family primitives and the system randomness source are trusted
//! collaborators reached through thin wrappers.

pub mod crypt;
pub mod kpke;
pub mod mlkem;
pub mod ntt_lemmas;
pub mod params;
pub mod ring;
pub mod sample;
pub mod serialize;
pub mod util;
