//! Zero-knowledge range proofs over BLS12-381: a prover convinces a verifier
//! that a committed scalar `z` lies in `[0, 2^n)`, using KZG polynomial
//! commitments and a Fiat-Shamir transcript.
//!
//! - `field`, `group`, `poly`: field elements, curve points and polynomials
//!   as plain values, with their arithmetic delegated to arkworks.
//! - `commitment_scheme`: setup, commitments and opening witnesses.
//! - `transcript`: the Fiat-Shamir transcript as a history of entries.
//! - `polynomial`: the constraint polynomials that encode the statement.
//! - `range_proof`: the proof object, its encoding, `prove` and `verify`.
//! - `utils`: byte and bit views of `bls12_381` scalars.

pub mod commitment_scheme;
pub mod field;
pub mod group;
pub mod poly;
pub mod polynomial;
pub mod range_proof;
pub mod transcript;
pub mod utils;
