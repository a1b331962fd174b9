//! Prover side of a batched polynomial-opening protocol for a KZG-style
//! polynomial commitment scheme.
//!
//! Callers supply polynomials together with claimed evaluations at chosen
//! points. The prover groups the queries by evaluation point, combines each
//! group into a single polynomial with a random challenge, divides by the
//! linear factor of the point, commits to the quotient, and writes one
//! witness commitment per group to a Fiat-Shamir transcript.

pub mod field;
pub mod group;
pub mod laws;
pub mod params;
pub mod poly;
pub mod prover;
pub mod query;
pub mod transcript;
