//! Secure multi-party summation over the prime field of 127 elements.
//!
//! Each party hides its secret in the constant term of a random polynomial,
//! hands one evaluation of that polynomial to every peer, adds up the
//! evaluations it received, and publishes that partial sum. Lagrange
//! interpolation over the partial sums then yields the sum of all secrets
//! without any party having seen another party's secret.
//!
//! - `field`, `field_lemmas`: the field and the laws of its arithmetic.
//! - `polynomial`: polynomials over the field and their evaluation.
//! - `lagrange`, `lagrange_lemmas`: interpolation at zero, and why it is
//!   right.
//! - `shamir_secret_sharing`: sharing a secret and recovering it.
//! - `secrecy`: why too few shares reveal nothing.
//! - `protocol`: the commands that parties exchange, as messages.
//! - `party`: what a party holds and what each command makes of it.
//! - `connection`: the order and the pauses of the attempts to reach the
//!   peers.
//! - `config`: the parties of a run as they are named at the start.

pub mod config;
pub mod connection;
pub mod field;
pub mod field_lemmas;
pub mod lagrange;
pub mod lagrange_lemmas;
pub mod party;
pub mod polynomial;
pub mod protocol;
pub mod secrecy;
pub mod shamir_secret_sharing;
