//! The sum-check protocol over prime fields of word size.
//!
//! A prover convinces a verifier that a multivariate polynomial sums to a
//! claimed value over the Boolean hypercube. Field and univariate polynomial
//! arithmetic is carried out by `lambdaworks_math`; the multivariate
//! polynomial model, the prover's round derivation and the verifier's checks
//! are verified against a mathematical model over the integers.

pub mod errors;
pub mod field;
pub mod hypercube;
pub mod polynomial;
pub mod protocol;
pub mod round;
pub mod sumcheck;
pub mod univariate;
