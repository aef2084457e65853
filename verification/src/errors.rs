//! The ways in which a call can be refused.

use vstd::prelude::*;

verus! {

/// Why a polynomial operation or a protocol run was refused. A rejected
/// claim is not an error: the verifier reports it as `Ok(false)`.
#[derive(Debug, Clone, Copy, PartialEq, Eq, Structural)]
pub enum Error {
    /// The number of values handed over differs from the polynomial's
    /// number of variables.
    AssignmentLength,
    /// A factor names a variable at or beyond the polynomial's number of
    /// variables.
    TermIndexOutOfRange,
    /// A round was asked for although every variable is already fixed.
    NoFreeVariable,
    /// The variable of the round that was asked for has a factor whose
    /// power exceeds `MAX_POWER`, the largest degree of a round polynomial.
    PowerTooLarge,
    /// More than `MAX_FREE_VARS` variables are still free, so the points of
    /// the hypercube cannot be counted in a machine word.
    TooManyVariables,
}

} // verus!
