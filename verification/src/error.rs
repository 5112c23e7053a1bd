//! The ways in which an operation on a register can fail.

use vstd::prelude::*;

verus! {

/// Why an operation was given up.
#[derive(Clone, Copy, Debug, PartialEq, Eq, Structural)]
pub enum RegisterError {
    /// A register was asked for with no qubits.
    InvalidArgument,
    /// The weights handed to the sampler do not sum to one within the tolerance.
    InvalidDistribution,
    /// The amplitudes that are left after a partial measurement cannot be brought
    /// back to norm one within the tolerance.
    InternalInconsistency,
}

} // verus!
