//! The ways in which a fit can fail.

use vstd::prelude::*;

verus! {

/// Why no coefficients were produced.
#[derive(Debug, Clone, Copy, PartialEq, Eq, Structural)]
pub enum SolveError {
    /// The observation sequences are empty or differ in length, or the data
    /// handed over does not have the shape of a two-column system.
    InvalidInput,
    /// The normal matrix has no inverse, so no unique line fits the data.
    SingularSystem,
}

} // verus!
