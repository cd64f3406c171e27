//! Errors surfaced by the arithmetic core.

use vstd::prelude::*;

verus! {

/// Everything that can fail in this crate: invalid distribution
/// parameters, a transform degree with no primitive root, and a
/// transform-table store that could not be installed.
#[derive(Clone, Copy, Debug, PartialEq, Eq, Structural)]
pub enum AlgebraError {
    /// A sampling distribution was built from invalid parameters.
    DistributionError,
    /// No primitive root of the requested degree exists (or was found
    /// within the bounded search) for the modulus.
    NoPrimitiveRoot { degree: u32, modulus: u32 },
    /// The transform-table store could not be created.
    NTTTableError,
}

} // verus!
