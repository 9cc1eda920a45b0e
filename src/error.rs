//! The ways the operations of this library reject their arguments.

use vstd::prelude::*;

verus! {

/// Why an argument was rejected.
#[derive(Clone, Copy, Debug, PartialEq, Eq, Structural)]
pub enum FkError {
    /// Zero was given where a positive size is needed.
    ZeroSize,
    /// The requested size exceeds what can be represented or transformed.
    TooLarge,
    /// A matrix representation's length is not a power of two.
    NotPowerOfTwo,
    /// A vector's length differs from the matrix dimension.
    DimensionMismatch,
    /// A polynomial of degree zero has no strictly upper part.
    ZeroDegree,
}

} // verus!
