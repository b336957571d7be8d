//! The ways in which the shape of an operand can be rejected.
use vstd::prelude::*;

verus! {

/// Why an operation refused its operands. Shapes are examined before any
/// element is touched, so an error never leaves a partial result behind.
#[derive(Clone, Copy, Debug, PartialEq, Eq, Structural)]
pub enum InvariantError {
    /// The dimensions of the two operands do not fit each other.
    ShapeMismatch,
    /// The matrix has a width that differs from its height.
    NonSquare,
    /// The side is not the fragment size times a power of two.
    NotPowerOfTwoMultipleOfF,
}

impl InvariantError {
    /// The sentence that describes the error.
    pub open spec fn description(self) -> Seq<char> {
        match self {
            InvariantError::ShapeMismatch => "The dimensions of the operands do not match"@,
            InvariantError::NonSquare => "We support only square matrices"@,
            InvariantError::NotPowerOfTwoMultipleOfF => "Matrix size must be the fragment size times a power of 2"@,
        }
    }

    /// The sentence that describes the error.
    pub fn message(&self) -> (text: &'static str)
        ensures
            text@ == self.description(),
    {
        match self {
            InvariantError::ShapeMismatch => "The dimensions of the operands do not match",
            InvariantError::NonSquare => "We support only square matrices",
            InvariantError::NotPowerOfTwoMultipleOfF => "Matrix size must be the fragment size times a power of 2",
        }
    }
}

} // verus!
