//! The conditions under which an operation refuses its input.

use vstd::prelude::*;

verus! {

/// Why an operation was refused. A refused operation has changed nothing.
#[derive(Clone, Copy, Debug, PartialEq, Eq, Structural)]
pub enum Error {
    /// The dimensions of the operands do not fit together.
    ShapeMismatch,
    /// The number of qubit indices differs from a gate's arity.
    ArityMismatch,
    /// The state is empty, or its length is no multiple of a gate's dimension.
    InvalidStateSize,
    /// A qubit index names a line that the state does not have.
    OutOfRange,
}

impl Error {
    /// A short description of the condition.
    pub fn message(&self) -> (text: &'static str)
        ensures
            text@ == match *self {
                Error::ShapeMismatch => "operand shapes do not match"@,
                Error::ArityMismatch => "number of qubit indices differs from gate arity"@,
                Error::InvalidStateSize => "state size is not a positive multiple of a gate's dimension"@,
                Error::OutOfRange => "qubit index out of range"@,
            },
    {
        match self {
            Error::ShapeMismatch => "operand shapes do not match",
            Error::ArityMismatch => "number of qubit indices differs from gate arity",
            Error::InvalidStateSize => "state size is not a positive multiple of a gate's dimension",
            Error::OutOfRange => "qubit index out of range",
        }
    }
}

} // verus!
