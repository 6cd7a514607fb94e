//! The errors of the proving core.
use vstd::prelude::*;

verus! {

/// What can go wrong while building a circuit or the proof's polynomials.
#[derive(Clone, Copy, Debug, PartialEq, Eq, Structural)]
pub enum PlonkError {
    /// The quotient domain is not a multiple of the circuit domain.
    SetupError,
    /// A zero element was to be inverted.
    DivisionByZero,
    /// A challenge was inserted or read out of order.
    ChallengeError,
    /// A slice of wire or selector values has the wrong length.
    FuncParamsError,
    /// The witness does not satisfy the circuit.
    VerificationError,
    /// No evaluation domain of a power-of-two size at least this many rows
    /// divides the order of the field's multiplicative group.
    GroupNotFound(usize),
    /// The public inputs do not match the circuit's public rows.
    PublicInputError,
}

} // verus!
