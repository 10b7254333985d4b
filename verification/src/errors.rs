use vstd::prelude::*;

verus! {

/// Failure conditions of the field and curve operations.
///
/// Every failure is local and synchronous: an operation either returns a
/// value or one of these conditions, and never a silently wrong answer.
#[derive(Clone, Copy, Debug, PartialEq, Eq, Structural)]
pub enum Errors {
    /// Operands of a field operation have different moduli.
    IncompatibleField,
    /// Supplied coordinates do not satisfy the curve equation.
    InvalidPoint,
    /// The divisor of a field division is the zero residue.
    DivisionByZero,
}

} // verus!
