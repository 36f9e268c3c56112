//! Failures that the engine reports to its caller.

use vstd::prelude::*;

verus! {

/// Why an engine operation could not produce a number.
#[derive(Clone, Copy, Debug, PartialEq, Eq, Structural)]
pub enum SwapError {
    /// The pool record is malformed: fewer than two assets, a zero
    /// amplification, or a balance or price vector of the wrong length.
    InvalidPool,
    /// An asset index is out of range, or an amount vector does not have one
    /// entry per asset.
    InvalidInput,
    /// A result does not fit in 128 bits, or a subtraction would go negative.
    Overflow,
    /// A divisor is zero (for instance an empty reserve or no pool tokens).
    DivideByZero,
}

} // verus!
