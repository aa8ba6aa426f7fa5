//! Errors reported by the statistics functions and the coordinate type.

use vstd::prelude::*;

verus! {

/// Every failure the library reports. All variants are local computation
/// errors: they are returned to the immediate caller and never retried.
#[derive(Clone, Copy, Debug, PartialEq, Eq, Structural)]
pub enum MathError {
    /// A series function was given a zero-length series.
    EmptyInput,
    /// The two series handed to a correlation differ in length.
    LengthMismatch,
    /// Min-max scaling was asked to stretch a series whose elements are
    /// all equal (maximum == minimum).
    DegenerateRange,
    /// A scalar division was given a zero divisor.
    DivideByZero,
}

} // verus!
