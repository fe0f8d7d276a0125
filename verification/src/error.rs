//! The failures that the procedures report.
use vstd::prelude::*;

verus! {

/// A value that cannot be converted to what was asked for.
#[derive(Debug, Clone, Copy, PartialEq, Eq, Structural)]
pub enum ConversionError {
    /// The element at `index` is not an integer from 0 to 255.
    ByteOutOfRange { index: usize },
    /// The element at `index` is not a Unicode scalar value.
    InvalidCodePoint { index: usize },
    /// An infinity or a NaN was asked to become an integer.
    NonFinite,
}

/// An integer division or remainder with a zero divisor.
#[derive(Debug, Clone, Copy, PartialEq, Eq, Structural)]
pub enum ArithmeticFailure {
    DivisionByZero,
}

} // verus!
