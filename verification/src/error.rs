use vstd::prelude::*;

verus! {

/// Every failure a checked fixed-point operation can report. The set is
/// closed and a variant carries no data beyond its kind; callers are
/// expected to propagate a failure upward immediately.
#[derive(Clone, Copy, Debug, PartialEq, Eq, Structural)]
pub enum MathError {
    /// A sum exceeded the storage width.
    AddOverflow,
    /// The subtrahend exceeded the minuend.
    SubUnderflow,
    /// A product exceeded the storage width, in a raw multiply or in the
    /// rescale step of a division.
    MulOverflow,
    /// The divisor's raw value was zero.
    DividedByZero,
    /// A rounded or truncated result exceeded the 64-bit range.
    UnableToRoundU64,
    /// A raw scaled value exceeded the 128-bit range.
    UnableToRoundU128,
}

} // verus!
