//! The shared scale constants and the checked arithmetic operation family.

use crate::error::MathError;
use vstd::prelude::*;

verus! {

/// Number of fractional decimal digits preserved by the fixed-point scale.
pub const SCALE: usize = 18;

/// Scale factor: a stored raw value equals the true value times `WAD` (10^18).
pub const WAD: u64 = 1_000_000_000_000_000_000;

/// Half of `WAD`, used for round-to-nearest conversions.
pub const HALF_WAD: u64 = 500_000_000_000_000_000;

/// `WAD / 100`: converts an integer percentage into a raw scaled value.
pub const PERCENT_SCALER: u64 = 10_000_000_000_000_000;

/// `WAD / 10_000`: converts basis points into a raw scaled value.
pub const BIPS_SCALER: u64 = 100_000_000_000_000;

/// 10^n as a mathematical integer.
pub open spec fn pow10(n: nat) -> nat
    decreases n,
{
    if n == 0 {
        1
    } else {
        10 * pow10((n - 1) as nat)
    }
}

/// 10^a divides evenly into 10^b whenever a <= b, so pow10 never decreases.
pub proof fn lemma_pow10_increases(a: nat, b: nat)
    requires
        a <= b,
    ensures
        pow10(a) <= pow10(b),
    decreases b - a,
{
    if a < b {
        lemma_pow10_increases(a, (b - 1) as nat);
    }
}

/// Checked same-type addition: the raw values are added directly, and a sum
/// past the storage width is reported rather than wrapped.
pub trait TryAdd: Sized {
    /// The exact result of `try_add` as a mathematical function.
    spec fn try_add_spec(self, rhs: Self) -> Result<Self, MathError>;

    fn try_add(self, rhs: Self) -> (r: Result<Self, MathError>)
        ensures
            r == self.try_add_spec(rhs),
    ;
}

/// Checked same-type subtraction: a borrow below zero is reported.
pub trait TrySub: Sized {
    /// The exact result of `try_sub` as a mathematical function.
    spec fn try_sub_spec(self, rhs: Self) -> Result<Self, MathError>;

    fn try_sub(self, rhs: Self) -> (r: Result<Self, MathError>)
        ensures
            r == self.try_sub_spec(rhs),
    ;
}

/// Checked multiplication by a right-hand side of type `Rhs`. Multiplying two
/// scaled values divides the raw product once by `WAD` to restore the scale;
/// multiplying by a plain integer has no rescale step.
pub trait TryMul<Rhs>: Sized {
    /// The exact result of `try_mul` as a mathematical function.
    spec fn try_mul_spec(self, rhs: Rhs) -> Result<Self, MathError>;

    fn try_mul(self, rhs: Rhs) -> (r: Result<Self, MathError>)
        ensures
            r == self.try_mul_spec(rhs),
    ;
}

/// Checked division by a right-hand side of type `Rhs`. Dividing by a scaled
/// value multiplies the raw dividend by `WAD` first to preserve the result's
/// fractional scale; dividing by a plain integer divides directly.
pub trait TryDiv<Rhs>: Sized {
    /// The exact result of `try_div` as a mathematical function.
    spec fn try_div_spec(self, rhs: Rhs) -> Result<Self, MathError>;

    fn try_div(self, rhs: Rhs) -> (r: Result<Self, MathError>)
        ensures
            r == self.try_div_spec(rhs),
    ;
}

} // verus!
