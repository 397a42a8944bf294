//! A compact fixed-point ratio: the scaled value held in 128 bits.
//!
//! A `Rate` uses the same scale factor as `Decimal` but half the storage
//! width, enough for interest rates and percentage factors. An operation
//! whose true result needs more than 128 bits must fail here even where the
//! analogous `Decimal` operation would succeed; that capacity difference is
//! why the two types are kept apart.

use crate::common::{TryAdd, TryDiv, TryMul, TrySub, BIPS_SCALER, HALF_WAD, PERCENT_SCALER, WAD};
use crate::error::MathError;
use crate::u192::{p128, p64};
use vstd::arithmetic::mul::lemma_mul_upper_bound;
use vstd::prelude::*;

verus! {

/// A ratio scaled by `WAD`, stored as one 128-bit raw value.
#[derive(Clone, Copy, Debug, Default, PartialEq, Eq, Structural)]
pub struct Rate(pub u128);

impl View for Rate {
    type V = nat;

    /// The raw scaled value.
    open spec fn view(&self) -> nat {
        self.0 as nat
    }
}

impl Rate {
    /// The rate one, i.e. a raw value of one whole `WAD`.
    pub fn one() -> (r: Rate)
        ensures
            r@ == WAD,
    {
        Rate(WAD as u128)
    }

    /// The rate zero.
    pub fn zero() -> (r: Rate)
        ensures
            r@ == 0,
    {
        Rate(0)
    }

    /// A scaled rate from an integer percentage.
    pub fn from_percent(percent: u8) -> (r: Rate)
        ensures
            r@ == percent * PERCENT_SCALER,
    {
        Rate((percent as u64 * PERCENT_SCALER) as u128)
    }

    /// A scaled rate from basis points; the scaling multiply must stay within
    /// 64 bits, as callers are required to ensure.
    pub fn from_bips(percent: u64) -> (r: Rate)
        requires
            percent * BIPS_SCALER <= u64::MAX,
        ensures
            r@ == percent * BIPS_SCALER,
    {
        Rate((percent * BIPS_SCALER) as u128)
    }

    /// The raw scaled value; a rate's storage is exactly 128 bits, so this
    /// conversion never fails.
    pub fn to_scaled_val(&self) -> (r: u128)
        ensures
            r == self@,
    {
        self.0
    }

    /// A rate wrapping a pre-scaled raw value directly.
    pub fn from_scaled_val(scaled_val: u128) -> (r: Rate)
        ensures
            r@ == scaled_val,
    {
        Rate(scaled_val)
    }

    /// The exact result of `try_round_u64`.
    pub open spec fn try_round_u64_spec(self) -> Result<u64, MathError> {
        if self@ + HALF_WAD >= p128() {
            Err(MathError::AddOverflow)
        } else if ((self@ + HALF_WAD) as nat) / (WAD as nat) >= p64() {
            Err(MathError::UnableToRoundU64)
        } else {
            Ok(((((self@ + HALF_WAD) as nat) / (WAD as nat)) as u64))
        }
    }

    /// Round the scaled rate half-up to a plain integer.
    pub fn try_round_u64(&self) -> (r: Result<u64, MathError>)
        ensures
            r == self.try_round_u64_spec(),
    {
        match self.0.checked_add(HALF_WAD as u128) {
            None => Err(MathError::AddOverflow),
            Some(t) => match t.checked_div(WAD as u128) {
                None => Err(MathError::DividedByZero),
                Some(q) => {
                    if q <= u64::MAX as u128 {
                        Ok(q as u64)
                    } else {
                        Err(MathError::UnableToRoundU64)
                    }
                },
            },
        }
    }

    /// The exact result of `try_ceil_u64`.
    pub open spec fn try_ceil_u64_spec(self) -> Result<u64, MathError> {
        if self@ + (WAD - 1) >= p128() {
            Err(MathError::AddOverflow)
        } else if ((self@ + (WAD - 1)) as nat) / (WAD as nat) >= p64() {
            Err(MathError::UnableToRoundU64)
        } else {
            Ok(((((self@ + (WAD - 1)) as nat) / (WAD as nat)) as u64))
        }
    }

    /// Round the scaled rate up to a plain integer.
    pub fn try_ceil_u64(&self) -> (r: Result<u64, MathError>)
        ensures
            r == self.try_ceil_u64_spec(),
    {
        match self.0.checked_add((WAD - 1) as u128) {
            None => Err(MathError::AddOverflow),
            Some(t) => match t.checked_div(WAD as u128) {
                None => Err(MathError::DividedByZero),
                Some(q) => {
                    if q <= u64::MAX as u128 {
                        Ok(q as u64)
                    } else {
                        Err(MathError::UnableToRoundU64)
                    }
                },
            },
        }
    }

    /// The exact result of `try_floor_u64`.
    pub open spec fn try_floor_u64_spec(self) -> Result<u64, MathError> {
        if self@ / (WAD as nat) >= p64() {
            Err(MathError::UnableToRoundU64)
        } else {
            Ok(((self@ / (WAD as nat)) as u64))
        }
    }

    /// Round the scaled rate down to a plain integer.
    pub fn try_floor_u64(&self) -> (r: Result<u64, MathError>)
        ensures
            r == self.try_floor_u64_spec(),
    {
        match self.0.checked_div(WAD as u128) {
            None => Err(MathError::DividedByZero),
            Some(q) => {
                if q <= u64::MAX as u128 {
                    Ok(q as u64)
                } else {
                    Err(MathError::UnableToRoundU64)
                }
            },
        }
    }
}

impl From<u64> for Rate {
    /// A whole-integer rate: the raw value is the integer times `WAD`.
    fn from(val: u64) -> (r: Rate) {
        proof {
            lemma_mul_upper_bound(val as int, 0xffff_ffff_ffff_ffff, WAD as int, WAD as int);
        }
        Rate((val as u128) * (WAD as u128))
    }
}

impl vstd::std_specs::convert::FromSpecImpl<u64> for Rate {
    open spec fn obeys_from_spec() -> bool {
        true
    }

    open spec fn from_spec(val: u64) -> Rate {
        Rate((val * WAD) as u128)
    }
}

impl TryAdd for Rate {
    open spec fn try_add_spec(self, rhs: Rate) -> Result<Rate, MathError> {
        if self@ + rhs@ < p128() {
            Ok(Rate(((self@ + rhs@) as u128)))
        } else {
            Err(MathError::AddOverflow)
        }
    }

    fn try_add(self, rhs: Rate) -> (r: Result<Rate, MathError>) {
        match self.0.checked_add(rhs.0) {
            None => Err(MathError::AddOverflow),
            Some(s) => Ok(Rate(s)),
        }
    }
}

impl TrySub for Rate {
    open spec fn try_sub_spec(self, rhs: Rate) -> Result<Rate, MathError> {
        if rhs@ <= self@ {
            Ok(Rate(((self@ - rhs@) as u128)))
        } else {
            Err(MathError::SubUnderflow)
        }
    }

    fn try_sub(self, rhs: Rate) -> (r: Result<Rate, MathError>) {
        match self.0.checked_sub(rhs.0) {
            None => Err(MathError::SubUnderflow),
            Some(d) => Ok(Rate(d)),
        }
    }
}

impl TryMul<u64> for Rate {
    open spec fn try_mul_spec(self, rhs: u64) -> Result<Rate, MathError> {
        if self@ * rhs >= p128() {
            Err(MathError::MulOverflow)
        } else {
            Ok(Rate(((self@ * rhs) as u128)))
        }
    }

    fn try_mul(self, rhs: u64) -> (r: Result<Rate, MathError>) {
        match self.0.checked_mul(rhs as u128) {
            None => Err(MathError::MulOverflow),
            Some(p) => Ok(Rate(p)),
        }
    }
}

impl TryMul<Rate> for Rate {
    open spec fn try_mul_spec(self, rhs: Rate) -> Result<Rate, MathError> {
        if self@ * rhs@ >= p128() {
            Err(MathError::MulOverflow)
        } else {
            Ok(Rate((((self@ * rhs@) as nat / (WAD as nat)) as u128)))
        }
    }

    fn try_mul(self, rhs: Rate) -> (r: Result<Rate, MathError>) {
        match self.0.checked_mul(rhs.0) {
            None => Err(MathError::MulOverflow),
            Some(p) => match p.checked_div(WAD as u128) {
                None => Err(MathError::DividedByZero),
                Some(q) => Ok(Rate(q)),
            },
        }
    }
}

impl TryDiv<u64> for Rate {
    open spec fn try_div_spec(self, rhs: u64) -> Result<Rate, MathError> {
        if rhs == 0 {
            Err(MathError::DividedByZero)
        } else {
            Ok(Rate(((self@ / rhs as nat) as u128)))
        }
    }

    fn try_div(self, rhs: u64) -> (r: Result<Rate, MathError>) {
        match self.0.checked_div(rhs as u128) {
            None => Err(MathError::DividedByZero),
            Some(q) => Ok(Rate(q)),
        }
    }
}

impl TryDiv<Rate> for Rate {
    open spec fn try_div_spec(self, rhs: Rate) -> Result<Rate, MathError> {
        if self@ * WAD >= p128() {
            Err(MathError::MulOverflow)
        } else if rhs@ == 0 {
            Err(MathError::DividedByZero)
        } else {
            Ok(Rate((((self@ * WAD) as nat / rhs@) as u128)))
        }
    }

    fn try_div(self, rhs: Rate) -> (r: Result<Rate, MathError>) {
        match self.0.checked_mul(WAD as u128) {
            None => Err(MathError::MulOverflow),
            Some(p) => match p.checked_div(rhs.0) {
                None => Err(MathError::DividedByZero),
                Some(q) => Ok(Rate(q)),
            },
        }
    }
}

} // verus!
