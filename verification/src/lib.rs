//! Overflow-checked fixed-point arithmetic for token amounts and rates.
//!
//! Values are scaled by `WAD` (10^18) so that eighteen fractional decimal
//! digits are preserved exactly. `Decimal` stores its scaled value in 192
//! bits, wide enough for products of two 64-bit amounts; `Rate` stores its
//! scaled value in 128 bits, enough for ratios and percentages. Every
//! arithmetic operation is checked: a result that does not fit is reported
//! through `MathError`, never wrapped, clamped or truncated.

mod common;
mod decimal;
mod error;
mod laws;
mod rate;
mod u192;

pub use common::{
    TryAdd, TryDiv, TryMul, TrySub, BIPS_SCALER, HALF_WAD, PERCENT_SCALER, SCALE, WAD,
};
pub use decimal::Decimal;
pub use error::MathError;
pub use laws::{
    lemma_ceil_formula, lemma_codec_round_trip, lemma_decimal_div_by_zero,
    lemma_decimal_div_u64_by_zero, lemma_decimal_sub_underflow, lemma_decimal_zero_add,
    lemma_from_u64_round_trip, lemma_one_mul_one, lemma_rate_div_by_zero,
    lemma_rate_sub_underflow, lemma_round_formula,
};
pub use rate::Rate;
pub use u192::U192;
