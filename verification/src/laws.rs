//! The library-wide laws, proved once and for all inputs from the exact
//! contracts of the operations they relate.

use crate::common::{TryAdd, TryDiv, TryMul, TrySub, WAD};
use crate::decimal::{le_bytes16, le_bytes_value, Decimal};
use crate::error::MathError;
use crate::rate::Rate;
use crate::u192::{lemma_canonical, lemma_from_nat_as_nat, p128, p192};
use vstd::arithmetic::div_mod::{
    lemma_basic_div, lemma_div_multiples_vanish, lemma_fundamental_div_mod,
    lemma_fundamental_div_mod_converse, lemma_hoist_over_denominator,
};
use vstd::arithmetic::mul::lemma_mul_upper_bound;
use vstd::arithmetic::power2::{lemma2_to64, lemma_pow2_adds, pow2};
use vstd::prelude::*;

verus! {

/// Integers round-trip exactly under every rounding mode: a decimal built
/// from a plain 64-bit integer floors, ceils and rounds back to it.
pub proof fn lemma_from_u64_round_trip(n: u64)
    ensures
        Decimal::from_u64_spec(n).try_floor_u64_spec() == Ok::<u64, MathError>(n),
        Decimal::from_u64_spec(n).try_ceil_u64_spec() == Ok::<u64, MathError>(n),
        Decimal::from_u64_spec(n).try_round_u64_spec() == Ok::<u64, MathError>(n),
{
    lemma_mul_upper_bound(n as int, 0xffff_ffff_ffff_ffff, WAD as int, WAD as int);
    lemma_from_nat_as_nat((n * WAD) as nat);
    let d = Decimal::from_u64_spec(n);
    assert(d@ == n * WAD);
    lemma_div_multiples_vanish(n as int, WAD as int);
    assert((n * WAD) as int == WAD as int * n as int) by (nonlinear_arith);
    assert(d@ as int / WAD as int == n);
    lemma_hoist_over_denominator(crate::common::HALF_WAD as int, n as int, WAD as nat);
    lemma_basic_div(crate::common::HALF_WAD as int, WAD as int);
    assert((d@ + crate::common::HALF_WAD) as int / WAD as int == n);
    lemma_hoist_over_denominator(WAD as int - 1, n as int, WAD as nat);
    lemma_basic_div(WAD as int - 1, WAD as int);
    assert((d@ + (WAD - 1)) as int / WAD as int == n);
}

/// Multiplying one by one gives one: the rescale step divides the squared
/// scale factor back out exactly.
pub proof fn lemma_one_mul_one()
    ensures
        Decimal::from_nat(WAD as nat).try_mul_spec(Decimal::from_nat(WAD as nat))
            == Ok::<Decimal, MathError>(Decimal::from_nat(WAD as nat)),
{
    lemma_from_nat_as_nat(WAD as nat);
    let one = Decimal::from_nat(WAD as nat);
    assert(one@ == WAD);
    lemma_div_multiples_vanish(WAD as int, WAD as int);
    assert((one@ * one@) as int == WAD as int * WAD as int) by (nonlinear_arith)
        requires
            one@ == WAD,
    ;
}

/// Adding a decimal to zero returns it unchanged, for every decimal.
pub proof fn lemma_decimal_zero_add(x: Decimal)
    ensures
        Decimal::from_nat(0).try_add_spec(x) == Ok::<Decimal, MathError>(x),
{
    lemma_from_nat_as_nat(0);
    lemma_canonical(x.0);
}

/// Dividing by a zero-valued decimal reports `DividedByZero` whenever the
/// rescale multiply itself fits, for every dividend.
pub proof fn lemma_decimal_div_by_zero(lhs: Decimal, rhs: Decimal)
    requires
        rhs@ == 0,
        lhs@ * WAD < p192(),
    ensures
        lhs.try_div_spec(rhs) == Err::<Decimal, MathError>(MathError::DividedByZero),
{
}

/// Dividing a decimal by the plain integer zero always reports
/// `DividedByZero`, for every dividend.
pub proof fn lemma_decimal_div_u64_by_zero(lhs: Decimal)
    ensures
        lhs.try_div_spec(0u64) == Err::<Decimal, MathError>(MathError::DividedByZero),
{
}

/// Dividing by a zero-valued rate reports `DividedByZero` whenever the
/// rescale multiply itself fits, for every dividend.
pub proof fn lemma_rate_div_by_zero(lhs: Rate, rhs: Rate)
    requires
        rhs@ == 0,
        lhs@ * WAD < p128(),
    ensures
        lhs.try_div_spec(rhs) == Err::<Rate, MathError>(MathError::DividedByZero),
{
}

/// Subtracting a strictly larger decimal always reports `SubUnderflow`.
pub proof fn lemma_decimal_sub_underflow(lhs: Decimal, rhs: Decimal)
    requires
        lhs@ < rhs@,
    ensures
        lhs.try_sub_spec(rhs) == Err::<Decimal, MathError>(MathError::SubUnderflow),
{
}

/// Subtracting a strictly larger rate always reports `SubUnderflow`.
pub proof fn lemma_rate_sub_underflow(lhs: Rate, rhs: Rate)
    requires
        lhs@ < rhs@,
    ensures
        lhs.try_sub_spec(rhs) == Err::<Rate, MathError>(MathError::SubUnderflow),
{
}

/// The ceiling formula really takes the ceiling: a raw value that is an
/// exact multiple of the scale divides evenly, and anything else rounds up
/// by exactly one.
pub proof fn lemma_ceil_formula(x: nat)
    ensures
        ((x + (WAD - 1)) as nat) / (WAD as nat) == if x % (WAD as nat) == 0 {
            x / (WAD as nat)
        } else {
            x / (WAD as nat) + 1
        },
{
    lemma_fundamental_div_mod(x as int, WAD as int);
    let q = x / (WAD as nat);
    let r = x % (WAD as nat);
    if r == 0 {
        lemma_hoist_over_denominator((WAD - 1) as int, q as int, WAD as nat);
        lemma_basic_div((WAD - 1) as int, WAD as int);
    } else {
        lemma_hoist_over_denominator((r + WAD - 1) as int, q as int, WAD as nat);
        lemma_fundamental_div_mod_converse(
            (r + WAD - 1) as int,
            WAD as int,
            1,
            (r - 1) as int,
        );
    }
}

/// The rounding formula really rounds half-up: a fractional part of at
/// least one half goes to the next integer, anything smaller is dropped.
pub proof fn lemma_round_formula(x: nat)
    ensures
        ((x + crate::common::HALF_WAD) as nat) / (WAD as nat) == if x % (WAD as nat)
            >= crate::common::HALF_WAD {
            x / (WAD as nat) + 1
        } else {
            x / (WAD as nat)
        },
{
    lemma_fundamental_div_mod(x as int, WAD as int);
    let q = x / (WAD as nat);
    let r = x % (WAD as nat);
    let h = crate::common::HALF_WAD;
    lemma_hoist_over_denominator((r + h) as int, q as int, WAD as nat);
    if r >= h {
        lemma_fundamental_div_mod_converse((r + h) as int, WAD as int, 1, (r + h - WAD) as int);
    } else {
        lemma_basic_div((r + h) as int, WAD as int);
    }
}

/// The binary codec round-trips: decoding the 16 bytes that encode any
/// decimal whose raw value fits in 128 bits gives that decimal back.
pub proof fn lemma_codec_round_trip(d: Decimal)
    requires
        d@ < p128(),
    ensures
        Decimal::from_nat(le_bytes_value(le_bytes16(d@))) == d,
{
    lemma2_to64();
    lemma_pow2_adds(64, 64);
    assert(pow2(8 * 16) == p128());
    crate::decimal::lemma_le_bytes_roundtrip(d@, 16);
    assert(le_bytes16(d@) =~= Seq::new(16, |i: int| crate::decimal::le_byte(d@, i as nat)));
    lemma_canonical(d.0);
}

} // verus!
