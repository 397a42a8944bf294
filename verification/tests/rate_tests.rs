use wad_math::{MathError, Rate, TryAdd, TryDiv, TryMul, TrySub, WAD};

#[test]
fn rate_constructors_scale_exactly() {
    assert_eq!(Rate::zero().to_scaled_val(), 0);
    assert_eq!(Rate::one().to_scaled_val(), WAD as u128);
    assert_eq!(Rate::from_percent(50).to_scaled_val(), 500_000_000_000_000_000);
    assert_eq!(Rate::from_bips(1).to_scaled_val(), 100_000_000_000_000);
    assert_eq!(Rate::from(1u64), Rate::one());
    assert_eq!(Rate::from_scaled_val(42).to_scaled_val(), 42);
}

#[test]
fn rate_rounding_modes() {
    let r = Rate::from_percent(150);
    assert_eq!(r.try_round_u64(), Ok(2));
    assert_eq!(r.try_ceil_u64(), Ok(2));
    assert_eq!(r.try_floor_u64(), Ok(1));
    for n in [0u64, 1, 7, u64::MAX] {
        let w = Rate::from(n);
        assert_eq!(w.try_round_u64(), Ok(n));
        assert_eq!(w.try_ceil_u64(), Ok(n));
        assert_eq!(w.try_floor_u64(), Ok(n));
    }
}

#[test]
fn rate_checked_arithmetic() {
    assert_eq!(
        Rate::from_percent(50).try_add(Rate::from_percent(25)),
        Ok(Rate::from_percent(75))
    );
    assert_eq!(
        Rate::from_percent(50).try_sub(Rate::from_percent(25)),
        Ok(Rate::from_percent(25))
    );
    assert_eq!(
        Rate::from_percent(50).try_mul(Rate::from_percent(50)),
        Ok(Rate::from_percent(25))
    );
    assert_eq!(Rate::from_percent(50).try_mul(4u64), Ok(Rate::from(2u64)));
    assert_eq!(Rate::from(1u64).try_div(Rate::from(4u64)), Ok(Rate::from_percent(25)));
    assert_eq!(Rate::from(1u64).try_div(4u64), Ok(Rate::from_percent(25)));
}

#[test]
fn rate_faults_are_reported() {
    assert_eq!(
        Rate::zero().try_sub(Rate::one()),
        Err(MathError::SubUnderflow)
    );
    assert_eq!(
        Rate::one().try_div(Rate::zero()),
        Err(MathError::DividedByZero)
    );
    assert_eq!(Rate::one().try_div(0u64), Err(MathError::DividedByZero));
    assert_eq!(
        Rate::from_scaled_val(u128::MAX).try_add(Rate::from_scaled_val(1)),
        Err(MathError::AddOverflow)
    );
    assert_eq!(
        Rate::from_scaled_val(u128::MAX).try_round_u64(),
        Err(MathError::AddOverflow)
    );
    assert_eq!(
        Rate::from_scaled_val(u128::MAX).try_div(Rate::one()),
        Err(MathError::MulOverflow)
    );
    assert_eq!(
        Rate::from_scaled_val(u128::MAX).try_floor_u64(),
        Err(MathError::UnableToRoundU64)
    );
}
