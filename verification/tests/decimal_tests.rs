use wad_math::{Decimal, MathError, Rate, TryAdd, TryDiv, TryMul, TrySub, SCALE, U192, WAD};

#[test]
fn test_scaler() {
    assert_eq!(U192::exp10(SCALE), Decimal::wad());
}

#[test]
fn integers_round_trip_under_every_rounding_mode() {
    for n in [0u64, 1, 2, 999, 1_000_000, u64::MAX - 1, u64::MAX] {
        let d = Decimal::from(n);
        assert_eq!(d.try_floor_u64(), Ok(n));
        assert_eq!(d.try_ceil_u64(), Ok(n));
        assert_eq!(d.try_round_u64(), Ok(n));
    }
}

#[test]
fn three_halves_rounds_each_way() {
    let d = Decimal::from(3u64).try_div(Decimal::from(2u64)).unwrap();
    assert_eq!(d.to_scaled_val(), Ok(1_500_000_000_000_000_000u128));
    assert_eq!(d.try_round_u64(), Ok(2));
    assert_eq!(d.try_floor_u64(), Ok(1));
    assert_eq!(d.try_ceil_u64(), Ok(2));
}

#[test]
fn div_by_u64_has_no_rescale() {
    let d = Decimal::from(3u64).try_div(2u64).unwrap();
    assert_eq!(d, Decimal::from_scaled_val(1_500_000_000_000_000_000));
}

#[test]
fn one_times_one_is_one() {
    assert_eq!(Decimal::one().try_mul(Decimal::one()), Ok(Decimal::one()));
    assert_eq!(Decimal::one().to_scaled_val(), Ok(WAD as u128));
}

#[test]
fn zero_is_additive_identity() {
    for raw in [0u128, 1, WAD as u128, u128::MAX] {
        let x = Decimal::from_scaled_val(raw);
        assert_eq!(Decimal::zero().try_add(x), Ok(x));
        assert_eq!(x.try_add(Decimal::zero()), Ok(x));
    }
}

#[test]
fn percent_and_bips_scale_exactly() {
    assert_eq!(
        Decimal::from_percent(50).to_scaled_val(),
        Ok(500_000_000_000_000_000u128)
    );
    // One basis point is exactly 1/10_000.
    assert_eq!(
        Decimal::from_bips(1).to_scaled_val(),
        Ok(100_000_000_000_000u128)
    );
    assert_eq!(
        Decimal::from_percent(50).try_mul(Decimal::from_percent(50)),
        Ok(Decimal::from_percent(25))
    );
}

#[test]
fn display_pads_to_eighteen_fractional_digits() {
    assert_eq!(
        Decimal::from_percent(50).to_display_string(),
        "0.500000000000000000"
    );
    assert_eq!(Decimal::zero().to_display_string(), "0.000000000000000000");
    assert_eq!(
        Decimal::from(1u64).to_display_string(),
        "1.000000000000000000"
    );
    assert_eq!(
        Decimal::from_scaled_val(1).to_display_string(),
        "0.000000000000000001"
    );
    assert_eq!(
        Decimal::from(u64::MAX).to_display_string(),
        "18446744073709551615.000000000000000000"
    );
    let d = Decimal::from(3u64).try_div(Decimal::from(2u64)).unwrap();
    assert_eq!(d.to_display_string(), "1.500000000000000000");
}

#[test]
fn division_by_zero_is_reported_never_panics() {
    assert_eq!(
        Decimal::from(1u64).try_div(Decimal::zero()),
        Err(MathError::DividedByZero)
    );
    assert_eq!(
        Decimal::zero().try_div(Decimal::zero()),
        Err(MathError::DividedByZero)
    );
    assert_eq!(
        Decimal::from(1u64).try_div(0u64),
        Err(MathError::DividedByZero)
    );
    assert_eq!(
        Decimal::from(1u64).try_div(Rate::zero()),
        Err(MathError::DividedByZero)
    );
}

#[test]
fn subtraction_underflow_is_reported() {
    assert_eq!(
        Decimal::zero().try_sub(Decimal::one()),
        Err(MathError::SubUnderflow)
    );
    assert_eq!(
        Decimal::from_scaled_val(7).try_sub(Decimal::from_scaled_val(8)),
        Err(MathError::SubUnderflow)
    );
    assert_eq!(Decimal::one().try_sub(Decimal::one()), Ok(Decimal::zero()));
}

#[test]
fn codec_round_trips_and_is_little_endian() {
    for raw in [0u128, 1, WAD as u128, 0x0102_0304_0506_0708, u128::MAX] {
        let d = Decimal::from_scaled_val(raw);
        let mut buf = vec![0xaau8; 20];
        d.pack_into_slice(&mut buf);
        assert_eq!(&buf[16..], &[0xaa; 4]);
        let back = Decimal::unpack_from_slice(&buf).unwrap();
        assert_eq!(back, d);
    }
    let mut buf = vec![0u8; 16];
    Decimal::from_scaled_val(0x0102_0304_0506_0708)
        .pack_into_slice(&mut buf);
    assert_eq!(
        buf,
        vec![8, 7, 6, 5, 4, 3, 2, 1, 0, 0, 0, 0, 0, 0, 0, 0]
    );
}

#[test]
fn overflow_boundary_shows_width_margin() {
    // The 192-bit width carries a full u64-range amount times a full
    // u64-range integer...
    let big = Decimal::from(u64::MAX);
    let product = big.try_mul(u64::MAX).unwrap();
    assert_eq!(product.try_div(u64::MAX), Ok(big));
    // ... while the same multiply on the compact rate overflows.
    assert_eq!(
        Rate::from(u64::MAX).try_mul(u64::MAX),
        Err(MathError::MulOverflow)
    );
    // The margin at amount-times-amount: products of 32-bit-range amounts
    // succeed on Decimal and overflow on Rate.
    let a = Decimal::from(u32::MAX as u64);
    assert_eq!(
        a.try_mul(a),
        Ok(Decimal::from(18_446_744_065_119_617_025u64))
    );
    let ra = Rate::from(u32::MAX as u64);
    assert_eq!(ra.try_mul(ra), Err(MathError::MulOverflow));
    // At the very top of the u64 range the raw intermediate product exceeds
    // 192 bits, so the scaled multiply reports overflow rather than wrapping.
    assert_eq!(big.try_mul(big), Err(MathError::MulOverflow));
}

#[test]
fn faults_at_the_top_of_the_range() {
    let a = Decimal::from_scaled_val(u128::MAX)
        .try_mul(u64::MAX)
        .unwrap();
    let b = a.try_add(Decimal::from_scaled_val(u128::MAX)).unwrap();
    // b's raw value is 2^192 - 2^64; one more u64-range add tops it off.
    let top = b
        .try_add(Decimal::from_scaled_val(u64::MAX as u128))
        .unwrap();
    assert_eq!(top.try_add(Decimal::from_scaled_val(1)), Err(MathError::AddOverflow));
    assert_eq!(top.try_round_u64(), Err(MathError::AddOverflow));
    assert_eq!(top.try_ceil_u64(), Err(MathError::AddOverflow));
    assert_eq!(top.try_mul(2u64), Err(MathError::MulOverflow));
    assert_eq!(top.to_scaled_val(), Err(MathError::UnableToRoundU128));
    assert_eq!(top.try_floor_u64(), Err(MathError::UnableToRoundU64));
}

#[test]
fn rounded_results_past_u64_are_reported() {
    let d = Decimal::from(u64::MAX as u128 + 1);
    assert_eq!(d.try_floor_u64(), Err(MathError::UnableToRoundU64));
    assert_eq!(d.try_ceil_u64(), Err(MathError::UnableToRoundU64));
    assert_eq!(d.try_round_u64(), Err(MathError::UnableToRoundU64));
}

#[test]
fn rate_promotes_to_decimal_losslessly() {
    let r = Rate::from_scaled_val(123_456_789);
    assert_eq!(Decimal::from(r), Decimal::from_scaled_val(123_456_789));
    assert_eq!(
        Decimal::from(10u64).try_mul(Rate::from_percent(50)),
        Ok(Decimal::from(5u64))
    );
    assert_eq!(
        Decimal::from(10u64).try_div(Rate::from_percent(50)),
        Ok(Decimal::from(20u64))
    );
}
