//! The wide fixed-point amount type: the scaled value held in 192 bits.
//!
//! A `Decimal` preserves precision up to eighteen decimal places and is
//! sized so that the product of two 64-bit-range amounts can be represented
//! without overflowing; the 192-bit width trades away only the very top of
//! the 64-bit range for multiplication while keeping compute cost below a
//! 256-bit representation.

use crate::common::{
    TryAdd, TryDiv, TryMul, TrySub, BIPS_SCALER, HALF_WAD, PERCENT_SCALER, WAD,
};
use crate::error::MathError;
use crate::rate::Rate;
use crate::u192::{lemma_canonical, p128, p192, p64, u192_from_nat, U192};
use vstd::arithmetic::div_mod::{lemma_div_basics, lemma_div_denominator, lemma_fundamental_div_mod};
use vstd::arithmetic::mul::{lemma_mul_inequality, lemma_mul_upper_bound};
use vstd::arithmetic::power2::{
    lemma2_to64, lemma2_to64_rest, lemma_pow2_adds, lemma_pow2_pos, lemma_pow2_strictly_increases,
    pow2,
};
use vstd::prelude::*;
use vstd::string::StringExecFns;

verus! {

/// A token amount scaled by `WAD`, stored as one 192-bit raw value.
#[derive(Clone, Copy, Debug, Default, PartialEq, Eq, Structural)]
pub struct Decimal(pub U192);

impl View for Decimal {
    type V = nat;

    /// The raw scaled value.
    open spec fn view(&self) -> nat {
        self.0@
    }
}

impl Decimal {
    /// The decimal holding a given mathematical raw value below 2^192.
    pub open spec fn from_nat(v: nat) -> Decimal {
        Decimal(u192_from_nat(v))
    }

    /// The decimal one, i.e. a raw value of one whole `WAD`.
    pub fn one() -> (r: Decimal)
        ensures
            r == Decimal::from_nat(WAD as nat),
            r@ == WAD,
    {
        let r = Decimal(Self::wad());
        proof {
            lemma_canonical(r.0);
        }
        r
    }

    /// The decimal zero.
    pub fn zero() -> (r: Decimal)
        ensures
            r == Decimal::from_nat(0),
            r@ == 0,
    {
        let r = Decimal(U192::zero());
        proof {
            lemma_canonical(r.0);
        }
        r
    }

    /// The scale factor as a wide word.
    pub fn wad() -> (r: U192)
        ensures
            r@ == WAD,
    {
        U192::from_u64(WAD)
    }

    /// Half the scale factor as a wide word.
    pub fn half_wad() -> (r: U192)
        ensures
            r@ == HALF_WAD,
    {
        U192::from_u64(HALF_WAD)
    }

    /// A scaled decimal from an integer percentage.
    pub fn from_percent(percent: u8) -> (r: Decimal)
        ensures
            r == Decimal::from_nat((percent * PERCENT_SCALER) as nat),
            r@ == percent * PERCENT_SCALER,
    {
        let r = Decimal(U192::from_u64(percent as u64 * PERCENT_SCALER));
        proof {
            lemma_canonical(r.0);
        }
        r
    }

    /// A scaled decimal from basis points; the scaling multiply must stay
    /// within 64 bits, as callers are required to ensure.
    pub fn from_bips(percent: u64) -> (r: Decimal)
        requires
            percent * BIPS_SCALER <= u64::MAX,
        ensures
            r == Decimal::from_nat((percent * BIPS_SCALER) as nat),
            r@ == percent * BIPS_SCALER,
    {
        let r = Decimal(U192::from_u64(percent * BIPS_SCALER));
        proof {
            lemma_canonical(r.0);
        }
        r
    }

    /// The exact result of `to_scaled_val`.
    pub open spec fn to_scaled_val_spec(self) -> Result<u128, MathError> {
        if self@ < p128() {
            Ok((self@ as u128))
        } else {
            Err(MathError::UnableToRoundU128)
        }
    }

    /// The raw scaled value if it fits within 128 bits.
    pub fn to_scaled_val(&self) -> (r: Result<u128, MathError>)
        ensures
            r == self.to_scaled_val_spec(),
    {
        if self.0.2 == 0 {
            Ok(self.0.to_u128())
        } else {
            Err(MathError::UnableToRoundU128)
        }
    }

    /// A decimal wrapping a pre-scaled raw value directly.
    pub fn from_scaled_val(scaled_val: u128) -> (r: Decimal)
        ensures
            r == Decimal::from_nat(scaled_val as nat),
            r@ == scaled_val,
    {
        let r = Decimal(U192::from_u128(scaled_val));
        proof {
            lemma_canonical(r.0);
        }
        r
    }

    /// The exact result of `try_round_u64`.
    pub open spec fn try_round_u64_spec(self) -> Result<u64, MathError> {
        if self@ + HALF_WAD >= p192() {
            Err(MathError::AddOverflow)
        } else if ((self@ + HALF_WAD) as nat) / (WAD as nat) >= p64() {
            Err(MathError::UnableToRoundU64)
        } else {
            Ok(((((self@ + HALF_WAD) as nat) / (WAD as nat)) as u64))
        }
    }

    /// Round the scaled decimal half-up to a plain integer.
    pub fn try_round_u64(&self) -> (r: Result<u64, MathError>)
        ensures
            r == self.try_round_u64_spec(),
    {
        match Self::half_wad().checked_add(self.0) {
            None => Err(MathError::AddOverflow),
            Some(t) => match t.checked_div(Self::wad()) {
                None => Err(MathError::DividedByZero),
                Some(q) => match q.to_u64() {
                    Some(v) => Ok(v),
                    None => Err(MathError::UnableToRoundU64),
                },
            },
        }
    }

    /// The exact result of `try_ceil_u64`.
    pub open spec fn try_ceil_u64_spec(self) -> Result<u64, MathError> {
        if self@ + (WAD - 1) >= p192() {
            Err(MathError::AddOverflow)
        } else if ((self@ + (WAD - 1)) as nat) / (WAD as nat) >= p64() {
            Err(MathError::UnableToRoundU64)
        } else {
            Ok(((((self@ + (WAD - 1)) as nat) / (WAD as nat)) as u64))
        }
    }

    /// Round the scaled decimal up to a plain integer.
    pub fn try_ceil_u64(&self) -> (r: Result<u64, MathError>)
        ensures
            r == self.try_ceil_u64_spec(),
    {
        match Self::wad().checked_sub(U192::from_u64(1)) {
            None => Err(MathError::SubUnderflow),
            Some(w) => match w.checked_add(self.0) {
                None => Err(MathError::AddOverflow),
                Some(t) => match t.checked_div(Self::wad()) {
                    None => Err(MathError::DividedByZero),
                    Some(q) => match q.to_u64() {
                        Some(v) => Ok(v),
                        None => Err(MathError::UnableToRoundU64),
                    },
                },
            },
        }
    }

    /// The exact result of `try_floor_u64`.
    pub open spec fn try_floor_u64_spec(self) -> Result<u64, MathError> {
        if self@ / (WAD as nat) >= p64() {
            Err(MathError::UnableToRoundU64)
        } else {
            Ok(((self@ / (WAD as nat)) as u64))
        }
    }

    /// Round the scaled decimal down to a plain integer.
    pub fn try_floor_u64(&self) -> (r: Result<u64, MathError>)
        ensures
            r == self.try_floor_u64_spec(),
    {
        match self.0.checked_div(Self::wad()) {
            None => Err(MathError::DividedByZero),
            Some(q) => match q.to_u64() {
                Some(v) => Ok(v),
                None => Err(MathError::UnableToRoundU64),
            },
        }
    }

    /// The decimal a rate promotes to: the same raw value, zero-extended.
    pub open spec fn from_rate_spec(val: Rate) -> Decimal {
        Decimal(u192_from_nat(val@))
    }

    /// The decimal an unscaled 64-bit integer converts to.
    pub open spec fn from_u64_spec(val: u64) -> Decimal {
        Decimal(u192_from_nat((val * WAD) as nat))
    }

    /// The decimal an unscaled 128-bit integer converts to.
    pub open spec fn from_u128_spec(val: u128) -> Decimal {
        Decimal(u192_from_nat((val * WAD) as nat))
    }
}

/// Byte `i` of the little-endian encoding of a raw value.
pub open spec fn le_byte(v: nat, i: nat) -> u8 {
    (((v / pow2(8 * i)) % 256) as u8)
}

/// The 16 little-endian bytes that encode a raw 128-bit value.
pub open spec fn le_bytes16(v: nat) -> Seq<u8> {
    Seq::new(16, |i: int| le_byte(v, i as nat))
}

/// The raw value of a little-endian byte sequence.
pub open spec fn le_bytes_value(s: Seq<u8>) -> nat
    decreases s.len(),
{
    if s.len() == 0 {
        0
    } else {
        (s[0] + 256 * le_bytes_value(s.drop_first())) as nat
    }
}

/// Powers of two never decrease with the exponent.
proof fn lemma_pow2_le(a: nat, b: nat)
    requires
        a <= b,
    ensures
        pow2(a) <= pow2(b),
{
    if a < b {
        lemma_pow2_strictly_increases(a, b);
    }
}

/// Reading little-endian bytes back recovers the value they encode.
pub proof fn lemma_le_bytes_roundtrip(v: nat, n: nat)
    requires
        v < pow2(8 * n),
    ensures
        le_bytes_value(Seq::new(n, |i: int| le_byte(v, i as nat))) == v,
    decreases n,
{
    lemma2_to64();
    let s = Seq::new(n, |i: int| le_byte(v, i as nat));
    if n == 0 {
        assert(v == 0);
    } else {
        assert(s[0] == le_byte(v, 0));
        lemma_div_basics(v as int);
        assert(le_byte(v, 0) == v % 256);
        let v1 = v / 256;
        assert(v >= 256 * v1) by {
            lemma_fundamental_div_mod(v as int, 256);
        }
        assert(v1 < pow2(8 * (n - 1) as nat)) by {
            lemma_pow2_adds(8 * (n - 1) as nat, 8);
            if v1 >= pow2(8 * (n - 1) as nat) {
                lemma_mul_inequality(pow2(8 * (n - 1) as nat) as int, v1 as int, 256);
            }
        }
        assert forall|i: int| 0 <= i < n - 1 implies s.drop_first()[i] == le_byte(v1, i as nat) by {
            lemma_pow2_pos((8 * i) as nat);
            lemma_div_denominator(v as int, 256, pow2((8 * i) as nat) as int);
            lemma_pow2_adds(8, (8 * i) as nat);
            assert(le_byte(v, (i + 1) as nat) == le_byte(v1, i as nat));
        }
        assert(s.drop_first() =~= Seq::new((n - 1) as nat, |i: int| le_byte(v1, i as nat)));
        lemma_le_bytes_roundtrip(v1, (n - 1) as nat);
        lemma_fundamental_div_mod(v as int, 256);
    }
}

impl Decimal {
    /// Write the 16-byte little-endian encoding of the raw value into the
    /// front of `dst`, leaving the rest of the buffer untouched. The value
    /// must fit in 128 bits, as callers are required to ensure.
    pub fn pack_into_slice(&self, dst: &mut Vec<u8>)
        requires
            self@ < p128(),
            old(dst)@.len() >= 16,
        ensures
            final(dst)@.len() == old(dst)@.len(),
            final(dst)@.subrange(0, 16) == le_bytes16(self@),
            final(dst)@.subrange(16, final(dst)@.len() as int) == old(dst)@.subrange(
                16,
                old(dst)@.len() as int,
            ),
    {
        let mut v: u128 = match self.to_scaled_val() {
            Ok(x) => x,
            Err(_) => 0,
        };
        let mut i: usize = 0;
        proof {
            lemma2_to64();
            lemma_div_basics(self@ as int);
        }
        while i < 16
            invariant
                self@ < p128(),
                i <= 16,
                dst@.len() == old(dst)@.len() >= 16,
                v == self@ / pow2((8 * i) as nat),
                forall|j: int| 0 <= j < i ==> dst@[j] == le_byte(self@, j as nat),
                forall|j: int| 16 <= j < dst@.len() ==> dst@[j] == old(dst)@[j],
            decreases 16 - i,
        {
            let b = (v % 256) as u8;
            dst.set(i, b);
            v = v / 256;
            proof {
                lemma_pow2_pos((8 * i) as nat);
                lemma_div_denominator(self@ as int, pow2((8 * i) as nat) as int, 256);
                lemma_pow2_adds((8 * i) as nat, 8);
                lemma2_to64();
            }
            i = i + 1;
        }
        proof {
            assert(dst@.subrange(0, 16) =~= le_bytes16(self@));
            assert(dst@.subrange(16, dst@.len() as int) =~= old(dst)@.subrange(
                16,
                old(dst)@.len() as int,
            ));
        }
    }

    /// Read a decimal back from the 16-byte little-endian encoding at the
    /// front of `src`.
    pub fn unpack_from_slice(src: &Vec<u8>) -> (r: Result<Decimal, MathError>)
        requires
            src@.len() >= 16,
        ensures
            r == Ok::<Decimal, MathError>(
                Decimal::from_nat(le_bytes_value(src@.subrange(0, 16))),
            ),
    {
        let mut v: u128 = 0;
        let mut i: usize = 16;
        proof {
            lemma2_to64();
            assert(src@.subrange(16, 16).len() == 0);
        }
        while i > 0
            invariant
                src@.len() >= 16,
                i <= 16,
                v == le_bytes_value(src@.subrange(i as int, 16)),
                v < pow2((8 * (16 - i)) as nat),
            decreases i,
        {
            proof {
                lemma2_to64();
                lemma2_to64_rest();
                lemma_pow2_adds(64, 56);
                lemma_pow2_le((8 * (16 - i)) as nat, 120);
                assert(pow2(120) == 0x100_0000_0000_0000_0000_0000_0000_0000nat);
                assert(v < 0x100_0000_0000_0000_0000_0000_0000_0000u128);
            }
            let b = src[i - 1];
            v = v * 256 + b as u128;
            i = i - 1;
            proof {
                let s = src@.subrange(i as int, 16);
                assert(s[0] == src@[i as int]);
                assert(s.drop_first() =~= src@.subrange(i + 1, 16));
                lemma_pow2_adds((8 * (15 - i)) as nat, 8);
            }
        }
        proof {
            assert(src@.subrange(0, 16) =~= src@.subrange(0int, 16int));
        }
        Ok(Decimal::from_scaled_val(v))
    }
}

/// The character for one decimal digit.
pub open spec fn digit_char(d: nat) -> char {
    if d == 0 {
        '0'
    } else if d == 1 {
        '1'
    } else if d == 2 {
        '2'
    } else if d == 3 {
        '3'
    } else if d == 4 {
        '4'
    } else if d == 5 {
        '5'
    } else if d == 6 {
        '6'
    } else if d == 7 {
        '7'
    } else if d == 8 {
        '8'
    } else {
        '9'
    }
}

/// The characters a rendered decimal may contain.
pub open spec fn is_display_char(c: char) -> bool {
    c == '.' || c == '0' || c == '1' || c == '2' || c == '3' || c == '4' || c == '5' || c == '6'
        || c == '7' || c == '8' || c == '9'
}

/// The minimal decimal digit string of a value, most significant digit first.
pub open spec fn digits_of(v: nat) -> Seq<char>
    decreases v,
{
    if v < 10 {
        seq![digit_char(v)]
    } else {
        digits_of(v / 10).push(digit_char(v % 10))
    }
}

/// How a raw scaled value renders: always exactly `SCALE` fractional digits,
/// with a zero integer part written as a single leading zero.
pub open spec fn display_of(v: nat) -> Seq<char> {
    let ds = digits_of(v);
    if ds.len() <= 18 {
        seq!['0', '.'] + Seq::new((18 - ds.len()) as nat, |i: int| '0') + ds
    } else {
        ds.subrange(0, ds.len() - 18) + seq!['.'] + ds.subrange(ds.len() - 18, ds.len() as int)
    }
}

/// The character for one digit word.
fn digit_to_char(d: u64) -> (c: char)
    requires
        d < 10,
    ensures
        c == digit_char(d as nat),
        is_display_char(c),
        c != '.',
{
    if d == 0 {
        '0'
    } else if d == 1 {
        '1'
    } else if d == 2 {
        '2'
    } else if d == 3 {
        '3'
    } else if d == 4 {
        '4'
    } else if d == 5 {
        '5'
    } else if d == 6 {
        '6'
    } else if d == 7 {
        '7'
    } else if d == 8 {
        '8'
    } else {
        '9'
    }
}

/// Append one rendered character to the string.
fn push_char(s: &mut String, c: char)
    requires
        is_display_char(c),
    ensures
        final(s)@ == old(s)@.push(c),
{
    if c == '.' {
        s.append(".");
        proof {
            reveal_strlit(".");
            assert(s@ =~= old(s)@.push('.'));
        }
    } else if c == '0' {
        s.append("0");
        proof {
            reveal_strlit("0");
            assert(s@ =~= old(s)@.push('0'));
        }
    } else if c == '1' {
        s.append("1");
        proof {
            reveal_strlit("1");
            assert(s@ =~= old(s)@.push('1'));
        }
    } else if c == '2' {
        s.append("2");
        proof {
            reveal_strlit("2");
            assert(s@ =~= old(s)@.push('2'));
        }
    } else if c == '3' {
        s.append("3");
        proof {
            reveal_strlit("3");
            assert(s@ =~= old(s)@.push('3'));
        }
    } else if c == '4' {
        s.append("4");
        proof {
            reveal_strlit("4");
            assert(s@ =~= old(s)@.push('4'));
        }
    } else if c == '5' {
        s.append("5");
        proof {
            reveal_strlit("5");
            assert(s@ =~= old(s)@.push('5'));
        }
    } else if c == '6' {
        s.append("6");
        proof {
            reveal_strlit("6");
            assert(s@ =~= old(s)@.push('6'));
        }
    } else if c == '7' {
        s.append("7");
        proof {
            reveal_strlit("7");
            assert(s@ =~= old(s)@.push('7'));
        }
    } else if c == '8' {
        s.append("8");
        proof {
            reveal_strlit("8");
            assert(s@ =~= old(s)@.push('8'));
        }
    } else {
        s.append("9");
        proof {
            reveal_strlit("9");
            assert(s@ =~= old(s)@.push('9'));
        }
    }
}

impl Decimal {
    /// Render the value as a decimal string with exactly `SCALE` fractional
    /// digits: a raw value of at most eighteen digits is written as zero
    /// point the zero-padded digits, and a longer one has the decimal point
    /// inserted eighteen digits from its end.
    pub fn to_display_string(&self) -> (s: String)
        ensures
            s@ == display_of(self@),
    {
        let mut digits: Vec<char> = Vec::new();
        if self.0.is_zero() {
            digits.push('0');
            proof {
                assert(digits@ =~= digits_of(self@));
            }
        } else {
            let ten = U192::from_u64(10);
            let mut cur = self.0;
            proof {
                assert(digits_of(self@) =~= digits_of(cur@) + digits@);
            }
            while !cur.is_zero()
                invariant
                    ten@ == 10,
                    cur@ > 0 ==> digits_of(self@) == digits_of(cur@) + digits@,
                    cur@ == 0 ==> digits_of(self@) == digits@,
                    forall|j: int| 0 <= j < digits@.len() ==> is_display_char(#[trigger] digits@[j])
                        && digits@[j] != '.',
                decreases cur@,
            {
                let ghost cv = cur@;
                let ghost prev = digits@;
                let (q, rem) = cur.div_rem(ten);
                let d = digit_to_char(rem.0);
                digits.insert(0, d);
                cur = q;
                proof {
                    assert(digits@ =~= seq![d] + prev);
                    if cv < 10 {
                        assert(digits_of(cv) =~= seq![digit_char(cv)]);
                        assert(digits_of(self@) =~= digits@);
                    } else {
                        assert(digits_of(cv) == digits_of(cv / 10).push(digit_char(cv % 10)));
                        assert(digits_of(cv) + prev =~= digits_of(cur@) + digits@);
                    }
                }
            }
        }
        let n = digits.len();
        proof {
            assert(digits@ == digits_of(self@));
            assert(digits_of(self@).len() >= 1);
        }
        let mut s = String::new();
        if n <= 18 {
            s.append("0.");
            proof {
                reveal_strlit("0.");
                assert(s@ =~= seq!['0', '.']);
                assert(s@ =~= seq!['0', '.'] + Seq::new(0, |i: int| '0'));
            }
            let mut k = n;
            while k < 18
                invariant
                    n <= k <= 18,
                    s@ == seq!['0', '.'] + Seq::new((k - n) as nat, |i: int| '0'),
                decreases 18 - k,
            {
                s.append("0");
                k = k + 1;
                proof {
                    reveal_strlit("0");
                    assert(s@ =~= seq!['0', '.'] + Seq::new((k - n) as nat, |i: int| '0'));
                }
            }
            let ghost pad = Seq::new((18 - n) as nat, |i: int| '0');
            let mut idx: usize = 0;
            while idx < n
                invariant
                    idx <= n == digits@.len(),
                    forall|j: int| 0 <= j < digits@.len() ==> is_display_char(
                        #[trigger] digits@[j],
                    ),
                    s@ == seq!['0', '.'] + pad + digits@.subrange(0, idx as int),
                decreases n - idx,
            {
                push_char(&mut s, digits[idx]);
                idx = idx + 1;
                proof {
                    assert(s@ =~= seq!['0', '.'] + pad + digits@.subrange(0, idx as int));
                }
            }
            proof {
                assert(digits@.subrange(0, n as int) =~= digits@);
                assert(s@ =~= display_of(self@));
            }
        } else {
            let p = n - 18;
            let mut idx: usize = 0;
            proof {
                assert(s@ =~= digits@.subrange(0, 0));
            }
            while idx < n
                invariant
                    idx <= n == digits@.len(),
                    18 < n,
                    p == n - 18,
                    forall|j: int| 0 <= j < digits@.len() ==> is_display_char(
                        #[trigger] digits@[j],
                    ),
                    idx <= p ==> s@ == digits@.subrange(0, idx as int),
                    idx > p ==> s@ == digits@.subrange(0, p as int) + seq!['.']
                        + digits@.subrange(p as int, idx as int),
                decreases n - idx,
            {
                if idx == p {
                    push_char(&mut s, '.');
                    proof {
                        assert(s@ =~= digits@.subrange(0, p as int) + seq!['.']
                            + digits@.subrange(p as int, p as int));
                    }
                }
                push_char(&mut s, digits[idx]);
                idx = idx + 1;
                proof {
                    if idx <= p {
                        assert(s@ =~= digits@.subrange(0, idx as int));
                    } else {
                        assert(s@ =~= digits@.subrange(0, p as int) + seq!['.']
                            + digits@.subrange(p as int, idx as int));
                    }
                }
            }
            proof {
                assert(digits@.subrange(p as int, n as int) =~= digits@.subrange(
                    p as int,
                    digits@.len() as int,
                ));
                assert(s@ =~= display_of(self@));
            }
        }
        s
    }
}

impl From<u64> for Decimal {
    /// A whole-integer amount: the raw value is the integer times `WAD`.
    fn from(val: u64) -> (r: Decimal) {
        proof {
            lemma_mul_upper_bound(val as int, 0xffff_ffff_ffff_ffff, WAD as int, WAD as int);
        }
        let r = Decimal(U192::from_u128((val as u128) * (WAD as u128)));
        proof {
            lemma_canonical(r.0);
        }
        r
    }
}

impl vstd::std_specs::convert::FromSpecImpl<u64> for Decimal {
    open spec fn obeys_from_spec() -> bool {
        true
    }

    open spec fn from_spec(val: u64) -> Decimal {
        Decimal::from_u64_spec(val)
    }
}

impl From<u128> for Decimal {
    /// A whole-integer amount: the raw value is the integer times `WAD`.
    fn from(val: u128) -> (r: Decimal) {
        proof {
            lemma_mul_upper_bound(
                val as int,
                0xffff_ffff_ffff_ffff_ffff_ffff_ffff_ffff,
                WAD as int,
                WAD as int,
            );
        }
        let (m, of) = U192::from_u128(val).mul_u64(WAD);
        proof {
            assert(of == 0);
        }
        let r = Decimal(m);
        proof {
            lemma_canonical(r.0);
        }
        r
    }
}

impl vstd::std_specs::convert::FromSpecImpl<u128> for Decimal {
    open spec fn obeys_from_spec() -> bool {
        true
    }

    open spec fn from_spec(val: u128) -> Decimal {
        Decimal::from_u128_spec(val)
    }
}

impl From<Rate> for Decimal {
    /// Widening promotion of a rate: lossless, never fails.
    fn from(val: Rate) -> (r: Decimal) {
        let r = Decimal(U192::from_u128(val.to_scaled_val()));
        proof {
            lemma_canonical(r.0);
        }
        r
    }
}

impl vstd::std_specs::convert::FromSpecImpl<Rate> for Decimal {
    open spec fn obeys_from_spec() -> bool {
        true
    }

    open spec fn from_spec(val: Rate) -> Decimal {
        Decimal::from_rate_spec(val)
    }
}

impl TryAdd for Decimal {
    open spec fn try_add_spec(self, rhs: Decimal) -> Result<Decimal, MathError> {
        if self@ + rhs@ < p192() {
            Ok(Decimal::from_nat((self@ + rhs@) as nat))
        } else {
            Err(MathError::AddOverflow)
        }
    }

    fn try_add(self, rhs: Decimal) -> (r: Result<Decimal, MathError>) {
        match self.0.checked_add(rhs.0) {
            None => Err(MathError::AddOverflow),
            Some(s) => {
                proof {
                    lemma_canonical(s);
                }
                Ok(Decimal(s))
            },
        }
    }
}

impl TrySub for Decimal {
    open spec fn try_sub_spec(self, rhs: Decimal) -> Result<Decimal, MathError> {
        if rhs@ <= self@ {
            Ok(Decimal::from_nat((self@ - rhs@) as nat))
        } else {
            Err(MathError::SubUnderflow)
        }
    }

    fn try_sub(self, rhs: Decimal) -> (r: Result<Decimal, MathError>) {
        match self.0.checked_sub(rhs.0) {
            None => Err(MathError::SubUnderflow),
            Some(d) => {
                proof {
                    lemma_canonical(d);
                }
                Ok(Decimal(d))
            },
        }
    }
}

impl TryMul<u64> for Decimal {
    open spec fn try_mul_spec(self, rhs: u64) -> Result<Decimal, MathError> {
        if self@ * rhs >= p192() {
            Err(MathError::MulOverflow)
        } else {
            Ok(Decimal::from_nat((self@ * rhs) as nat))
        }
    }

    fn try_mul(self, rhs: u64) -> (r: Result<Decimal, MathError>) {
        match self.0.checked_mul(U192::from_u64(rhs)) {
            None => Err(MathError::MulOverflow),
            Some(p) => {
                proof {
                    lemma_canonical(p);
                }
                Ok(Decimal(p))
            },
        }
    }
}

impl TryMul<Rate> for Decimal {
    open spec fn try_mul_spec(self, rhs: Rate) -> Result<Decimal, MathError> {
        self.try_mul_spec(Decimal::from_rate_spec(rhs))
    }

    fn try_mul(self, rhs: Rate) -> (r: Result<Decimal, MathError>) {
        self.try_mul(Decimal::from(rhs))
    }
}

impl TryMul<Decimal> for Decimal {
    open spec fn try_mul_spec(self, rhs: Decimal) -> Result<Decimal, MathError> {
        if self@ * rhs@ >= p192() {
            Err(MathError::MulOverflow)
        } else {
            Ok(Decimal::from_nat((self@ * rhs@) / (WAD as nat)))
        }
    }

    fn try_mul(self, rhs: Decimal) -> (r: Result<Decimal, MathError>) {
        match self.0.checked_mul(rhs.0) {
            None => Err(MathError::MulOverflow),
            Some(p) => match p.checked_div(Self::wad()) {
                None => Err(MathError::DividedByZero),
                Some(q) => {
                    proof {
                        lemma_canonical(q);
                    }
                    Ok(Decimal(q))
                },
            },
        }
    }
}

impl TryDiv<u64> for Decimal {
    open spec fn try_div_spec(self, rhs: u64) -> Result<Decimal, MathError> {
        if rhs == 0 {
            Err(MathError::DividedByZero)
        } else {
            Ok(Decimal::from_nat(self@ / (rhs as nat)))
        }
    }

    fn try_div(self, rhs: u64) -> (r: Result<Decimal, MathError>) {
        match self.0.checked_div(U192::from_u64(rhs)) {
            None => Err(MathError::DividedByZero),
            Some(q) => {
                proof {
                    lemma_canonical(q);
                }
                Ok(Decimal(q))
            },
        }
    }
}

impl TryDiv<Rate> for Decimal {
    open spec fn try_div_spec(self, rhs: Rate) -> Result<Decimal, MathError> {
        self.try_div_spec(Decimal::from_rate_spec(rhs))
    }

    fn try_div(self, rhs: Rate) -> (r: Result<Decimal, MathError>) {
        self.try_div(Decimal::from(rhs))
    }
}

impl TryDiv<Decimal> for Decimal {
    open spec fn try_div_spec(self, rhs: Decimal) -> Result<Decimal, MathError> {
        if self@ * WAD >= p192() {
            Err(MathError::MulOverflow)
        } else if rhs@ == 0 {
            Err(MathError::DividedByZero)
        } else {
            Ok(Decimal::from_nat(((self@ * WAD) as nat) / rhs@))
        }
    }

    fn try_div(self, rhs: Decimal) -> (r: Result<Decimal, MathError>) {
        match self.0.checked_mul(Self::wad()) {
            None => Err(MathError::MulOverflow),
            Some(p) => match p.checked_div(rhs.0) {
                None => Err(MathError::DividedByZero),
                Some(q) => {
                    proof {
                        lemma_canonical(q);
                    }
                    Ok(Decimal(q))
                },
            },
        }
    }
}

} // verus!
