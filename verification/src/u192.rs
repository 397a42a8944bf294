//! A 192-bit unsigned integer stored as three 64-bit little-endian words,
//! with checked arithmetic proved exact against its mathematical value.

use vstd::arithmetic::div_mod::{
    lemma_basic_div, lemma_div_denominator, lemma_div_is_ordered_by_denominator,
    lemma_fundamental_div_mod, lemma_fundamental_div_mod_converse, lemma_hoist_over_denominator,
    lemma_mod_multiples_vanish,
};
use vstd::arithmetic::mul::{lemma_mul_inequality, lemma_mul_upper_bound};
use vstd::arithmetic::power2::{
    lemma2_to64, lemma_pow2_adds, lemma_pow2_pos, lemma_pow2_strictly_increases, pow2,
};
use vstd::bits::lemma_u64_shr_is_div;
use vstd::prelude::*;

verus! {

/// 2^64 as an executable 128-bit constant, used to split sums and products
/// into a low word and a carry.
const TWO64: u128 = 0x1_0000_0000_0000_0000;

/// 2^64.
pub open spec fn p64() -> nat {
    0x1_0000_0000_0000_0000
}

/// 2^128.
pub open spec fn p128() -> nat {
    0x1_0000_0000_0000_0000_0000_0000_0000_0000nat
}

/// 2^192: one past the largest value a `U192` can hold.
pub open spec fn p192() -> nat {
    0x1_0000_0000_0000_0000_0000_0000_0000_0000_0000_0000_0000_0000nat
}

/// An unsigned 192-bit integer: three 64-bit words, least significant first.
#[derive(Clone, Copy, Debug, Default, PartialEq, Eq, Structural)]
pub struct U192(pub u64, pub u64, pub u64);

impl View for U192 {
    type V = nat;

    /// The mathematical value of the three words.
    open spec fn view(&self) -> nat {
        (self.0 + self.1 * p64() + self.2 * p128()) as nat
    }
}

/// The unique word representation of a value below 2^192.
pub open spec fn u192_from_nat(v: nat) -> U192 {
    U192((v % p64()) as u64, ((v / p64()) % p64()) as u64, ((v / p128()) % p64()) as u64)
}

/// The stated values of the powers of two this module splits words at.
proof fn lemma_pow2_vals()
    ensures
        pow2(64) == p64(),
        pow2(128) == p128(),
        pow2(192) == p192(),
{
    lemma2_to64();
    lemma_pow2_adds(64, 64);
    lemma_pow2_adds(128, 64);
}

/// Word decomposition is the base-2^64 digit expansion, so a value below
/// 2^192 maps back to the words it came from.
pub proof fn lemma_from_nat_as_nat(v: nat)
    requires
        v < p192(),
    ensures
        u192_from_nat(v)@ == v,
{
    lemma_fundamental_div_mod(v as int, p64() as int);
    lemma_fundamental_div_mod((v / p64()) as int, p64() as int);
    lemma_div_denominator(v as int, p64() as int, p64() as int);
    assert((v / p128()) % p64() == v / p128());
}

/// Two words triples with the same mathematical value are the same triple.
pub proof fn lemma_canonical(a: U192)
    ensures
        u192_from_nat(a@) == a,
{
    let v = a@ as int;
    lemma_fundamental_div_mod_converse(v, p64() as int, a.1 + a.2 * p64(), a.0 as int);
    let q = (a.1 + a.2 * p64()) as int;
    assert(v / p64() as int == q);
    assert(v % p64() as int == a.0 as int);
    lemma_fundamental_div_mod_converse(q, p64() as int, a.2 as int, a.1 as int);
    lemma_div_denominator(v, p64() as int, p64() as int);
    assert(v / p128() as int == a.2 as int);
}

/// A bound on the product of two 64-bit words.
proof fn lemma_word_product_bound(a: u64, b: u64)
    ensures
        (a as nat) * (b as nat) <= 0xffff_ffff_ffff_fffe_0000_0000_0000_0001,
{
    lemma_mul_upper_bound(a as int, 0xffff_ffff_ffff_ffff, b as int, 0xffff_ffff_ffff_ffff);
}

impl U192 {
    /// The zero value.
    pub fn zero() -> (r: U192)
        ensures
            r@ == 0,
    {
        U192(0, 0, 0)
    }

    /// Widen a 64-bit value.
    pub fn from_u64(v: u64) -> (r: U192)
        ensures
            r@ == v,
    {
        U192(v, 0, 0)
    }

    /// Widen a 128-bit value.
    pub fn from_u128(v: u128) -> (r: U192)
        ensures
            r@ == v,
    {
        let lo = (v % TWO64) as u64;
        let hi = (v / TWO64) as u64;
        proof {
            lemma_fundamental_div_mod(v as int, TWO64 as int);
        }
        U192(lo, hi, 0)
    }

    /// Narrow to 128 bits; callers must know the value fits.
    pub fn to_u128(self) -> (r: u128)
        requires
            self@ < p128(),
        ensures
            r == self@,
    {
        self.0 as u128 + (self.1 as u128) * TWO64
    }

    /// Narrow to 64 bits if the value fits.
    pub fn to_u64(self) -> (r: Option<u64>)
        ensures
            match r {
                Some(v) => self@ == v,
                None => self@ >= p64(),
            },
    {
        if self.1 == 0 && self.2 == 0 {
            Some(self.0)
        } else {
            None
        }
    }

    /// Whether the value is zero.
    pub fn is_zero(&self) -> (r: bool)
        ensures
            r == (self@ == 0),
    {
        self.0 == 0 && self.1 == 0 && self.2 == 0
    }

    /// Whether `self` is at least `rhs`.
    fn ge(&self, rhs: &U192) -> (r: bool)
        ensures
            r == (self@ >= rhs@),
    {
        if self.2 != rhs.2 {
            self.2 > rhs.2
        } else if self.1 != rhs.1 {
            self.1 > rhs.1
        } else {
            self.0 >= rhs.0
        }
    }

    /// Checked addition: the exact sum, or `None` past 2^192.
    pub fn checked_add(self, rhs: U192) -> (r: Option<U192>)
        ensures
            match r {
                Some(s) => self@ + rhs@ < p192() && s@ == self@ + rhs@,
                None => self@ + rhs@ >= p192(),
            },
    {
        let s0: u128 = self.0 as u128 + rhs.0 as u128;
        let w0 = (s0 % TWO64) as u64;
        let c0 = s0 / TWO64;
        let s1: u128 = self.1 as u128 + rhs.1 as u128 + c0;
        let w1 = (s1 % TWO64) as u64;
        let c1 = s1 / TWO64;
        let s2: u128 = self.2 as u128 + rhs.2 as u128 + c1;
        proof {
            lemma_fundamental_div_mod(s0 as int, TWO64 as int);
            lemma_fundamental_div_mod(s1 as int, TWO64 as int);
        }
        if s2 >= TWO64 {
            None
        } else {
            Some(U192(w0, w1, s2 as u64))
        }
    }

    /// Checked subtraction: the exact difference, or `None` on borrow.
    pub fn checked_sub(self, rhs: U192) -> (r: Option<U192>)
        ensures
            match r {
                Some(d) => rhs@ <= self@ && d@ == self@ - rhs@,
                None => self@ < rhs@,
            },
    {
        if !self.ge(&rhs) {
            return None;
        }
        Some(self.sub_borrow(false, &rhs))
    }

    /// Subtract `rhs` from `carry * 2^192 + self`, whose difference is known
    /// to fit in 192 bits.
    fn sub_borrow(self, carry: bool, rhs: &U192) -> (d: U192)
        requires
            (if carry { p192() } else { 0nat }) + self@ >= rhs@,
            (if carry { p192() } else { 0nat }) + self@ - rhs@ < p192(),
        ensures
            d@ == (if carry { p192() } else { 0nat }) + self@ - rhs@,
    {
        let (d0, b0): (u64, bool) = if self.0 >= rhs.0 {
            (self.0 - rhs.0, false)
        } else {
            ((u64::MAX - rhs.0) + self.0 + 1, true)
        };
        let s1: u128 = rhs.1 as u128 + if b0 { 1u128 } else { 0u128 };
        let (d1, b1): (u64, bool) = if self.1 as u128 >= s1 {
            ((self.1 as u128 - s1) as u64, false)
        } else {
            (((TWO64 + self.1 as u128) - s1) as u64, true)
        };
        let s2: u128 = rhs.2 as u128 + if b1 { 1u128 } else { 0u128 };
        let (d2, b2): (u64, bool) = if self.2 as u128 >= s2 {
            ((self.2 as u128 - s2) as u64, false)
        } else {
            (((TWO64 + self.2 as u128) - s2) as u64, true)
        };
        let d = U192(d0, d1, d2);
        proof {
            let bi0: int = if b0 { 1 } else { 0 };
            let bi1: int = if b1 { 1 } else { 0 };
            let bi2: int = if b2 { 1 } else { 0 };
            assert(d0 == self.0 - rhs.0 + bi0 * p64());
            assert(d1 == self.1 - rhs.1 - bi0 + bi1 * p64());
            assert(d2 == self.2 - rhs.2 - bi1 + bi2 * p64());
            assert(d@ == self@ - rhs@ + bi2 * p192());
        }
        d
    }

    /// Multiply by a single word: the low 192 bits and the overflow word.
    pub(crate) fn mul_u64(self, rhs: u64) -> (r: (U192, u64))
        ensures
            r.0@ + r.1 * p192() == self@ * rhs,
    {
        proof {
            lemma_word_product_bound(self.0, rhs);
            lemma_word_product_bound(self.1, rhs);
            lemma_word_product_bound(self.2, rhs);
        }
        let p0: u128 = (self.0 as u128) * (rhs as u128);
        let w0 = (p0 % TWO64) as u64;
        let c0 = p0 / TWO64;
        let p1: u128 = (self.1 as u128) * (rhs as u128) + c0;
        let w1 = (p1 % TWO64) as u64;
        let c1 = p1 / TWO64;
        let p2: u128 = (self.2 as u128) * (rhs as u128) + c1;
        let w2 = (p2 % TWO64) as u64;
        let c2 = p2 / TWO64;
        proof {
            lemma_fundamental_div_mod(p0 as int, TWO64 as int);
            lemma_fundamental_div_mod(p1 as int, TWO64 as int);
            lemma_fundamental_div_mod(p2 as int, TWO64 as int);
            assert(self@ * rhs == self.0 * rhs + (self.1 * rhs) * p64() + (self.2 * rhs) * p128())
                by (nonlinear_arith)
                requires
                    self@ == self.0 + self.1 * p64() + self.2 * p128(),
            ;
        }
        (U192(w0, w1, w2), c2 as u64)
    }

    /// Checked multiplication: the exact product, or `None` past 2^192.
    pub fn checked_mul(self, rhs: U192) -> (r: Option<U192>)
        ensures
            match r {
                Some(p) => self@ * rhs@ < p192() && p@ == self@ * rhs@,
                None => self@ * rhs@ >= p192(),
            },
    {
        proof {
            assert(self@ * rhs@ == self@ * rhs.0 + (self@ * rhs.1) * p64() + (self@ * rhs.2)
                * p128()) by (nonlinear_arith)
                requires
                    rhs@ == rhs.0 + rhs.1 * p64() + rhs.2 * p128(),
            ;
        }
        let (m0, of0) = self.mul_u64(rhs.0);
        let (m1, of1) = self.mul_u64(rhs.1);
        let (m2, of2) = self.mul_u64(rhs.2);
        if of0 != 0 {
            proof {
                assert(self@ * rhs.0 >= p192());
            }
            return None;
        }
        if of1 != 0 || m1.2 != 0 {
            proof {
                assert(self@ * rhs.1 >= p128());
                lemma_mul_inequality(p128() as int, (self@ * rhs.1) as int, p64() as int);
            }
            return None;
        }
        if of2 != 0 || m2.2 != 0 || m2.1 != 0 {
            proof {
                assert(self@ * rhs.2 >= p64());
                lemma_mul_inequality(p64() as int, (self@ * rhs.2) as int, p128() as int);
            }
            return None;
        }
        let shift1 = U192(0, m1.0, m1.1);
        let shift2 = U192(0, 0, m2.0);
        proof {
            assert(shift1@ == (self@ * rhs.1) * p64());
            assert(shift2@ == (self@ * rhs.2) * p128());
        }
        match m0.checked_add(shift1) {
            None => None,
            Some(t) => t.checked_add(shift2),
        }
    }

    /// The quotient and remainder of dividing by a nonzero value, by binary
    /// long division over the 192 bit positions.
    pub fn div_rem(self, rhs: U192) -> (qr: (U192, U192))
        requires
            rhs@ > 0,
        ensures
            qr.0@ == self@ / rhs@,
            qr.1@ == self@ % rhs@,
    {
        let mut q = U192(0, 0, 0);
        let mut r = U192(0, 0, 0);
        let mut i: usize = 192;
        proof {
            lemma_pow2_vals();
            lemma_basic_div(self@ as int, pow2(192) as int);
            assert(q@ * rhs@ == 0) by (nonlinear_arith)
                requires
                    q@ == 0,
            ;
        }
        while i > 0
            invariant
                rhs@ > 0,
                i <= 192,
                q@ * rhs@ + r@ == self@ / pow2(i as nat),
                r@ < rhs@,
            decreases i,
        {
            proof {
                lemma_pow2_vals();
                lemma_div_bit_step(self@, (i - 1) as nat);
                lemma_quotient_headroom(self@, q@, r@, rhs@, i as nat);
            }
            i = i - 1;
            let b = self.bit(i);
            let ghost n_cur = self@ / pow2(i as nat);
            let (r2, carry) = r.shl1(b);
            let ghost r2v = 2 * r@ + (if b { 1nat } else { 0nat });
            if carry || r2.ge(&rhs) {
                proof {
                    assert(r2v >= rhs@);
                    assert(r2v - rhs@ < rhs@ <= p192());
                }
                let ghost qv = q@;
                r = r2.sub_borrow(carry, &rhs);
                q = q.shl1(true).0;
                proof {
                    assert(q@ * rhs@ == 2 * (qv * rhs@) + rhs@) by (nonlinear_arith)
                        requires
                            q@ == 2 * qv + 1,
                    ;
                    assert(q@ * rhs@ + r@ == n_cur);
                }
            } else {
                let ghost qv = q@;
                r = r2;
                q = q.shl1(false).0;
                proof {
                    assert(q@ * rhs@ == 2 * (qv * rhs@)) by (nonlinear_arith)
                        requires
                            q@ == 2 * qv,
                    ;
                    assert(q@ * rhs@ + r@ == n_cur);
                }
            }
        }
        proof {
            lemma2_to64();
            assert(self@ / pow2(0) == self@);
            lemma_fundamental_div_mod_converse(
                self@ as int,
                rhs@ as int,
                q@ as int,
                r@ as int,
            );
        }
        (q, r)
    }

    /// Checked division: `None` exactly when the divisor is zero.
    pub fn checked_div(self, rhs: U192) -> (r: Option<U192>)
        ensures
            match r {
                Some(q) => rhs@ > 0 && q@ == self@ / rhs@,
                None => rhs@ == 0,
            },
    {
        if rhs.is_zero() {
            None
        } else {
            let (q, _rem) = self.div_rem(rhs);
            Some(q)
        }
    }

    /// 10^n, for exponents whose power still fits in 192 bits.
    pub fn exp10(n: usize) -> (r: U192)
        requires
            n <= 57,
        ensures
            r@ == crate::common::pow10(n as nat),
    {
        let mut acc = U192(1, 0, 0);
        let mut i: usize = 0;
        while i < n
            invariant
                i <= n <= 57,
                acc@ == crate::common::pow10(i as nat),
            decreases n - i,
        {
            proof {
                crate::common::lemma_pow10_increases((i + 1) as nat, 57);
                lemma_pow10_fits_192();
                assert(crate::common::pow10((i + 1) as nat) == 10 * crate::common::pow10(i as nat));
            }
            let (next, of) = acc.mul_u64(10);
            proof {
                assert(of == 0);
            }
            acc = next;
            i = i + 1;
        }
        acc
    }

    /// Shift left one bit, inserting `low` as the new bottom bit; the second
    /// component reports the bit shifted out past 2^192.
    fn shl1(self, low: bool) -> (r: (U192, bool))
        ensures
            r.0@ + (if r.1 { p192() } else { 0nat }) == 2 * self@ + (if low { 1nat } else { 0nat }),
    {
        let b: u128 = if low { 1 } else { 0 };
        let s0: u128 = (self.0 as u128) * 2 + b;
        let w0 = (s0 % TWO64) as u64;
        let c0 = s0 / TWO64;
        let s1: u128 = (self.1 as u128) * 2 + c0;
        let w1 = (s1 % TWO64) as u64;
        let c1 = s1 / TWO64;
        let s2: u128 = (self.2 as u128) * 2 + c1;
        let w2 = (s2 % TWO64) as u64;
        let c2 = s2 / TWO64;
        proof {
            lemma_fundamental_div_mod(s0 as int, TWO64 as int);
            lemma_fundamental_div_mod(s1 as int, TWO64 as int);
            lemma_fundamental_div_mod(s2 as int, TWO64 as int);
        }
        (U192(w0, w1, w2), c2 == 1)
    }

    /// The bit at position `i` of the value.
    fn bit(&self, i: usize) -> (b: bool)
        requires
            i < 192,
        ensures
            b == ((self@ / pow2(i as nat)) % 2 == 1),
    {
        proof {
            lemma_pow2_vals();
        }
        if i < 64 {
            proof {
                let hi = (self.1 + self.2 * p64()) as nat;
                assert(self@ == self.0 + pow2(64) * hi) by (nonlinear_arith)
                    requires
                        self@ == self.0 + self.1 * p64() + self.2 * p128(),
                        pow2(64) == p64(),
                        p128() == p64() * p64(),
                        hi == self.1 + self.2 * p64(),
                ;
                lemma_split_bit(self.0 as nat, hi, i as nat);
                lemma_u64_shr_is_div(self.0, i as u64);
            }
            let w = (self.0 >> (i as u64)) & 1;
            proof {
                let sh = self.0 >> (i as u64);
                assert((sh & 1) == sh % 2) by (bit_vector);
            }
            w == 1
        } else if i < 128 {
            proof {
                lemma_mid_word_div(*self);
                let k = (i - 64) as nat;
                lemma_pow2_pos(k);
                lemma_div_denominator(self@ as int, pow2(64) as int, pow2(k) as int);
                lemma_pow2_adds(64, k);
                lemma_split_bit(self.1 as nat, self.2 as nat, k);
                lemma_u64_shr_is_div(self.1, (i - 64) as u64);
            }
            let w = (self.1 >> ((i - 64) as u64)) & 1;
            proof {
                let sh = self.1 >> ((i - 64) as u64);
                assert((sh & 1) == sh % 2) by (bit_vector);
            }
            w == 1
        } else {
            proof {
                lemma_high_word_div(*self);
                let k = (i - 128) as nat;
                lemma_pow2_pos(k);
                lemma_div_denominator(self@ as int, pow2(128) as int, pow2(k) as int);
                lemma_pow2_adds(128, k);
                lemma_u64_shr_is_div(self.2, (i - 128) as u64);
            }
            let w = (self.2 >> ((i - 128) as u64)) & 1;
            proof {
                let sh = self.2 >> ((i - 128) as u64);
                assert((sh & 1) == sh % 2) by (bit_vector);
            }
            w == 1
        }
    }
}

/// Three decimal digits never outgrow ten binary ones: 10^(3k) <= 2^(10k).
proof fn lemma_pow10_le_pow2(k: nat)
    ensures
        crate::common::pow10(3 * k) <= pow2(10 * k),
    decreases k,
{
    lemma2_to64();
    if k > 0 {
        lemma_pow10_le_pow2((k - 1) as nat);
        let p = crate::common::pow10(3 * (k - 1) as nat);
        assert(crate::common::pow10(3 * k) == 10 * crate::common::pow10((3 * k - 1) as nat));
        assert(crate::common::pow10((3 * k - 1) as nat) == 10 * crate::common::pow10(
            (3 * k - 2) as nat,
        ));
        assert(crate::common::pow10((3 * k - 2) as nat) == 10 * crate::common::pow10(
            (3 * k - 3) as nat,
        ));
        assert(crate::common::pow10(3 * k) == 1000 * p);
        lemma_mul_inequality(p as int, pow2(10 * (k - 1) as nat) as int, 1000);
        lemma_pow2_adds(10 * (k - 1) as nat, 10);
        assert(1024 * pow2(10 * (k - 1) as nat) == pow2(10 * k)) by (nonlinear_arith)
            requires
                pow2(10 * (k - 1) as nat) * pow2(10) == pow2(10 * k),
                pow2(10) == 1024,
        ;
    }
}

/// The largest exponent `exp10` accepts still fits in 192 bits.
proof fn lemma_pow10_fits_192()
    ensures
        crate::common::pow10(57) < p192(),
{
    lemma_pow10_le_pow2(19);
    lemma_pow2_strictly_increases(190, 192);
    lemma_pow2_vals();
}

/// Dropping one bit position halves the quotient: the quotient by 2^i is
/// twice the quotient by 2^(i+1) plus the bit at position i.
proof fn lemma_div_bit_step(v: nat, i: nat)
    ensures
        v / pow2(i) == 2 * (v / pow2(i + 1)) + ((v / pow2(i)) % 2),
{
    lemma2_to64();
    lemma_pow2_adds(i, 1);
    lemma_pow2_pos(i);
    lemma_div_denominator(v as int, pow2(i) as int, 2);
    lemma_fundamental_div_mod((v / pow2(i)) as int, 2);
}

/// While bit positions remain, the partial quotient is small enough that one
/// more shifted-in bit still fits in 192 bits.
proof fn lemma_quotient_headroom(v: nat, q: nat, r: nat, d: nat, i: nat)
    requires
        v < p192(),
        d > 0,
        1 <= i <= 192,
        q * d + r == v / pow2(i),
    ensures
        2 * q + 1 < p192(),
{
    lemma_pow2_vals();
    lemma_pow2_pos(i);
    assert(q <= q * d) by (nonlinear_arith)
        requires
            d >= 1,
            q >= 0,
    ;
    assert(q <= v / pow2(i));
    lemma2_to64();
    lemma_pow2_pos((i - 1) as nat);
    lemma_div_denominator(v as int, 2, pow2((i - 1) as nat) as int);
    lemma_pow2_adds(1, (i - 1) as nat);
    assert(v / pow2(i) == (v / 2) / pow2((i - 1) as nat));
    lemma_div_is_ordered_by_denominator((v / 2) as int, 1, pow2((i - 1) as nat) as int);
    assert((v / 2) / pow2((i - 1) as nat) <= (v / 2) / 1);
    assert(v / pow2(i) <= v / 2);
}

/// A bit below position 64 of `lo + 2^64 * hi` is the matching bit of `lo`.
proof fn lemma_split_bit(lo: nat, hi: nat, k: nat)
    requires
        lo < pow2(64),
        k < 64,
    ensures
        ((lo + pow2(64) * hi) / pow2(k)) % 2 == (lo / pow2(k)) % 2,
{
    lemma_pow2_adds(k, (64 - k) as nat);
    lemma_pow2_pos(k);
    lemma_pow2_pos((64 - k) as nat);
    let j = pow2((64 - k) as nat) * hi;
    assert(j * pow2(k) == pow2(64) * hi) by (nonlinear_arith)
        requires
            j == pow2((64 - k) as nat) * hi,
            pow2(k) * pow2((64 - k) as nat) == pow2(64),
    ;
    lemma_hoist_over_denominator(lo as int, j as int, pow2(k));
    assert(((lo + pow2(64) * hi) as int) / (pow2(k) as int) == (lo as int) / (pow2(k) as int)
        + j);
    lemma_pow2_adds(1, (63 - k) as nat);
    lemma2_to64();
    assert(pow2((64 - k) as nat) == 2 * pow2((63 - k) as nat));
    assert(j == 2 * (pow2((63 - k) as nat) * hi)) by (nonlinear_arith)
        requires
            j == pow2((64 - k) as nat) * hi,
            pow2((64 - k) as nat) == 2 * pow2((63 - k) as nat),
    ;
    lemma_mod_multiples_vanish(
        (pow2((63 - k) as nat) * hi) as int,
        (lo / pow2(k)) as int,
        2,
    );
}

/// The value shifted right by one word is the upper two words.
proof fn lemma_mid_word_div(a: U192)
    ensures
        a@ / pow2(64) == a.1 + a.2 * p64(),
{
    lemma_pow2_vals();
    let hi = (a.1 + a.2 * p64()) as int;
    assert(a@ == a.0 + hi * p64() as int) by (nonlinear_arith)
        requires
            a@ == a.0 + a.1 * p64() + a.2 * p128(),
            p128() == p64() * p64(),
            hi == a.1 + a.2 * p64(),
    ;
    lemma_hoist_over_denominator(a.0 as int, hi, p64());
    lemma_basic_div(a.0 as int, p64() as int);
}

/// The value shifted right by two words is the top word.
proof fn lemma_high_word_div(a: U192)
    ensures
        a@ / pow2(128) == a.2,
{
    lemma_pow2_vals();
    lemma_mid_word_div(a);
    lemma_div_denominator(a@ as int, pow2(64) as int, pow2(64) as int);
    lemma_pow2_adds(64, 64);
    lemma_hoist_over_denominator(a.1 as int, a.2 as int, p64());
    lemma_basic_div(a.1 as int, p64() as int);
}

} // verus!
