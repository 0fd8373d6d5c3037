//! IEEE-754 double precision numbers.

use crate::numeric::binary32::{self, nearest, not_a_number, signed, Binary32};
use crate::numeric::magnitudes::{
    divide_magnitudes, format_ok, narrow_magnitude, truncate_magnitude, whole_magnitude,
};
use crate::numeric::rounding::{magnitude, rounded};
use vstd::arithmetic::power2::*;
use vstd::prelude::*;

verus! {

/// Fraction bits of the format.
pub const FRACTION_BITS: u32 = 52;

/// Encoding of positive infinity.
pub const INFINITY_BITS: u64 = 0x7ff0_0000_0000_0000;

/// Encoding of the sign.
pub const SIGN_BIT: u64 = 0x8000_0000_0000_0000;

/// Encoding of the quiet number that every undefined operation gives.
pub const NAN_BITS: u64 = 0x7ff8_0000_0000_0000;

/// The smallest positive number is `2^-1074`.
pub const SMALLEST_EXPONENT: u32 = 1074;

/// The smallest positive single precision number is `2^925` times as large.
pub const NARROWING_EXPONENT: u32 = 925;

/// A double precision number, held as its encoding.
#[derive(Debug, Clone, Copy, PartialEq, Eq, Structural)]
pub struct Binary64 {
    pub bits: u64,
}

/// The number with the given sign whose absolute value has encoding `b`.
pub open spec fn signed_double(negative: bool, b: nat) -> Binary64 {
    Binary64 {
        bits: (if negative {
            b + SIGN_BIT
        } else {
            b as int
        }) as u64,
    }
}

/// The double precision number nearest to `num / den` times the smallest
/// positive number.
pub open spec fn nearest_double(num: nat, den: nat) -> nat {
    rounded(FRACTION_BITS as nat, INFINITY_BITS as nat, num, den)
}

/// The double precision number nearest to `n`.
pub open spec fn whole_double(n: u64) -> Binary64 {
    signed_double(false, nearest_double(n as nat * pow2(SMALLEST_EXPONENT as nat), 1))
}

impl Binary64 {
    pub open spec fn negative(self) -> bool {
        self.bits >= SIGN_BIT
    }

    /// Encoding of the absolute value.
    pub open spec fn absolute(self) -> nat {
        if self.negative() {
            (self.bits - SIGN_BIT) as nat
        } else {
            self.bits as nat
        }
    }

    pub open spec fn nan(self) -> bool {
        self.absolute() > INFINITY_BITS
    }

    pub open spec fn infinite(self) -> bool {
        self.absolute() == INFINITY_BITS
    }

    pub open spec fn is_zero(self) -> bool {
        self.absolute() == 0
    }

    /// `self > 0`.
    pub open spec fn over_zero(self) -> bool {
        !self.nan() && !self.negative() && !self.is_zero()
    }

    /// Absolute value in units of the smallest positive number.
    pub open spec fn size(self) -> nat {
        magnitude(FRACTION_BITS as nat, self.absolute())
    }

    pub open spec fn quotient(self, other: Binary64) -> Binary64 {
        let sign = self.negative() != other.negative();
        if self.nan() || other.nan() {
            Binary64 { bits: NAN_BITS }
        } else if self.infinite() {
            if other.infinite() {
                Binary64 { bits: NAN_BITS }
            } else {
                signed_double(sign, INFINITY_BITS as nat)
            }
        } else if other.infinite() {
            signed_double(sign, 0)
        } else if other.is_zero() {
            if self.is_zero() {
                Binary64 { bits: NAN_BITS }
            } else {
                signed_double(sign, INFINITY_BITS as nat)
            }
        } else {
            signed_double(
                sign,
                nearest_double(self.size() * pow2(SMALLEST_EXPONENT as nat), other.size()),
            )
        }
    }

    /// The whole number that remains when the fraction is cut off, brought into
    /// the range of `u64`.
    pub open spec fn truncated(self) -> u64 {
        if self.nan() || self.negative() {
            0
        } else if self.infinite() {
            u64::MAX
        } else {
            let whole = self.size() / pow2(SMALLEST_EXPONENT as nat);
            if whole > u64::MAX {
                u64::MAX
            } else {
                whole as u64
            }
        }
    }

    /// The nearest single precision number.
    pub open spec fn narrowed(self) -> Binary32 {
        if self.nan() {
            not_a_number()
        } else if self.infinite() {
            signed(self.negative(), binary32::INFINITY_BITS as nat)
        } else {
            signed(self.negative(), nearest(self.size(), pow2(NARROWING_EXPONENT as nat)))
        }
    }

    pub fn from_bits(bits: u64) -> (r: Binary64)
        ensures
            r.bits == bits,
    {
        Binary64 { bits }
    }

    pub fn to_bits(self) -> (bits: u64)
        ensures
            bits == self.bits,
    {
        self.bits
    }

    pub fn is_negative(self) -> (b: bool)
        ensures
            b == self.negative(),
    {
        self.bits >= SIGN_BIT
    }

    pub fn absolute_bits(self) -> (b: u64)
        ensures
            b == self.absolute(),
    {
        if self.bits >= SIGN_BIT {
            self.bits - SIGN_BIT
        } else {
            self.bits
        }
    }

    pub fn is_nan(self) -> (b: bool)
        ensures
            b == self.nan(),
    {
        self.absolute_bits() > INFINITY_BITS
    }

    pub fn is_infinite(self) -> (b: bool)
        ensures
            b == self.infinite(),
    {
        self.absolute_bits() == INFINITY_BITS
    }

    /// `self > 0` as numbers.
    pub fn is_positive(self) -> (b: bool)
        ensures
            b == self.over_zero(),
    {
        !self.is_nan() && !self.is_negative() && self.absolute_bits() != 0
    }

    fn with_sign(negative: bool, b: u64) -> (r: Binary64)
        requires
            b <= INFINITY_BITS,
        ensures
            r == signed_double(negative, b as nat),
    {
        if negative {
            Binary64 { bits: b + SIGN_BIT }
        } else {
            Binary64 { bits: b }
        }
    }

    /// The number nearest to `n`.
    pub fn from_whole(n: u64) -> (r: Binary64)
        ensures
            r == whole_double(n),
    {
        proof {
            lemma_format();
        }
        let b: u64 = whole_magnitude(FRACTION_BITS, INFINITY_BITS, SMALLEST_EXPONENT, n);
        Binary64::with_sign(false, b)
    }

    pub fn divided_by(self, other: Binary64) -> (r: Binary64)
        ensures
            r == self.quotient(other),
    {
        if self.is_nan() || other.is_nan() {
            return Binary64 { bits: NAN_BITS };
        }
        let sign: bool = self.is_negative() != other.is_negative();
        let a: u64 = self.absolute_bits();
        let b: u64 = other.absolute_bits();
        let inf: u64 = INFINITY_BITS;
        if a == inf {
            return if b == inf {
                Binary64 { bits: NAN_BITS }
            } else {
                Binary64::with_sign(sign, inf)
            };
        }
        if b == inf {
            return Binary64::with_sign(sign, 0);
        }
        if b == 0 {
            return if a == 0 {
                Binary64 { bits: NAN_BITS }
            } else {
                Binary64::with_sign(sign, inf)
            };
        }
        proof {
            lemma_format();
        }
        let r: u64 = divide_magnitudes(FRACTION_BITS, inf, SMALLEST_EXPONENT, a, b);
        Binary64::with_sign(sign, r)
    }

    /// Cuts the fraction off; what is no number becomes 0, and what lies outside
    /// of the range of `u64` its nearest end.
    pub fn to_whole(self) -> (n: u64)
        ensures
            n == self.truncated(),
    {
        if self.is_nan() || self.is_negative() {
            return 0;
        }
        if self.is_infinite() {
            return u64::MAX;
        }
        proof {
            lemma_format();
        }
        truncate_magnitude(FRACTION_BITS, INFINITY_BITS, SMALLEST_EXPONENT, self.bits)
    }

    /// The nearest single precision number.
    pub fn narrow(self) -> (r: Binary32)
        ensures
            r == self.narrowed(),
    {
        if self.is_nan() {
            return Binary32 { bits: binary32::NAN_BITS };
        }
        let inf: u32 = binary32::INFINITY_BITS;
        let b: u64 = if self.is_infinite() {
            inf as u64
        } else {
            proof {
                lemma2_to64();
                lemma2_to64_rest();
            }
            narrow_magnitude(
                binary32::FRACTION_BITS,
                inf as u64,
                NARROWING_EXPONENT,
                FRACTION_BITS,
                self.absolute_bits(),
            )
        };
        if self.is_negative() {
            Binary32 { bits: b as u32 + binary32::SIGN_BIT }
        } else {
            Binary32 { bits: b as u32 }
        }
    }
}

/// The constants of this module describe a format.
proof fn lemma_format()
    ensures
        format_ok(FRACTION_BITS, INFINITY_BITS, SMALLEST_EXPONENT),
{
    lemma2_to64();
    lemma2_to64_rest();
}

} // verus!
