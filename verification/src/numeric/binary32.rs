//! IEEE-754 single precision numbers.

use crate::numeric::magnitudes::{
    add_magnitudes, divide_magnitudes, format_ok, multiply_magnitudes, subtract_magnitudes,
    whole_magnitude,
};
use crate::numeric::rounding::{
    lemma_magnitude_monotone, lemma_rounded, lemma_rounded_exists, lemma_rounded_monotone,
    magnitude, rounded, rounds_to,
};
use crate::numeric::roots::{
    lemma_rounded_root_exists, root_magnitude, rounded_root, rounds_to_root,
};
use vstd::arithmetic::power2::*;
use vstd::prelude::*;

verus! {

/// Fraction bits of the format.
pub const FRACTION_BITS: u32 = 23;

/// Encoding of positive infinity.
pub const INFINITY_BITS: u32 = 0x7f80_0000;

/// Encoding of the sign.
pub const SIGN_BIT: u32 = 0x8000_0000;

/// Encoding of the quiet number that every undefined operation gives.
pub const NAN_BITS: u32 = 0x7fc0_0000;

/// The smallest positive number is `2^-149`.
pub const SMALLEST_EXPONENT: u32 = 149;

/// A single precision number, held as its encoding.
///
/// `==` compares encodings; `equals` compares the numbers.
#[derive(Debug, Clone, Copy, PartialEq, Eq, Structural)]
pub struct Binary32 {
    pub bits: u32,
}

/// The number with the given sign whose absolute value has encoding `b`.
pub open spec fn signed(negative: bool, b: nat) -> Binary32 {
    Binary32 {
        bits: (if negative {
            b + SIGN_BIT
        } else {
            b as int
        }) as u32,
    }
}

pub open spec fn number_zero() -> Binary32 {
    Binary32 { bits: 0 }
}

pub open spec fn not_a_number() -> Binary32 {
    Binary32 { bits: NAN_BITS }
}

/// The single precision number nearest to `num / den` times the smallest
/// positive number.
pub open spec fn nearest(num: nat, den: nat) -> nat {
    rounded(FRACTION_BITS as nat, INFINITY_BITS as nat, num, den)
}

/// The single precision number nearest to `n`.
pub open spec fn whole_single(n: u64) -> Binary32 {
    signed(false, nearest(n as nat * pow2(SMALLEST_EXPONENT as nat), 1))
}

impl Binary32 {
    pub open spec fn negative(self) -> bool {
        self.bits >= SIGN_BIT
    }

    /// Encoding of the absolute value.
    pub open spec fn absolute(self) -> nat {
        if self.negative() {
            (self.bits - SIGN_BIT) as nat
        } else {
            self.bits as nat
        }
    }

    pub open spec fn nan(self) -> bool {
        self.absolute() > INFINITY_BITS
    }

    pub open spec fn infinite(self) -> bool {
        self.absolute() == INFINITY_BITS
    }

    pub open spec fn finite(self) -> bool {
        self.absolute() < INFINITY_BITS
    }

    pub open spec fn is_zero(self) -> bool {
        self.absolute() == 0
    }

    /// Position of the number in the order of the reals; both zeros have
    /// position 0.
    pub open spec fn position(self) -> int {
        if self.negative() {
            -(self.absolute() as int)
        } else {
            self.absolute() as int
        }
    }

    /// Absolute value in units of the smallest positive number.
    pub open spec fn size(self) -> nat {
        magnitude(FRACTION_BITS as nat, self.absolute())
    }

    /// The number itself, in units of the smallest positive number.
    pub open spec fn value(self) -> int {
        if self.negative() {
            -(self.size() as int)
        } else {
            self.size() as int
        }
    }

    /// `self < other`.
    pub open spec fn below(self, other: Binary32) -> bool {
        !self.nan() && !other.nan() && self.position() < other.position()
    }

    /// `self <= other`.
    pub open spec fn not_over(self, other: Binary32) -> bool {
        !self.nan() && !other.nan() && self.position() <= other.position()
    }

    /// `self == other` as numbers: the two zeros are equal, and no number equals what is
    /// no number.
    pub open spec fn same_number(self, other: Binary32) -> bool {
        !self.nan() && !other.nan() && self.position() == other.position()
    }

    /// `self` cut to the interval from `min` to `max`.
    pub open spec fn clamped(self, min: Binary32, max: Binary32) -> Binary32 {
        if self.below(min) {
            min
        } else if max.below(self) {
            max
        } else {
            self
        }
    }

    pub open spec fn opposite(self) -> Binary32 {
        signed(!self.negative(), self.absolute())
    }

    /// The larger of two numbers; of a number and no number, the number.
    pub open spec fn larger_of(self, other: Binary32) -> Binary32 {
        if self.nan() || self.below(other) {
            other
        } else {
            self
        }
    }

    /// The smaller of two numbers; of a number and no number, the number.
    pub open spec fn smaller_of(self, other: Binary32) -> Binary32 {
        if self.nan() || other.below(self) {
            other
        } else {
            self
        }
    }

    pub open spec fn sum(self, other: Binary32) -> Binary32 {
        if self.nan() || other.nan() {
            not_a_number()
        } else if self.infinite() {
            if other.infinite() && self.negative() != other.negative() {
                not_a_number()
            } else {
                self
            }
        } else if other.infinite() {
            other
        } else {
            let exact = self.value() + other.value();
            if exact == 0 {
                signed(self.negative() && other.negative(), 0)
            } else if exact < 0 {
                signed(true, nearest((-exact) as nat, 1))
            } else {
                signed(false, nearest(exact as nat, 1))
            }
        }
    }

    pub open spec fn difference(self, other: Binary32) -> Binary32 {
        self.sum(other.opposite())
    }

    pub open spec fn product(self, other: Binary32) -> Binary32 {
        let sign = self.negative() != other.negative();
        if self.nan() || other.nan() {
            not_a_number()
        } else if self.infinite() || other.infinite() {
            if self.is_zero() || other.is_zero() {
                not_a_number()
            } else {
                signed(sign, INFINITY_BITS as nat)
            }
        } else {
            signed(sign, nearest(self.size() * other.size(), pow2(SMALLEST_EXPONENT as nat)))
        }
    }

    pub open spec fn quotient(self, other: Binary32) -> Binary32 {
        let sign = self.negative() != other.negative();
        if self.nan() || other.nan() {
            not_a_number()
        } else if self.infinite() {
            if other.infinite() {
                not_a_number()
            } else {
                signed(sign, INFINITY_BITS as nat)
            }
        } else if other.infinite() {
            signed(sign, 0)
        } else if other.is_zero() {
            if self.is_zero() {
                not_a_number()
            } else {
                signed(sign, INFINITY_BITS as nat)
            }
        } else {
            signed(sign, nearest(self.size() * pow2(SMALLEST_EXPONENT as nat), other.size()))
        }
    }

    pub open spec fn root(self) -> Binary32 {
        if self.nan() {
            not_a_number()
        } else if self.is_zero() {
            self
        } else if self.negative() {
            not_a_number()
        } else if self.infinite() {
            self
        } else {
            signed(
                false,
                rounded_root(
                    FRACTION_BITS as nat,
                    self.size() * pow2(SMALLEST_EXPONENT as nat),
                ),
            )
        }
    }

    pub fn from_bits(bits: u32) -> (r: Binary32)
        ensures
            r.bits == bits,
    {
        Binary32 { bits }
    }

    pub fn to_bits(self) -> (bits: u32)
        ensures
            bits == self.bits,
    {
        self.bits
    }

    /// Positive zero.
    pub fn zero() -> (r: Binary32)
        ensures
            r == number_zero(),
    {
        Binary32 { bits: 0 }
    }

    pub fn is_negative(self) -> (b: bool)
        ensures
            b == self.negative(),
    {
        self.bits >= SIGN_BIT
    }

    fn absolute_bits(self) -> (b: u32)
        ensures
            b == self.absolute(),
    {
        if self.bits >= SIGN_BIT {
            self.bits - SIGN_BIT
        } else {
            self.bits
        }
    }

    pub fn is_nan(self) -> (b: bool)
        ensures
            b == self.nan(),
    {
        self.absolute_bits() > INFINITY_BITS
    }

    pub fn is_infinite(self) -> (b: bool)
        ensures
            b == self.infinite(),
    {
        self.absolute_bits() == INFINITY_BITS
    }

    pub fn is_finite(self) -> (b: bool)
        ensures
            b == self.finite(),
    {
        self.absolute_bits() < INFINITY_BITS
    }

    fn position_of(self) -> (p: i64)
        ensures
            p == self.position(),
    {
        if self.bits >= SIGN_BIT {
            -((self.bits - SIGN_BIT) as i64)
        } else {
            self.bits as i64
        }
    }

    /// `self < other` as numbers.
    pub fn less_than(self, other: Binary32) -> (b: bool)
        ensures
            b == self.below(other),
    {
        !self.is_nan() && !other.is_nan() && self.position_of() < other.position_of()
    }

    /// `self <= other` as numbers.
    pub fn at_most(self, other: Binary32) -> (b: bool)
        ensures
            b == self.not_over(other),
    {
        !self.is_nan() && !other.is_nan() && self.position_of() <= other.position_of()
    }

    /// `self == other` as numbers.
    pub fn equals(self, other: Binary32) -> (b: bool)
        ensures
            b == self.same_number(other),
    {
        !self.is_nan() && !other.is_nan() && self.position_of() == other.position_of()
    }

    /// Cuts the number to the interval from `min` to `max`.
    pub fn clamp(self, min: Binary32, max: Binary32) -> (r: Binary32)
        requires
            min.not_over(max),
        ensures
            r == self.clamped(min, max),
    {
        if self.less_than(min) {
            min
        } else if max.less_than(self) {
            max
        } else {
            self
        }
    }

    pub fn negated(self) -> (r: Binary32)
        ensures
            r == self.opposite(),
    {
        if self.bits >= SIGN_BIT {
            Binary32 { bits: self.bits - SIGN_BIT }
        } else {
            Binary32 { bits: self.bits + SIGN_BIT }
        }
    }

    pub fn absolute_value(self) -> (r: Binary32)
        ensures
            r == signed(false, self.absolute()),
    {
        Binary32 { bits: self.absolute_bits() }
    }

    pub fn larger(self, other: Binary32) -> (r: Binary32)
        ensures
            r == self.larger_of(other),
    {
        if self.is_nan() || self.less_than(other) {
            other
        } else {
            self
        }
    }

    pub fn smaller(self, other: Binary32) -> (r: Binary32)
        ensures
            r == self.smaller_of(other),
    {
        if self.is_nan() || other.less_than(self) {
            other
        } else {
            self
        }
    }

    fn with_sign(negative: bool, b: u64) -> (r: Binary32)
        requires
            b <= INFINITY_BITS,
        ensures
            r == signed(negative, b as nat),
    {
        if negative {
            Binary32 { bits: b as u32 + SIGN_BIT }
        } else {
            Binary32 { bits: b as u32 }
        }
    }

    pub fn plus(self, other: Binary32) -> (r: Binary32)
        ensures
            r == self.sum(other),
    {
        if self.is_nan() || other.is_nan() {
            return Binary32 { bits: NAN_BITS };
        }
        let sa: bool = self.is_negative();
        let sb: bool = other.is_negative();
        if self.is_infinite() {
            return if other.is_infinite() && sa != sb {
                Binary32 { bits: NAN_BITS }
            } else {
                self
            };
        }
        if other.is_infinite() {
            return other;
        }
        let a: u64 = self.absolute_bits() as u64;
        let b: u64 = other.absolute_bits() as u64;
        let inf: u64 = INFINITY_BITS as u64;
        proof {
            lemma_format();
            lemma_size_zero(self);
            lemma_size_zero(other);
            if a < b {
                lemma_magnitude_monotone(FRACTION_BITS as nat, a as nat, b as nat);
            } else if b < a {
                lemma_magnitude_monotone(FRACTION_BITS as nat, b as nat, a as nat);
            }
        }
        if sa == sb {
            if a == 0 && b == 0 {
                return Binary32::with_sign(sa, 0);
            }
            let r: u64 = add_magnitudes(FRACTION_BITS, inf, SMALLEST_EXPONENT, a, b);
            Binary32::with_sign(sa, r)
        } else if a == b {
            Binary32 { bits: 0 }
        } else if a > b {
            let r: u64 = subtract_magnitudes(FRACTION_BITS, inf, SMALLEST_EXPONENT, a, b);
            Binary32::with_sign(sa, r)
        } else {
            let r: u64 = subtract_magnitudes(FRACTION_BITS, inf, SMALLEST_EXPONENT, b, a);
            Binary32::with_sign(sb, r)
        }
    }

    pub fn minus(self, other: Binary32) -> (r: Binary32)
        ensures
            r == self.difference(other),
    {
        self.plus(other.negated())
    }

    pub fn times(self, other: Binary32) -> (r: Binary32)
        ensures
            r == self.product(other),
    {
        if self.is_nan() || other.is_nan() {
            return Binary32 { bits: NAN_BITS };
        }
        let sign: bool = self.is_negative() != other.is_negative();
        let a: u64 = self.absolute_bits() as u64;
        let b: u64 = other.absolute_bits() as u64;
        let inf: u64 = INFINITY_BITS as u64;
        if a == inf || b == inf {
            return if a == 0 || b == 0 {
                Binary32 { bits: NAN_BITS }
            } else {
                Binary32::with_sign(sign, inf)
            };
        }
        proof {
            lemma_format();
        }
        let r: u64 = multiply_magnitudes(FRACTION_BITS, inf, SMALLEST_EXPONENT, a, b);
        Binary32::with_sign(sign, r)
    }

    /// The number nearest to `n`.
    pub fn from_whole(n: u64) -> (r: Binary32)
        ensures
            r == whole_single(n),
    {
        proof {
            lemma_format();
        }
        let b: u64 = whole_magnitude(FRACTION_BITS, INFINITY_BITS as u64, SMALLEST_EXPONENT, n);
        Binary32::with_sign(false, b)
    }

    pub fn divided_by(self, other: Binary32) -> (r: Binary32)
        ensures
            r == self.quotient(other),
    {
        if self.is_nan() || other.is_nan() {
            return Binary32 { bits: NAN_BITS };
        }
        let sign: bool = self.is_negative() != other.is_negative();
        let a: u64 = self.absolute_bits() as u64;
        let b: u64 = other.absolute_bits() as u64;
        let inf: u64 = INFINITY_BITS as u64;
        if a == inf {
            return if b == inf {
                Binary32 { bits: NAN_BITS }
            } else {
                Binary32::with_sign(sign, inf)
            };
        }
        if b == inf {
            return Binary32::with_sign(sign, 0);
        }
        if b == 0 {
            return if a == 0 {
                Binary32 { bits: NAN_BITS }
            } else {
                Binary32::with_sign(sign, inf)
            };
        }
        proof {
            lemma_format();
        }
        let r: u64 = divide_magnitudes(FRACTION_BITS, inf, SMALLEST_EXPONENT, a, b);
        Binary32::with_sign(sign, r)
    }

    pub fn square_root(self) -> (r: Binary32)
        ensures
            r == self.root(),
            r.nan() || r.position() >= 0,
    {
        if self.is_nan() {
            return Binary32 { bits: NAN_BITS };
        }
        if self.absolute_bits() == 0 {
            return self;
        }
        if self.is_negative() {
            return Binary32 { bits: NAN_BITS };
        }
        if self.is_infinite() {
            return self;
        }
        proof {
            lemma_format();
        }
        let r: u64 = root_magnitude(
            FRACTION_BITS,
            INFINITY_BITS as u64,
            SMALLEST_EXPONENT,
            self.bits as u64,
        );
        proof {
            lemma_root_finite(self, r as nat);
        }
        Binary32::with_sign(false, r)
    }

    /// The number encoded by four bytes, least significant first.
    pub fn from_le_bytes(b0: u8, b1: u8, b2: u8, b3: u8) -> (r: Binary32)
        ensures
            r == decoded(seq![b0, b1, b2, b3]),
    {
        Binary32 {
            bits: b0 as u32 + 256 * (b1 as u32) + 65536 * (b2 as u32) + 16777216 * (b3 as u32),
        }
    }

    /// The four bytes of the encoding, least significant first.
    pub fn to_le_bytes(self) -> (b: [u8; 4])
        ensures
            b@ == self.encoded(),
    {
        let x: u32 = self.bits;
        let b: [u8; 4] = [
            (x % 256) as u8,
            (x / 256 % 256) as u8,
            (x / 65536 % 256) as u8,
            (x / 16777216) as u8,
        ];
        assert(b@ =~= self.encoded());
        b
    }

    /// The four bytes of the encoding, least significant first.
    pub open spec fn encoded(self) -> Seq<u8> {
        seq![
            (self.bits % 256) as u8,
            (self.bits / 256 % 256) as u8,
            (self.bits / 65536 % 256) as u8,
            (self.bits / 16777216) as u8,
        ]
    }
}

/// The number whose encoding is `b`, least significant byte first.
pub open spec fn decoded(b: Seq<u8>) -> Binary32 {
    Binary32 { bits: (b[0] + 256 * b[1] + 65536 * b[2] + 16777216 * b[3]) as u32 }
}

/// The constants of this module describe a format.
proof fn lemma_format()
    ensures
        format_ok(FRACTION_BITS, INFINITY_BITS as u64, SMALLEST_EXPONENT),
{
    lemma2_to64();
}

proof fn lemma_size_zero(x: Binary32)
    ensures
        x.size() == 0 <==> x.absolute() == 0,
{
    lemma2_to64();
    assert(magnitude(FRACTION_BITS as nat, 0) == 0);
    if x.absolute() > 0 {
        lemma_magnitude_monotone(FRACTION_BITS as nat, 0, x.absolute());
    }
}

/// The root of a finite number is finite.
pub proof fn lemma_root_finite(x: Binary32, b: nat)
    requires
        x.finite(),
        rounds_to_root(FRACTION_BITS as nat, x.size() * pow2(SMALLEST_EXPONENT as nat), b),
    ensures
        b < INFINITY_BITS,
{
    let f = FRACTION_BITS as nat;
    let inf = INFINITY_BITS as nat;
    let n = x.size() * pow2(SMALLEST_EXPONENT as nat);
    lemma2_to64();
    lemma_pow2_adds(23, 254);
    assert(inf / pow2(23) == 255);
    assert(inf % pow2(23) == 0);
    assert(magnitude(f, inf) == pow2(277));
    lemma_magnitude_monotone(f, x.absolute(), inf);
    lemma_pow2_adds(277, SMALLEST_EXPONENT as nat);
    lemma_pow2_adds(277, 277);
    lemma_pow2_strictly_increases(428, 554);
    lemma_pow2_adds(2, 426);
    lemma_pow2_pos(SMALLEST_EXPONENT as nat);
    assert(n < pow2(426)) by (nonlinear_arith)
        requires
            n == x.size() * pow2(SMALLEST_EXPONENT as nat),
            x.size() < pow2(277),
            pow2(426) == pow2(277) * pow2(SMALLEST_EXPONENT as nat),
            pow2(SMALLEST_EXPONENT as nat) > 0,
    ;
    if b >= inf {
        if b > inf {
            lemma_magnitude_monotone(f, inf, b);
        }
        let mid = magnitude(f, (b - 1) as nat) + magnitude(f, b);
        assert(mid * mid >= pow2(277) * pow2(277)) by (nonlinear_arith)
            requires
                mid >= pow2(277),
        ;
    }
}

/// Four bytes read back give the number that was written.
pub proof fn law_bytes_round_trip(x: Binary32)
    ensures
        decoded(x.encoded()) == x,
        x.encoded().len() == 4,
{
}

/// Writing what was read gives the bytes back.
pub proof fn law_encoding_round_trip(b: Seq<u8>)
    requires
        b.len() == 4,
    ensures
        decoded(b).encoded() == b,
{
    let w = b[3] as int;
    let z = b[2] + 256 * w;
    let y = b[1] + 256 * z;
    let x = b[0] + 256 * y;
    assert(x == b[0] + 256 * b[1] + 65536 * b[2] + 16777216 * b[3]);
    assert(decoded(b).bits == x);
    assert(x / 256 == y && x % 256 == b[0]);
    assert(x / 65536 == z && y % 256 == b[1]);
    assert(x / 16777216 == w && z % 256 == b[2]);
    assert(decoded(b).encoded() =~= b);
}

/// The order of positions is the order of the numbers.
pub proof fn law_position_orders_values(a: Binary32, b: Binary32)
    requires
        !a.nan(),
        !b.nan(),
    ensures
        a.position() < b.position() <==> a.value() < b.value(),
        a.position() == b.position() <==> a.value() == b.value(),
{
    lemma_size_zero(a);
    lemma_size_zero(b);
    if a.absolute() < b.absolute() {
        lemma_magnitude_monotone(FRACTION_BITS as nat, a.absolute(), b.absolute());
    } else if b.absolute() < a.absolute() {
        lemma_magnitude_monotone(FRACTION_BITS as nat, b.absolute(), a.absolute());
    }
}

/// Sums do not depend on the order of the numbers.
pub proof fn law_sum_commutes(x: Binary32, y: Binary32)
    ensures
        x.sum(y) == y.sum(x),
{
}

/// Adding the same number to two numbers keeps their order, where both sums are
/// defined.
pub proof fn law_sum_monotone(x: Binary32, y: Binary32, p: Binary32)
    requires
        x.not_over(y),
        !x.sum(p).nan(),
        !y.sum(p).nan(),
    ensures
        x.sum(p).not_over(y.sum(p)),
{
    if p.finite() && x.finite() && y.finite() {
        law_position_orders_values(x, y);
        let small = x.value() + p.value();
        let large = y.value() + p.value();
        let f = FRACTION_BITS as nat;
        let inf = INFINITY_BITS as nat;
        if small > 0 {
            lemma_rounded_monotone(f, inf, small as nat, large as nat, 1);
        }
        if large < 0 {
            lemma_rounded_monotone(f, inf, (-large) as nat, (-small) as nat, 1);
        }
        lemma_rounded_exists(f, inf, small as nat, 1);
        lemma_rounded_exists(f, inf, large as nat, 1);
        lemma_rounded_exists(f, inf, (-small) as nat, 1);
        lemma_rounded_exists(f, inf, (-large) as nat, 1);
    } else if p.finite() {
        lemma_sum_bounded(x, p);
        lemma_sum_bounded(y, p);
    }
}

/// The sum of two numbers is defined, unless both are infinite.
pub proof fn lemma_sum_defined(x: Binary32, p: Binary32)
    requires
        !x.nan(),
        !p.nan(),
        x.finite() || p.finite(),
    ensures
        !x.sum(p).nan(),
{
    let exact = x.value() + p.value();
    let f = FRACTION_BITS as nat;
    let inf = INFINITY_BITS as nat;
    lemma_rounded_exists(f, inf, exact as nat, 1);
    lemma_rounded_exists(f, inf, (-exact) as nat, 1);
}

/// The product of two finite numbers is defined.
pub proof fn lemma_product_defined(x: Binary32, y: Binary32)
    requires
        x.finite(),
        y.finite(),
    ensures
        !x.product(y).nan(),
{
    lemma_rounded_exists(
        FRACTION_BITS as nat,
        INFINITY_BITS as nat,
        x.size() * y.size(),
        pow2(SMALLEST_EXPONENT as nat),
    );
}

/// A quotient is defined, unless the divisor is zero or both numbers are infinite.
pub proof fn lemma_quotient_defined(x: Binary32, y: Binary32)
    requires
        !x.nan(),
        !y.nan(),
        !y.is_zero(),
        x.finite() || y.finite(),
    ensures
        !x.quotient(y).nan(),
{
    lemma_rounded_exists(
        FRACTION_BITS as nat,
        INFINITY_BITS as nat,
        x.size() * pow2(SMALLEST_EXPONENT as nat),
        y.size(),
    );
}

/// A root is not negative.
pub proof fn lemma_root_not_negative(x: Binary32)
    ensures
        x.root().nan() || x.root().position() >= 0,
{
    if !x.nan() && !x.is_zero() && !x.negative() && !x.infinite() {
        let n = x.size() * pow2(SMALLEST_EXPONENT as nat);
        lemma_rounded_root_exists(FRACTION_BITS as nat, n);
        lemma_root_finite(x, rounded_root(FRACTION_BITS as nat, n));
    }
}

/// A number that is in the format rounds to itself.
pub proof fn lemma_exact(b: nat, den: nat)
    requires
        b <= INFINITY_BITS,
        den > 0,
    ensures
        nearest(magnitude(FRACTION_BITS as nat, b) * den, den) == b,
{
    let f = FRACTION_BITS as nat;
    let inf = INFINITY_BITS as nat;
    let m = magnitude(f, b);
    lemma_magnitude_monotone(f, b, b + 1);
    let above = m + magnitude(f, b + 1);
    assert(2 * (m * den) < above * den) by (nonlinear_arith)
        requires
            2 * m < above,
            den > 0,
    ;
    if b > 0 {
        lemma_magnitude_monotone(f, (b - 1) as nat, b);
        let below = magnitude(f, (b - 1) as nat) + m;
        assert(2 * (m * den) > below * den) by (nonlinear_arith)
            requires
                2 * m > below,
                den > 0,
        ;
    }
    assert(rounds_to(f, inf, m * den, den, b));
    lemma_rounded(f, inf, m * den, den, b);
}

/// Adding zero keeps a finite number.
pub proof fn law_sum_with_zero(p: Binary32, zero: Binary32)
    requires
        p.finite(),
        zero.is_zero(),
    ensures
        p.sum(zero).same_number(p),
        p.sum(zero).finite(),
        p.is_zero() ==> p.sum(zero).is_zero(),
{
    lemma_size_zero(zero);
    lemma_size_zero(p);
    lemma_exact(p.absolute(), 1);
    assert(p.size() * 1 == p.size());
}

/// Adding to zero keeps a finite number.
pub proof fn law_zero_sum(p: Binary32)
    requires
        p.finite(),
    ensures
        number_zero().sum(p).same_number(p),
{
    law_sum_commutes(number_zero(), p);
    law_sum_with_zero(p, number_zero());
}

/// Exchanging the numbers of a difference gives the opposite number.
pub proof fn law_difference_is_opposite(x: Binary32, y: Binary32)
    requires
        !x.difference(y).nan(),
    ensures
        x.difference(y).same_number(y.difference(x).opposite()),
{
    let exact = x.value() + y.opposite().value();
    assert(y.opposite().value() == -y.value());
    assert(x.opposite().value() == -x.value());
    let f = FRACTION_BITS as nat;
    let inf = INFINITY_BITS as nat;
    lemma_rounded_exists(f, inf, exact as nat, 1);
    lemma_rounded_exists(f, inf, (-exact) as nat, 1);
}

/// Products do not depend on the order of the numbers.
pub proof fn law_product_commutes(x: Binary32, y: Binary32)
    ensures
        x.product(y) == y.product(x),
{
    assert(x.size() * y.size() == y.size() * x.size()) by (nonlinear_arith);
}

/// Multiplying by 1 keeps a finite number.
pub proof fn law_product_one(x: Binary32)
    requires
        x.finite(),
    ensures
        (Binary32 { bits: 0x3f80_0000 }).product(x) == x,
{
    let one = Binary32 { bits: 0x3f80_0000 };
    let unit = pow2(SMALLEST_EXPONENT as nat);
    lemma2_to64();
    lemma_pow2_adds(23, 126);
    lemma_pow2_pos(149);
    assert(0x3f80_0000nat / 8388608 == 127);
    assert(0x3f80_0000nat % 8388608 == 0);
    assert(one.size() == unit);
    assert(one.size() * x.size() == x.size() * unit) by (nonlinear_arith)
        requires
            one.size() == unit,
    ;
    lemma_exact(x.absolute(), unit);
}

/// Multiplying by 0 gives a zero.
pub proof fn law_product_zero(x: Binary32)
    requires
        x.finite(),
    ensures
        number_zero().product(x).is_zero(),
        number_zero().product(x).finite(),
{
    let unit = pow2(SMALLEST_EXPONENT as nat);
    lemma_size_zero(number_zero());
    lemma_pow2_pos(149);
    lemma_exact(0, unit);
    assert(magnitude(FRACTION_BITS as nat, 0) == 0) by {
        lemma2_to64();
    }
    assert(0 * unit == 0) by (nonlinear_arith);
    assert(number_zero().size() * x.size() == 0) by (nonlinear_arith)
        requires
            number_zero().size() == 0,
    ;
}

/// Dividing a zero by a finite number other than zero gives a zero.
pub proof fn law_zero_quotient(zero: Binary32, x: Binary32)
    requires
        zero.is_zero(),
        x.finite(),
        !x.is_zero(),
    ensures
        zero.quotient(x).is_zero(),
        zero.quotient(x).finite(),
{
    let unit = pow2(SMALLEST_EXPONENT as nat);
    lemma_size_zero(zero);
    lemma_size_zero(x);
    lemma_exact(0, x.size());
    assert(magnitude(FRACTION_BITS as nat, 0) == 0) by {
        lemma2_to64();
    }
    assert(0 * x.size() == 0) by (nonlinear_arith);
    assert(zero.size() * unit == 0) by (nonlinear_arith)
        requires
            zero.size() == 0,
    ;
}

/// A sum lies between the infinities.
proof fn lemma_sum_bounded(x: Binary32, p: Binary32)
    requires
        !x.sum(p).nan(),
    ensures
        -(INFINITY_BITS as int) <= x.sum(p).position() <= INFINITY_BITS,
{
}

/// A clamped number lies in the interval, and one that lay there is kept.
pub proof fn law_clamped_in_interval(x: Binary32, min: Binary32, max: Binary32)
    requires
        min.not_over(max),
        !x.nan(),
    ensures
        min.not_over(x.clamped(min, max)),
        x.clamped(min, max).not_over(max),
        min.not_over(x) && x.not_over(max) ==> x.clamped(min, max) == x,
{
}

} // verus!
