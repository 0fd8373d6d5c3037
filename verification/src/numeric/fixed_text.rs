//! Numbers as text with a fixed number of decimals.

use crate::numeric::binary32::{self, Binary32};
use crate::numeric::binary64::{self, Binary64};
use crate::numeric::decimal::{
    decimal, digits_of, lemma_ten_grows, lemma_ten_positive, number_of, padded, push_decimal,
    push_digits, push_padded, scale_digits, ten, trimmed,
};
use crate::numeric::magnitudes::{format_ok, parts};
use crate::numeric::rounding::{magnitude, power_of_two};
use vstd::arithmetic::div_mod::*;
use vstd::arithmetic::mul::*;
use vstd::arithmetic::power2::*;
use vstd::prelude::*;

verus! {

/// The whole number nearest to `a / b`, ties to even.
pub open spec fn half_even(a: nat, b: nat) -> nat {
    let q = a / b;
    let r = a % b;
    if 2 * r > b || (2 * r == b && q % 2 == 1) {
        q + 1
    } else {
        q
    }
}

/// `n / 10^p` with `p` decimals.
pub open spec fn fixed(n: nat, p: nat) -> Seq<u8> {
    if p == 0 {
        decimal(n)
    } else {
        decimal(n / ten(p)) + seq![46u8] + padded(n % ten(p), p)
    }
}

/// Text of a finite, non-negative number with `p` decimals.
pub open spec fn magnitude_text(f: nat, k: nat, b: nat, p: nat) -> Seq<u8> {
    fixed(half_even(magnitude(f, b) * ten(p), pow2(k)), p)
}

/// `-` for a negative number.
pub open spec fn sign_text(negative: bool) -> Seq<u8> {
    if negative {
        seq![45u8]
    } else {
        Seq::empty()
    }
}

pub open spec fn nan_text() -> Seq<u8> {
    seq![78u8, 97u8, 78u8]
}

pub open spec fn infinity_text() -> Seq<u8> {
    seq![105u8, 110u8, 102u8]
}

impl Binary32 {
    /// The number as text with `p` decimals.
    pub open spec fn text(self, p: nat) -> Seq<u8> {
        if self.nan() {
            nan_text()
        } else if self.infinite() {
            sign_text(self.negative()) + infinity_text()
        } else {
            sign_text(self.negative()) + magnitude_text(
                binary32::FRACTION_BITS as nat,
                binary32::SMALLEST_EXPONENT as nat,
                self.absolute(),
                p,
            )
        }
    }
}

impl Binary64 {
    /// The number as text with `p` decimals.
    pub open spec fn text(self, p: nat) -> Seq<u8> {
        if self.nan() {
            nan_text()
        } else if self.infinite() {
            sign_text(self.negative()) + infinity_text()
        } else {
            sign_text(self.negative()) + magnitude_text(
                binary64::FRACTION_BITS as nat,
                binary64::SMALLEST_EXPONENT as nat,
                self.absolute(),
                p,
            )
        }
    }
}

pub proof fn lemma_half_even_scale(a: nat, b: nat, c: nat)
    requires
        b > 0,
        c > 0,
    ensures
        half_even(c * a, c * b) == half_even(a, b),
{
    lemma_fundamental_div_mod(a as int, b as int);
    lemma_mod_bound(a as int, b as int);
    let q = a / b;
    let r = a % b;
    assert(c * a == q * (c * b) + c * r) by (nonlinear_arith)
        requires
            a == b * q + r,
    ;
    assert(c * r < c * b) by (nonlinear_arith)
        requires
            r < b,
            c > 0,
    ;
    assert(c * r >= 0) by (nonlinear_arith)
        requires
            c > 0,
            r >= 0,
    ;
    lemma_fundamental_div_mod_converse((c * a) as int, (c * b) as int, q as int, (c * r) as int);
    assert(2 * (c * r) > c * b <==> 2 * r > b) by (nonlinear_arith)
        requires
            c > 0,
    ;
    assert(2 * (c * r) == c * b <==> 2 * r == b) by (nonlinear_arith)
        requires
            c > 0,
    ;
}

/// Number of units in the last decimal for a number with a fractional part.
pub fn scaled_units(m: u64, s: u32, p: u32) -> (n: u128)
    requires
        m < 0x20_0000_0000_0000,
        1 <= s,
        p <= 9,
    ensures
        n == half_even(m as nat * ten(p as nat), pow2(s as nat)),
{
    let mut factor: u128 = 1;
    let mut i: u32 = 0;
    while i < p
        invariant
            i <= p <= 9,
            factor == ten(i as nat),
        decreases p - i,
    {
        proof {
            lemma_ten_grows((i + 1) as nat, 9);
            reveal_with_fuel(ten, 11);
        }
        factor = factor * 10;
        i = i + 1;
    }
    proof {
        lemma_ten_grows(p as nat, 9);
        reveal_with_fuel(ten, 11);
        assert(m * factor <= 0x20_0000_0000_0000 * 1_000_000_000) by (nonlinear_arith)
            requires
                m <= 0x20_0000_0000_0000,
                factor <= 1_000_000_000,
        ;
        assert(m * factor == factor * m) by (nonlinear_arith);
        lemma2_to64();
        lemma2_to64_rest();
        lemma_pow2_adds(53, 30);
        lemma_pow2_pos(s as nat);
    }
    let num: u128 = m as u128 * factor;
    if s > 100 {
        proof {
            lemma_pow2_strictly_increases(84, s as nat);
            lemma_pow2_unfold(84);
            lemma_basic_div(num as int, pow2(s as nat) as int);
            lemma_small_mod(num as nat, pow2(s as nat));
        }
        return 0;
    }
    let unit: u128 = power_of_two(s);
    proof {
        if s < 100 {
            lemma_pow2_strictly_increases(s as nat, 100);
        }
        lemma_pow2_adds(60, 40);
        lemma_div_nonincreasing(num as int, unit as int);
    }
    let q: u128 = num / unit;
    let r: u128 = num % unit;
    if 2 * r > unit || (2 * r == unit && q % 2 == 1) {
        q + 1
    } else {
        q
    }
}

/// Appends a finite, non-negative number with `p` decimals.
fn push_magnitude(out: &mut Vec<u8>, f: u32, inf: u64, k: u32, b: u64, p: u32)
    requires
        format_ok(f, inf, k),
        b < inf,
        p <= 9,
    ensures
        final(out)@ == old(out)@ + magnitude_text(f as nat, k as nat, b as nat, p as nat),
{
    let ghost start = out@;
    let ghost v = magnitude(f as nat, b as nat);
    let (m, e) = parts(f, b);
    proof {
        lemma_ten_positive(p as nat);
        lemma_pow2_pos(k as nat);
        lemma_pow2_pos(e as nat);
        lemma_pow2_pos(f as nat);
    }
    if e >= k {
        let x: u32 = e - k;
        let mut d: Vec<u8> = digits_of(m);
        let mut i: u32 = 0;
        proof {
            lemma2_to64();
            assert(m * pow2(0) == m) by (nonlinear_arith)
                requires
                    pow2(0) == 1,
            ;
        }
        while i < x
            invariant
                i <= x,
                trimmed(d@),
                d@.len() > 0,
                number_of(d@) == m * pow2(i as nat),
            decreases x - i,
        {
            scale_digits(&mut d, 2);
            proof {
                lemma_pow2_unfold((i + 1) as nat);
                let w = pow2(i as nat);
                assert(2 * (m * w) == m * (2 * w)) by (nonlinear_arith);
            }
            i = i + 1;
        }
        proof {
            let whole = number_of(d@);
            let t = ten(p as nat);
            let u = pow2(k as nat);
            lemma_pow2_adds(x as nat, k as nat);
            assert(v * t == (whole * t) * u + 0) by (nonlinear_arith)
                requires
                    v == m * pow2(e as nat),
                    pow2(e as nat) == pow2(x as nat) * u,
                    whole == m * pow2(x as nat),
            ;
            lemma_fundamental_div_mod_converse((v * t) as int, u as int, (whole * t) as int, 0);
            assert(half_even(v * t, u) == whole * t);
            assert(whole * t == t * whole + 0) by (nonlinear_arith);
            lemma_fundamental_div_mod_converse((whole * t) as int, t as int, whole as int, 0);
        }
        push_digits(out, &d);
        if p > 0 {
            out.push(46);
            push_padded(out, 0, p);
        } else {
            proof {
                reveal_with_fuel(ten, 1);
                let whole = number_of(d@);
                assert(whole * ten(0) == whole) by (nonlinear_arith)
                    requires
                        ten(0) == 1,
                ;
            }
        }
        assert(out@ =~= start + magnitude_text(f as nat, k as nat, b as nat, p as nat));
    } else {
        let s: u32 = k - e;
        let n: u128 = scaled_units(m, s, p);
        proof {
            let t = ten(p as nat);
            lemma_pow2_adds(e as nat, s as nat);
            lemma_pow2_pos(s as nat);
            lemma_half_even_scale(m as nat * t, pow2(s as nat), pow2(e as nat));
            assert(v * t == pow2(e as nat) * (m * t)) by (nonlinear_arith)
                requires
                    v == m * pow2(e as nat),
            ;
            assert(n == half_even(v * t, pow2(k as nat)));
        }
        if p == 0 {
            push_decimal(out, n);
        } else {
            let mut unit: u128 = 1;
            let mut i: u32 = 0;
            while i < p
                invariant
                    i <= p <= 9,
                    unit == ten(i as nat),
                decreases p - i,
            {
                proof {
                    lemma_ten_grows((i + 1) as nat, 9);
                    reveal_with_fuel(ten, 11);
                }
                unit = unit * 10;
                i = i + 1;
            }
            push_decimal(out, n / unit);
            out.push(46);
            push_padded(out, n % unit, p);
        }
        assert(out@ =~= start + magnitude_text(f as nat, k as nat, b as nat, p as nat));
    }
}

fn push_special(out: &mut Vec<u8>, negative: bool, infinite: bool)
    ensures
        final(out)@ == old(out)@ + (if infinite {
            sign_text(negative) + infinity_text()
        } else {
            nan_text()
        }),
{
    let ghost start = out@;
    if infinite {
        if negative {
            out.push(45);
        }
        out.push(105);
        out.push(110);
        out.push(102);
        assert(out@ =~= start + (sign_text(negative) + infinity_text()));
    } else {
        out.push(78);
        out.push(97);
        out.push(78);
        assert(out@ =~= start + nan_text());
    }
}

impl Binary32 {
    /// Appends the number with `p` decimals.
    pub fn push_text(self, out: &mut Vec<u8>, p: u32)
        requires
            p <= 9,
        ensures
            final(out)@ == old(out)@ + self.text(p as nat),
    {
        if self.is_nan() || self.is_infinite() {
            push_special(out, self.is_negative(), self.is_infinite());
            return;
        }
        let ghost start = out@;
        if self.is_negative() {
            out.push(45);
        }
        proof {
            lemma2_to64();
        }
        let b: u32 = self.absolute_value().bits;
        push_magnitude(
            out,
            binary32::FRACTION_BITS,
            binary32::INFINITY_BITS as u64,
            binary32::SMALLEST_EXPONENT,
            b as u64,
            p,
        );
        assert(out@ =~= start + self.text(p as nat));
    }
}

impl Binary64 {
    /// Appends the number with `p` decimals.
    pub fn push_text(self, out: &mut Vec<u8>, p: u32)
        requires
            p <= 9,
        ensures
            final(out)@ == old(out)@ + self.text(p as nat),
    {
        if self.is_nan() || self.is_infinite() {
            push_special(out, self.is_negative(), self.is_infinite());
            return;
        }
        let ghost start = out@;
        if self.is_negative() {
            out.push(45);
        }
        proof {
            lemma2_to64();
            lemma2_to64_rest();
        }
        push_magnitude(
            out,
            binary64::FRACTION_BITS,
            binary64::INFINITY_BITS,
            binary64::SMALLEST_EXPONENT,
            self.absolute_bits(),
            p,
        );
        assert(out@ =~= start + self.text(p as nat));
    }
}

} // verus!
