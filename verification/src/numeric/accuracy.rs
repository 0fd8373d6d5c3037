//! How far the result of an operation can lie from the exact one.
//!
//! Numbers are counted in units of the smallest positive number. A result of the size `r`
//! lies within `r / 2^24` of the exact one, or within half a unit.

use crate::numeric::binary32::{
    lemma_exact, lemma_root_finite, nearest, signed, whole_single, Binary32, FRACTION_BITS,
    INFINITY_BITS, SMALLEST_EXPONENT,
};
use crate::numeric::binary64::Binary64;
use crate::numeric::rounding::{
    lemma_magnitude_compose, lemma_magnitude_monotone, lemma_magnitude_step, lemma_rounded_exists,
    magnitude,
};
use crate::numeric::roots::{lemma_rounded_root_exists, rounded_root};
use vstd::arithmetic::div_mod::*;
use vstd::arithmetic::power2::*;
use vstd::prelude::*;

verus! {

/// The number 1 in units of the smallest positive number.
pub open spec fn one_unit() -> nat {
    pow2(SMALLEST_EXPONENT as nat)
}

pub open spec fn abs(x: int) -> int {
    if x < 0 {
        -x
    } else {
        x
    }
}

/// `result` is as near to `exact` as a rounded number is; both are counted in parts of a
/// unit, of which there are `den`.
pub open spec fn near(exact: int, result: int, den: int) -> bool {
    16777216 * abs(exact - result * den) <= (abs(result) + 8388608) * den
}

/// A positive factor can be taken out of an absolute value.
pub proof fn lemma_abs_product(x: int, y: int)
    requires
        y > 0,
    ensures
        abs(x * y) == abs(x) * y,
{
    assert((-x) * y == -(x * y)) by (nonlinear_arith);
    assert(x >= 0 ==> x * y >= 0) by (nonlinear_arith)
        requires
            y > 0,
    ;
    assert(x < 0 ==> x * y < 0) by (nonlinear_arith)
        requires
            y > 0,
    ;
}

/// 1 is many units, and far from huge.
pub proof fn lemma_sizes()
    ensures
        one_unit() > 1000000000,
        huge() >= 0x1000_0000_0000_0000 * one_unit(),
{
    lemma2_to64();
    lemma2_to64_rest();
    lemma_pow2_strictly_increases(30, 149);
    lemma_pow2_adds(104, 149);
    lemma_pow2_strictly_increases(60, 104);
    assert(pow2(104) * pow2(149) >= 0x1000_0000_0000_0000 * pow2(149)) by (nonlinear_arith)
        requires
            pow2(104) >= 0x1000_0000_0000_0000,
            pow2(149) >= 0,
    ;
}

/// A rounded number is not much larger than the exact one.
pub proof fn lemma_near_bound(exact: int, result: int, den: int)
    requires
        den > 0,
        near(exact, result, den),
    ensures
        16777215 * (abs(result) * den) <= 16777216 * abs(exact) + 8388608 * den,
{
    lemma_abs_product(result, den);
    assert((abs(result) + 8388608) * den == abs(result) * den + 8388608 * den) by (nonlinear_arith);
}

/// The step to the next number is small against the number.
pub proof fn lemma_gap(f: nat, b: nat)
    ensures
        (magnitude(f, b + 1) - magnitude(f, b)) * pow2(f) <= magnitude(f, b) + pow2(f),
{
    let p = pow2(f);
    lemma_pow2_pos(f);
    lemma2_to64();
    let e = b / p;
    let m = b % p;
    lemma_fundamental_div_mod(b as int, p as int);
    if m + 1 < p {
        assert(b + 1 == p * e + (m + 1));
        lemma_fundamental_div_mod_converse((b + 1) as int, p as int, e as int, (m + 1) as int);
        if e > 0 {
            let g = pow2((e - 1) as nat);
            assert(((p + m + 1) * g - (p + m) * g) * p <= (p + m) * g + p) by (nonlinear_arith)
                requires
                    g >= 0,
                    p > 0,
                    m >= 0,
            ;
        } else {
            assert(1 * p <= m + p);
        }
    } else {
        assert(b + 1 == p * (e + 1) + 0) by (nonlinear_arith)
            requires
                b == p * e + m,
                m + 1 == p,
        ;
        lemma_fundamental_div_mod_converse((b + 1) as int, p as int, (e + 1) as int, 0);
        if e > 0 {
            let g = pow2((e - 1) as nat);
            lemma_pow2_unfold(e);
            assert((p * pow2(e) - (p + m) * g) * p <= (p + m) * g + p) by (nonlinear_arith)
                requires
                    pow2(e) == 2 * g,
                    g >= 0,
                    p > 0,
                    m + 1 == p,
            ;
        } else {
            assert(p * pow2(0) == p) by (nonlinear_arith)
                requires
                    pow2(0) == 1,
            ;
            assert((p - m) * p == p) by (nonlinear_arith)
                requires
                    m + 1 == p,
            ;
        }
    }
}

/// How far the nearest number is.
proof fn lemma_rounding_error(num: nat, den: nat)
    requires
        den > 0,
        nearest(num, den) < INFINITY_BITS,
    ensures
        near(num as int, magnitude(FRACTION_BITS as nat, nearest(num, den)) as int, den as int),
{
    let f = FRACTION_BITS as nat;
    let b = nearest(num, den);
    let r = magnitude(f, b);
    lemma2_to64();
    assert(pow2(23) == 8388608);
    lemma_rounded_exists(f, INFINITY_BITS as nat, num, den);
    lemma_gap(f, b);
    let up = magnitude(f, b + 1);
    assert(16777216 * (num - r * den) <= (r + 8388608) * den) by (nonlinear_arith)
        requires
            2 * num <= (r + up) * den,
            (up - r) * 8388608 <= r + 8388608,
            den > 0,
    ;
    if b > 0 {
        lemma_gap(f, (b - 1) as nat);
        lemma_magnitude_step(f, (b - 1) as nat);
        let low = magnitude(f, (b - 1) as nat);
        assert(16777216 * (r * den - num) <= (r + 8388608) * den) by (nonlinear_arith)
            requires
                2 * num >= (low + r) * den,
                (r - low) * 8388608 <= low + 8388608,
                low <= r,
                den > 0,
        ;
    } else {
        lemma_pow2_pos(f);
        lemma_small_mod(0, pow2(f));
        lemma_basic_div(0, pow2(f) as int);
        assert(r == 0);
        assert(r * den == 0) by (nonlinear_arith)
            requires
                r == 0,
        ;
        assert((r + 8388608) * den >= 0) by (nonlinear_arith)
            requires
                r == 0,
                den > 0,
        ;
    }
}

/// A size that no ordinary number reaches: `2^104`, in units.
pub open spec fn huge() -> nat {
    pow2(253)
}

/// What is not huge is rounded to a finite number.
proof fn lemma_rounded_finite(num: nat, den: nat)
    requires
        den > 0,
        num <= huge() * den,
    ensures
        nearest(num, den) < INFINITY_BITS,
{
    let f = FRACTION_BITS as nat;
    let inf = INFINITY_BITS as nat;
    let b = nearest(num, den);
    lemma2_to64();
    assert(pow2(23) == 8388608);
    lemma_rounded_exists(f, inf, num, den);
    if b == inf {
        let below = 231 * 8388608nat;
        lemma_magnitude_compose(f, 230, 8388608);
        lemma_pow2_adds(23, 230);
        assert(230 * 8388608 + 8388608 == below);
        let low = magnitude(f, (inf - 1) as nat);
        let high = magnitude(f, inf);
        lemma_magnitude_monotone(f, below, (inf - 1) as nat);
        lemma_magnitude_monotone(f, below, inf);
        assert(2 * num < (low + high) * den) by (nonlinear_arith)
            requires
                num <= huge() * den,
                huge() < low,
                huge() < high,
                den > 0,
        ;
    }
}

/// The value of a number with a sign.
proof fn lemma_signed_value(negative: bool, b: nat)
    requires
        b < INFINITY_BITS,
    ensures
        signed(negative, b).finite(),
        signed(negative, b).value() == if negative {
            -(magnitude(FRACTION_BITS as nat, b) as int)
        } else {
            magnitude(FRACTION_BITS as nat, b) as int
        },
{
}

/// How far a sum is from the exact one.
pub proof fn lemma_sum_error(x: Binary32, y: Binary32)
    requires
        x.sum(y).finite(),
    ensures
        x.finite(),
        y.finite(),
        near(x.value() + y.value(), x.sum(y).value(), 1),
{
    let exact = x.value() + y.value();
    let f = FRACTION_BITS as nat;
    let size = abs(exact) as nat;
    let b = nearest(size, 1);
    lemma_rounded_exists(f, INFINITY_BITS as nat, size, 1);
    if exact == 0 {
        lemma_pow2_pos(f);
        lemma_small_mod(0, pow2(f));
        lemma_basic_div(0, pow2(f) as int);
        lemma_signed_value(x.negative() && y.negative(), 0);
    } else {
        assert(b < INFINITY_BITS);
        lemma_rounding_error(size, 1);
        lemma_signed_value(exact < 0, b);
    }
}

/// A sum that is not huge is finite.
pub proof fn lemma_sum_finite(x: Binary32, y: Binary32)
    requires
        x.finite(),
        y.finite(),
        abs(x.value()) + abs(y.value()) <= huge(),
    ensures
        x.sum(y).finite(),
        x.difference(y).finite(),
{
    let sum = x.value() + y.value();
    let difference = x.value() + y.opposite().value();
    assert(y.opposite().value() == -y.value());
    if sum != 0 {
        lemma_rounded_finite(abs(sum) as nat, 1);
        lemma_signed_value(sum < 0, nearest(abs(sum) as nat, 1));
    }
    if difference != 0 {
        lemma_rounded_finite(abs(difference) as nat, 1);
        lemma_signed_value(difference < 0, nearest(abs(difference) as nat, 1));
    }
}

/// A product that is not huge is finite.
pub proof fn lemma_product_finite(x: Binary32, y: Binary32)
    requires
        x.finite(),
        y.finite(),
        x.size() * y.size() <= huge() * one_unit(),
    ensures
        x.product(y).finite(),
{
    let num = x.size() * y.size();
    lemma_pow2_pos(SMALLEST_EXPONENT as nat);
    lemma_rounded_finite(num, one_unit());
    lemma_signed_value(x.negative() != y.negative(), nearest(num, one_unit()));
}

/// A quotient that is not huge is finite.
pub proof fn lemma_quotient_finite(x: Binary32, y: Binary32)
    requires
        x.finite(),
        y.finite(),
        y.size() > 0,
        x.size() * one_unit() <= huge() * y.size(),
    ensures
        x.quotient(y).finite(),
{
    let num = x.size() * one_unit();
    let f = FRACTION_BITS as nat;
    lemma_pow2_pos(f);
    lemma_small_mod(0, pow2(f));
    lemma_basic_div(0, pow2(f) as int);
    assert(!y.is_zero());
    lemma_rounded_finite(num, y.size());
    lemma_signed_value(x.negative() != y.negative(), nearest(num, y.size()));
}

/// How far a difference is from the exact one.
pub proof fn lemma_difference_error(x: Binary32, y: Binary32)
    requires
        x.difference(y).finite(),
    ensures
        x.finite(),
        y.finite(),
        near(x.value() - y.value(), x.difference(y).value(), 1),
{
    assert(y.opposite().value() == -y.value());
    lemma_sum_error(x, y.opposite());
}

/// How far a product is from the exact one.
pub proof fn lemma_product_error(x: Binary32, y: Binary32)
    requires
        x.product(y).finite(),
    ensures
        x.finite(),
        y.finite(),
        near(x.value() * y.value(), x.product(y).value(), one_unit() as int),
{
    let num = x.size() * y.size();
    let den = one_unit();
    let sign = x.negative() != y.negative();
    let b = nearest(num, den);
    lemma_pow2_pos(SMALLEST_EXPONENT as nat);
    lemma_rounded_exists(FRACTION_BITS as nat, INFINITY_BITS as nat, num, den);
    assert(b < INFINITY_BITS);
    lemma_rounding_error(num, den);
    lemma_signed_value(sign, b);
    let r = magnitude(FRACTION_BITS as nat, b);
    let xs = x.size() as int;
    let ys = y.size() as int;
    assert((-xs) * ys == -(xs * ys) && xs * (-ys) == -(xs * ys) && (-xs) * (-ys) == xs * ys)
        by (nonlinear_arith);
    assert((-(r as int)) * den == -(r * den)) by (nonlinear_arith);
}

/// How far a quotient is from the exact one.
pub proof fn lemma_quotient_error(x: Binary32, y: Binary32)
    requires
        x.quotient(y).finite(),
        y.finite(),
        !y.negative(),
    ensures
        x.finite(),
        y.value() > 0,
        near(x.value() * one_unit(), x.quotient(y).value(), y.value()),
{
    let num = x.size() * one_unit();
    let den = y.size();
    let sign = x.negative() != y.negative();
    let b = nearest(num, den);
    assert(!y.is_zero());
    lemma_size_positive(y);
    lemma_rounded_exists(FRACTION_BITS as nat, INFINITY_BITS as nat, num, den);
    assert(b < INFINITY_BITS);
    lemma_rounding_error(num, den);
    lemma_signed_value(sign, b);
    let r = magnitude(FRACTION_BITS as nat, b);
    let xs = x.size() as int;
    let one = one_unit() as int;
    assert((-xs) * one == -(xs * one)) by (nonlinear_arith);
    assert((-(r as int)) * den == -(r * den)) by (nonlinear_arith);
}

proof fn lemma_size_positive(y: Binary32)
    requires
        y.finite(),
        !y.is_zero(),
    ensures
        y.size() > 0,
{
    let f = FRACTION_BITS as nat;
    lemma_pow2_pos(f);
    lemma_small_mod(0, pow2(f));
    lemma_basic_div(0, pow2(f) as int);
    lemma_magnitude_monotone(f, 0, y.absolute());
}

/// How far a double precision number is from its single precision: a unit of the one is
/// `2^925` units of the other. The sign is kept.
pub proof fn law_narrowed_is_near(x: Binary64)
    requires
        x.narrowed().finite(),
    ensures
        !x.nan(),
        !x.infinite(),
        near(
            if x.negative() {
                -(x.size() as int)
            } else {
                x.size() as int
            },
            x.narrowed().value(),
            pow2(925) as int,
        ),
{
    let den = pow2(925);
    let b = nearest(x.size(), den);
    lemma_pow2_pos(925);
    lemma_rounded_exists(FRACTION_BITS as nat, INFINITY_BITS as nat, x.size(), den);
    assert(b < INFINITY_BITS);
    lemma_rounding_error(x.size(), den);
    lemma_signed_value(x.negative(), b);
    let r = magnitude(FRACTION_BITS as nat, b);
    assert((-(r as int)) * den == -(r * den)) by (nonlinear_arith);
}

/// How near a root is: its square differs from the number by little. The number is counted
/// in squares of units.
pub proof fn law_root_is_near(x: Binary32)
    requires
        x.finite(),
        x.value() > 0,
    ensures
        x.root().finite(),
        x.root().value() > 0,
        ({
            let n = x.value() * one_unit();
            let r = x.root().value();
            let s = r + 8388608;
            &&& n <= 4 * (r * r)
            &&& 281474976710656 * abs(n - r * r) <= 33554432 * (r * s) + s * s
        }),
{
    let f = FRACTION_BITS as nat;
    let n = (x.size() * one_unit()) as int;
    let b = rounded_root(f, n as nat);
    lemma2_to64();
    assert(pow2(23) == 8388608);
    lemma_pow2_pos(SMALLEST_EXPONENT as nat);
    lemma_pow2_pos(f);
    lemma_small_mod(0, pow2(f));
    lemma_basic_div(0, pow2(f) as int);
    assert(magnitude(f, 0) == 0);
    assert(!x.is_zero());
    lemma_rounded_root_exists(f, n as nat);
    lemma_root_finite(x, b);
    lemma_signed_value(false, b);
    let r = magnitude(f, b) as int;
    let up = magnitude(f, b + 1) as int;
    lemma_gap(f, b);
    assert(n > 0) by (nonlinear_arith)
        requires
            n == x.size() * one_unit(),
            x.size() > 0,
            one_unit() > 0,
    ;
    assert(4 * n <= (r + up) * (r + up));
    let s = r + 8388608;
    if b == 0 {
        lemma_fundamental_div_mod(1, pow2(f) as int);
        lemma_small_mod(1, pow2(f));
        lemma_basic_div(1, pow2(f) as int);
        assert(up == 1);
        assert((r + up) * (r + up) == 1) by (nonlinear_arith)
            requires
                r == 0,
                up == 1,
        ;
        assert(false);
    }
    lemma_magnitude_monotone(f, 0, b);
    lemma_magnitude_step(f, b);
    assert(r >= 1);
    assert(r < up <= 3 * r) by {
        assert((up - r) * 8388608 <= r + 8388608);
    }
    assert((r + up) * (r + up) <= 16 * (r * r)) by (nonlinear_arith)
        requires
            0 < up <= 3 * r,
            r > 0,
    ;
    let g = up - r;
    assert(4 * n - 4 * (r * r) <= 4 * (r * g) + g * g) by (nonlinear_arith)
        requires
            4 * n <= (r + up) * (r + up),
            g == up - r,
    ;
    lemma_squares(r, g, s);
    lemma_gap(f, (b - 1) as nat);
    lemma_magnitude_step(f, (b - 1) as nat);
    let low = magnitude(f, (b - 1) as nat) as int;
    let h = r - low;
    assert(4 * n >= (low + r) * (low + r));
    assert(4 * (r * r) - 4 * n <= 4 * (r * h) + h * h) by (nonlinear_arith)
        requires
            4 * n >= (low + r) * (low + r),
            h == r - low,
    ;
    assert(h * 8388608 <= s);
    lemma_squares(r, h, s);
    assert(x.value() * one_unit() == n);
}

proof fn lemma_squares(r: int, g: int, s: int)
    requires
        r > 0,
        g >= 0,
        s == r + 8388608,
        g * 8388608 <= s,
    ensures
        70368744177664 * (4 * (r * g) + g * g) <= 33554432 * (r * s) + s * s,
{
    let gp = g * 8388608;
    assert(r * gp <= r * s) by (nonlinear_arith)
        requires
            gp <= s,
            r > 0,
    ;
    assert(gp * gp <= s * s) by (nonlinear_arith)
        requires
            0 <= gp <= s,
    ;
    assert(70368744177664 * (4 * (r * g) + g * g) == 33554432 * (r * gp) + gp * gp)
        by (nonlinear_arith)
        requires
            gp == g * 8388608,
    ;
}

/// A rounded number is not much smaller than the exact one.
pub proof fn lemma_near_lower(exact: int, result: int, den: int)
    requires
        den > 0,
        near(exact, result, den),
        exact >= 2 * den,
    ensures
        result > 0,
        2 * (result * den) >= exact,
{
    lemma_abs_product(result, den);
    assert((abs(result) + 8388608) * den == abs(result) * den + 8388608 * den) by (nonlinear_arith);
    if result <= 0 {
        assert(result * den <= 0) by (nonlinear_arith)
            requires
                result <= 0,
                den > 0,
        ;
    }
}

/// A product of a number of either sign with a positive number, with the sign of the number
/// and between bounds that leave room for rounding.
pub proof fn lemma_product_between(x: Binary32, y: Binary32, up: bool, low: int, high: int)
    requires
        x.finite(),
        y.finite(),
        y.value() > 0,
        1 <= low,
        2 * (low * one_unit()) <= along(x, up) * y.value(),
        2 * (along(x, up) * y.value()) <= high * one_unit(),
        high <= huge(),
    ensures
        x.product(y).finite(),
        near(x.value() * y.value(), x.product(y).value(), one_unit() as int),
        low <= along(x.product(y), up) <= high,
{
    let one = one_unit() as int;
    let exact = along(x, up) * y.value();
    let r = along(x.product(y), up);
    lemma_sizes();
    assert(high * one <= huge() * one) by (nonlinear_arith)
        requires
            high <= huge(),
            one > 0,
    ;
    assert(low * one >= one) by (nonlinear_arith)
        requires
            low >= 1,
            one > 0,
    ;
    assert(along(x, up) > 0) by (nonlinear_arith)
        requires
            along(x, up) * y.value() > 0,
            y.value() > 0,
    ;
    assert(x.size() == along(x, up) && y.size() == y.value());
    lemma_product_finite(x, y);
    lemma_product_error(x, y);
    assert((-x.value()) * y.value() == -(x.value() * y.value())) by (nonlinear_arith);
    assert((-x.product(y).value()) * one == -(x.product(y).value() * one)) by (nonlinear_arith);
    assert(near(exact, r, one));
    lemma_between(exact, r, one, low, high);
}

/// A quotient of a number of either sign by a positive number, with the sign of the number and
/// between bounds that leave room for rounding.
pub proof fn lemma_quotient_between(x: Binary32, y: Binary32, up: bool, low: int, high: int)
    requires
        x.finite(),
        y.finite(),
        !y.negative(),
        y.value() > 0,
        1 <= low,
        2 * (low * y.value()) <= along(x, up) * one_unit(),
        2 * (along(x, up) * one_unit()) <= high * y.value(),
        high <= huge(),
    ensures
        x.quotient(y).finite(),
        low <= along(x.quotient(y), up) <= high,
{
    let one = one_unit() as int;
    let den = y.value();
    let ex = along(x, up) * one;
    let r = along(x.quotient(y), up);
    lemma_sizes();
    assert(low * den >= den) by (nonlinear_arith)
        requires
            low >= 1,
            den > 0,
    ;
    assert(along(x, up) > 0) by (nonlinear_arith)
        requires
            along(x, up) * one > 0,
            one > 0,
    ;
    assert(x.size() == along(x, up) && y.size() == den);
    assert(high * den <= huge() * den) by (nonlinear_arith)
        requires
            high <= huge(),
            den > 0,
    ;
    lemma_quotient_finite(x, y);
    lemma_quotient_error(x, y);
    assert((-x.value()) * one == -(x.value() * one)) by (nonlinear_arith);
    assert((-x.quotient(y).value()) * den == -(x.quotient(y).value() * den)) by (nonlinear_arith);
    assert(near(ex, r, den));
    lemma_between(ex, r, den, low, high);
}

/// The number counted in one direction.
pub open spec fn along(x: Binary32, up: bool) -> int {
    if up {
        x.value()
    } else {
        -x.value()
    }
}

proof fn lemma_between(exact: int, r: int, den: int, low: int, high: int)
    requires
        den > 0,
        near(exact, r, den),
        exact >= 2 * den,
        2 * (low * den) <= exact,
        2 * exact <= high * den,
    ensures
        low <= r <= high,
{
    lemma_near_lower(exact, r, den);
    lemma_near_bound(exact, r, den);
    assert(r * den <= high * den);
    assert(r >= low) by (nonlinear_arith)
        requires
            r * den >= low * den,
            den > 0,
    ;
    assert(r <= high) by (nonlinear_arith)
        requires
            r * den <= high * den,
            den > 0,
    ;
}

/// A whole number of at most 24 bits is held exactly.
pub proof fn law_small_whole_is_exact(n: u64)
    requires
        n < 16777216,
    ensures
        whole_single(n).finite(),
        whole_single(n).value() == n * one_unit(),
{
    let f = FRACTION_BITS as nat;
    lemma2_to64();
    lemma_pow2_pos(f);
    if n == 0 {
        lemma_small_mod(0, pow2(f));
        lemma_basic_div(0, pow2(f) as int);
        assert(magnitude(f, 0) == 0);
        assert(0 * one_unit() == 0);
        lemma_exact(0, 1);
        lemma_signed_value(false, 0);
    } else {
        let j = lemma_leading(n as nat);
        let e = (149 - j) as nat;
        let q = n as nat * pow2(j);
        let b = e * 8388608 + q;
        assert(pow2(23) == 8388608);
        lemma_magnitude_compose(f, e, q);
        lemma_pow2_adds(j, e);
        assert(q * pow2(e) == n as nat * (pow2(j) * pow2(e))) by (nonlinear_arith)
            requires
                q == n as nat * pow2(j),
        ;
        lemma_exact(b, 1);
        lemma_signed_value(false, b);
    }
}

/// By how many binary digits a number falls short of 24.
proof fn lemma_leading(n: nat) -> (j: nat)
    requires
        0 < n < 16777216,
    ensures
        j <= 23,
        8388608 <= n * pow2(j) < 16777216,
    decreases 16777216 - n,
{
    lemma2_to64();
    if n >= 8388608 {
        assert(n * pow2(0) == n);
        0
    } else {
        let k = lemma_leading(2 * n);
        lemma_pow2_unfold(k + 1);
        assert(n * (2 * pow2(k)) == (2 * n) * pow2(k)) by (nonlinear_arith);
        if k == 23 {
            assert((2 * n) * pow2(23) >= 2 * 8388608) by (nonlinear_arith)
                requires
                    n >= 1,
                    pow2(23) == 8388608,
            ;
        }
        k + 1
    }
}

} // verus!
