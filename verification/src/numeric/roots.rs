//! Square roots, rounded to the nearest representable number.

use crate::numeric::magnitudes::{format_ok, parts};
use crate::numeric::rounding::{
    bit_length, lemma_magnitude_compose, lemma_magnitude_monotone, lemma_magnitude_step, magnitude,
    power_of_two,
};
use vstd::arithmetic::div_mod::*;
use vstd::arithmetic::mul::*;
use vstd::arithmetic::power2::*;
use vstd::prelude::*;

verus! {

/// `b` is the encoding nearest to the square root of `n`, ties to even.
pub open spec fn rounds_to_root(f: nat, n: nat, b: nat) -> bool {
    &&& b > 0 ==> {
        let mid = magnitude(f, (b - 1) as nat) + magnitude(f, b);
        4 * n > mid * mid || (4 * n == mid * mid && b % 2 == 0)
    }
    &&& {
        let mid = magnitude(f, b) + magnitude(f, b + 1);
        4 * n < mid * mid || (4 * n == mid * mid && b % 2 == 0)
    }
}

/// The encoding nearest to the square root of `n`.
pub open spec fn rounded_root(f: nat, n: nat) -> nat {
    choose|b: nat| rounds_to_root(f, n, b)
}

proof fn lemma_root_ordered(f: nat, n: nat, a: nat, b: nat)
    requires
        a < b,
        rounds_to_root(f, n, a),
    ensures
        !rounds_to_root(f, n, b),
{
    let upper = magnitude(f, a) + magnitude(f, a + 1);
    let lower = magnitude(f, (b - 1) as nat) + magnitude(f, b);
    if a + 1 < b {
        lemma_magnitude_monotone(f, a, (b - 1) as nat);
        lemma_magnitude_monotone(f, a + 1, b);
        assert(upper * upper < lower * lower) by (nonlinear_arith)
            requires
                upper < lower,
        ;
    } else {
        assert(b == a + 1);
    }
}

/// `rounded_root` is the encoding that a witness shows to be nearest.
pub proof fn lemma_rounded_root(f: nat, n: nat, b: nat)
    requires
        rounds_to_root(f, n, b),
    ensures
        rounded_root(f, n) == b,
{
    let a = rounded_root(f, n);
    if a < b {
        lemma_root_ordered(f, n, a, b);
    } else if b < a {
        lemma_root_ordered(f, n, b, a);
    }
}

/// Encodings do not exceed the numbers that they stand for.
proof fn lemma_magnitude_at_least(f: nat, b: nat)
    ensures
        magnitude(f, b) >= b,
    decreases b,
{
    if b > 0 {
        lemma_magnitude_at_least(f, (b - 1) as nat);
        lemma_magnitude_step(f, (b - 1) as nat);
    }
}

/// From an encoding that is not too large, one finds the nearest by going up.
proof fn lemma_root_search(f: nat, n: nat, b: nat) -> (c: nat)
    requires
        b <= n + 1,
        b > 0 ==> {
            let mid = magnitude(f, (b - 1) as nat) + magnitude(f, b);
            4 * n > mid * mid || (4 * n == mid * mid && b % 2 == 0)
        },
    ensures
        rounds_to_root(f, n, c),
    decreases n + 1 - b,
{
    let mid = magnitude(f, b) + magnitude(f, b + 1);
    if 4 * n < mid * mid || (4 * n == mid * mid && b % 2 == 0) {
        b
    } else {
        lemma_magnitude_at_least(f, b);
        lemma_magnitude_at_least(f, b + 1);
        assert(b < n + 1) by (nonlinear_arith)
            requires
                mid >= 2 * b + 1,
                4 * n >= mid * mid,
        ;
        lemma_root_search(f, n, b + 1)
    }
}

/// There is a nearest encoding.
pub proof fn lemma_rounded_root_exists(f: nat, n: nat)
    ensures
        rounds_to_root(f, n, rounded_root(f, n)),
{
    let b = lemma_root_search(f, n, 0);
    assert(rounds_to_root(f, n, b));
}

/// Choosing between `q` and `q + 1` by comparing with the half-way point picks
/// the nearest encoding.
proof fn lemma_nearest_root(f: nat, n: nat, e: nat, q: nat, up: bool)
    requires
        f >= 1,
        pow2(f) <= q,
        q < 2 * pow2(f),
        (q * pow2(e)) * (q * pow2(e)) <= n,
        n < ((q + 1) * pow2(e)) * ((q + 1) * pow2(e)),
        ({
            let mid = (2 * q + 1) * pow2(e);
            up <==> (4 * n > mid * mid || (4 * n == mid * mid && q % 2 == 1))
        }),
    ensures
        rounds_to_root(f, n, e * pow2(f) + q + if up { 1nat } else { 0nat }),
{
    let p = pow2(f);
    let u = pow2(e);
    lemma_pow2_pos(f);
    lemma_pow2_pos(e);
    lemma_pow2_unfold(f);
    let b0 = e * p + q;
    lemma_magnitude_compose(f, e, q);
    lemma_magnitude_compose(f, e, q + 1);
    assert(b0 + 1 == e * p + (q + 1));
    assert(b0 % 2 == q % 2) by {
        let h = pow2((f - 1) as nat);
        assert(b0 == 2 * (e * h) + q) by (nonlinear_arith)
            requires
                b0 == e * p + q,
                p == 2 * h,
        ;
    }
    let low = q * u;
    let high = (q + 1) * u;
    let mid = magnitude(f, b0) + magnitude(f, b0 + 1);
    assert(mid == (2 * q + 1) * u) by (nonlinear_arith)
        requires
            mid == q * u + (q + 1) * u,
    ;
    if up {
        lemma_magnitude_step(f, b0 + 1);
        let next = high + magnitude(f, b0 + 2);
        assert(next * next > 4 * n) by (nonlinear_arith)
            requires
                next > 2 * high,
                n < high * high,
        ;
        assert((b0 + 1) + 1 == b0 + 2);
    } else {
        assert(low > 0) by (nonlinear_arith)
            requires
                low == q * u,
                q > 0,
                u > 0,
        ;
        lemma_magnitude_step(f, (b0 - 1) as nat);
        let prev = magnitude(f, (b0 - 1) as nat) + low;
        assert(prev * prev < 4 * n) by (nonlinear_arith)
            requires
                prev < 2 * low,
                n >= low * low,
        ;
    }
}

/// The largest integer whose square does not exceed `n`.
pub fn integer_root(n: u128, low: u64, high: u64) -> (r: u64)
    requires
        low < high <= 0x40_0000_0000_0000,
        low * low <= n,
        n < high * high,
    ensures
        low <= r < high,
        r * r <= n,
        n < (r + 1) * (r + 1),
{
    let mut a: u64 = low;
    let mut b: u64 = high;
    while b - a > 1
        invariant
            low <= a < b <= high <= 0x40_0000_0000_0000,
            a * a <= n,
            n < b * b,
        decreases b - a,
    {
        let mid: u64 = a + (b - a) / 2;
        assert(mid * mid <= 0x40_0000_0000_0000 * 0x40_0000_0000_0000) by (nonlinear_arith)
            requires
                mid <= 0x40_0000_0000_0000,
        ;
        let square: u128 = mid as u128 * mid as u128;
        if square <= n {
            a = mid;
        } else {
            b = mid;
        }
    }
    a
}

/// The nearest encoding of the square root.
pub fn root_magnitude(f: u32, inf: u64, k: u32, a: u64) -> (r: u64)
    requires
        format_ok(f, inf, k),
        k >= 2 * f + 4,
        0 < a < inf,
    ensures
        r == rounded_root(f as nat, magnitude(f as nat, a as nat) * pow2(k as nat)),
        rounds_to_root(f as nat, magnitude(f as nat, a as nat) * pow2(k as nat), r as nat),
{
    let (m, e) = parts(f, a);
    let odd: bool = (e + k) % 2 == 1;
    let m2: u128 = if odd {
        2 * m as u128
    } else {
        m as u128
    };
    let x: u32 = if odd {
        e + k - 1
    } else {
        e + k
    };
    let len: u32 = bit_length(m2);
    proof {
        lemma2_to64();
        lemma2_to64_rest();
        lemma_pow2_adds(60, 50);
        lemma_pow2_unfold((f + 1) as nat);
        lemma_pow2_unfold((f + 2) as nat);
        if len > f + 2 {
            lemma_power_ordered((f + 2) as nat, (len - 1) as nat);
        }
    }
    let j: u32 = (2 * f + 4 - len) / 2;
    let unit: u128 = power_of_two(2 * j);
    proof {
        let all = len + 2 * j;
        lemma_pow2_adds(len as nat, (2 * j) as nat);
        lemma_pow2_adds((len - 1) as nat, (2 * j) as nat);
        lemma_power_ordered((len + 2 * j) as nat, (2 * f + 4) as nat);
        lemma_power_ordered((2 * f + 2) as nat, (len - 1 + 2 * j) as nat);
        lemma_pow2_adds((f + 2) as nat, (f + 2) as nat);
        lemma_pow2_adds((f + 1) as nat, (f + 1) as nat);
        lemma_power_ordered((2 * f + 4) as nat, 110);
        lemma_power_ordered((f + 2) as nat, 54);
        assert(m2 * unit < pow2(len as nat) * unit) by (nonlinear_arith)
            requires
                m2 < pow2(len as nat),
                unit > 0,
        ;
        assert(m2 * unit >= pow2((len - 1) as nat) * unit) by (nonlinear_arith)
            requires
                m2 >= pow2((len - 1) as nat),
        ;
    }
    let n: u128 = m2 * unit;
    let low: u64 = power_of_two(f + 1) as u64;
    let high: u64 = power_of_two(f + 2) as u64;
    let root: u64 = integer_root(n, low, high);
    proof {
        assert(root * root <= 0x40_0000_0000_0000 * 0x40_0000_0000_0000) by (nonlinear_arith)
            requires
                root <= 0x40_0000_0000_0000,
        ;
        assert(root * root >= 0) by (nonlinear_arith);
    }
    let inexact: bool = (root as u128 * root as u128) < n;
    let q: u64 = root / 2;
    let up: bool = root % 2 == 1 && (inexact || q % 2 == 1);
    let exponent: u32 = x / 2 - j + 1;
    let fraction: u64 = power_of_two(f) as u64;
    proof {
        let target = magnitude(f as nat, a as nat) * pow2(k as nat);
        let w = pow2((exponent - 1) as nat);
        let u = pow2(exponent as nat);
        lemma_pow2_unfold(exponent as nat);
        lemma_pow2_adds((exponent - 1) as nat, (exponent - 1) as nat);
        lemma_pow2_adds((2 * j) as nat, (2 * (exponent - 1)) as nat);
        lemma_pow2_adds(e as nat, k as nat);
        lemma_pow2_unfold((e + k) as nat);
        lemma_pow2_pos((exponent - 1) as nat);
        assert(2 * j + 2 * (exponent - 1) == x);
        let px = pow2(x as nat);
        assert(target == m2 * px) by (nonlinear_arith)
            requires
                target == (m * pow2(e as nat)) * pow2(k as nat),
                pow2(e as nat) * pow2(k as nat) == pow2((e + k) as nat),
                (m2 == m && px == pow2((e + k) as nat)) || (m2 == 2 * m && 2 * px == pow2(
                    (e + k) as nat,
                )),
        ;
        assert(target == n * (w * w)) by (nonlinear_arith)
            requires
                target == m2 * px,
                px == unit * (w * w),
                n == m2 * unit,
        ;
        lemma_root_bounds(n as nat, root as nat, q as nat, w, u, target);
        lemma_nearest_root(f as nat, target, exponent as nat, q as nat, up);
        lemma_rounded_root(
            f as nat,
            target,
            exponent as nat * pow2(f as nat) + q as nat + if up {
                1nat
            } else {
                0nat
            },
        );
        lemma_power_ordered(f as nat, 52);
        assert(exponent * fraction <= 2000 * 0x10_0000_0000_0000) by (nonlinear_arith)
            requires
                exponent <= 2000,
                fraction <= 0x10_0000_0000_0000,
        ;
    }
    exponent as u64 * fraction + q + if up {
        1
    } else {
        0
    }
}

proof fn lemma_power_ordered(a: nat, b: nat)
    requires
        a <= b,
    ensures
        pow2(a) <= pow2(b),
{
    if a < b {
        lemma_pow2_strictly_increases(a, b);
    }
}

proof fn lemma_root_bounds(n: nat, root: nat, q: nat, w: nat, u: nat, target: nat)
    requires
        w > 0,
        u == 2 * w,
        target == n * (w * w),
        root * root <= n,
        n < (root + 1) * (root + 1),
        q == root / 2,
    ensures
        (q * u) * (q * u) <= target,
        target < ((q + 1) * u) * ((q + 1) * u),
        ({
            let mid = (2 * q + 1) * u;
            &&& 4 * target > mid * mid <==> root % 2 == 1 && root * root < n
            &&& 4 * target == mid * mid <==> root % 2 == 1 && root * root == n
        }),
{
    let ww = w * w;
    assert(ww > 0) by (nonlinear_arith)
        requires
            ww == w * w,
            w > 0,
    ;
    let even = 2 * q;
    assert((q * u) * (q * u) == (even * even) * ww) by (nonlinear_arith)
        requires
            u == 2 * w,
            even == 2 * q,
            ww == w * w,
    ;
    assert(((q + 1) * u) * ((q + 1) * u) == ((even + 2) * (even + 2)) * ww) by (nonlinear_arith)
        requires
            u == 2 * w,
            even == 2 * q,
            ww == w * w,
    ;
    let mid = (2 * q + 1) * u;
    let odd = even + 1;
    assert(mid * mid == 4 * ((odd * odd) * ww)) by (nonlinear_arith)
        requires
            mid == odd * u,
            u == 2 * w,
            ww == w * w,
    ;
    assert(even * even <= root * root) by (nonlinear_arith)
        requires
            even <= root,
            even >= 0,
    ;
    assert((root + 1) * (root + 1) <= (even + 2) * (even + 2)) by (nonlinear_arith)
        requires
            root + 1 <= even + 2,
            root >= 0,
    ;
    lemma_square_scale(even * even, n, ww);
    lemma_square_scale((even + 2) * (even + 2), n, ww);
    lemma_square_scale(odd * odd, n, ww);
    if root % 2 == 0 {
        assert(root == even);
        assert((root + 1) * (root + 1) == odd * odd);
    } else {
        assert(root == odd);
    }
}

/// Multiplying by a positive number keeps the order.
proof fn lemma_square_scale(x: nat, n: nat, ww: nat)
    requires
        ww > 0,
    ensures
        x * ww <= n * ww <==> x <= n,
        x * ww < n * ww <==> x < n,
        x * ww == n * ww <==> x == n,
{
    assert(x * ww < n * ww <==> x < n) by (nonlinear_arith)
        requires
            ww > 0,
    ;
    assert(x * ww == n * ww <==> x == n) by (nonlinear_arith)
        requires
            ww > 0,
    ;
}

} // verus!
