//! Rounding to the nearest representable number, ties to even.
//!
//! A format is described by the number `f` of its fraction bits. The
//! non-negative numbers of the format are numbered by their encodings: encoding
//! `b` stands for `magnitude(f, b)` times the smallest positive number.

use vstd::arithmetic::div_mod::*;
use vstd::arithmetic::mul::*;
use vstd::arithmetic::power2::*;
use vstd::prelude::*;

verus! {

/// The number that encoding `b` stands for, counted in units of the smallest
/// positive number of the format.
pub open spec fn magnitude(f: nat, b: nat) -> nat {
    let e = b / pow2(f);
    let m = b % pow2(f);
    if e == 0 {
        m
    } else {
        (pow2(f) + m) * pow2((e - 1) as nat)
    }
}

/// `num / den` does not lie below the half-way point between `b - 1` and `b`.
pub open spec fn not_below(f: nat, num: nat, den: nat, b: nat) -> bool {
    b > 0 ==> {
        let mid = (magnitude(f, (b - 1) as nat) + magnitude(f, b)) * den;
        2 * num > mid || (2 * num == mid && b % 2 == 0)
    }
}

/// `num / den` does not lie above the half-way point between `b` and `b + 1`.
pub open spec fn not_above(f: nat, num: nat, den: nat, b: nat) -> bool {
    let mid = (magnitude(f, b) + magnitude(f, b + 1)) * den;
    2 * num < mid || (2 * num == mid && b % 2 == 0)
}

/// `b` is the encoding nearest to `num / den`, where `inf` encodes infinity.
pub open spec fn rounds_to(f: nat, inf: nat, num: nat, den: nat, b: nat) -> bool {
    &&& b <= inf
    &&& not_below(f, num, den, b)
    &&& b < inf ==> not_above(f, num, den, b)
}

/// The encoding nearest to `num / den`, ties to even.
pub open spec fn rounded(f: nat, inf: nat, num: nat, den: nat) -> nat {
    choose|b: nat| rounds_to(f, inf, num, den, b)
}

pub open spec fn positive_part(e: int) -> nat {
    if e > 0 {
        e as nat
    } else {
        0
    }
}

/// `num / den` equals `m * 2^e`, or, if `sticky`, lies strictly between that and
/// `(m + 1) * 2^e`.
pub open spec fn scaled(num: nat, den: nat, m: nat, e: int, sticky: bool) -> bool {
    let a = num * pow2(positive_part(-e));
    let c = pow2(positive_part(e)) * den;
    if sticky {
        m * c < a && a < (m + 1) * c
    } else {
        a == m * c
    }
}

/// One step up in the encoding adds one unit in the last place.
pub proof fn lemma_magnitude_step(f: nat, b: nat)
    ensures
        magnitude(f, b + 1) > magnitude(f, b),
{
    let p = pow2(f);
    lemma_pow2_pos(f);
    let e = b / p;
    let m = b % p;
    lemma_fundamental_div_mod(b as int, p as int);
    if m + 1 < p {
        assert(b + 1 == p * e + (m + 1));
        lemma_fundamental_div_mod_converse((b + 1) as int, p as int, e as int, (m + 1) as int);
        if e > 0 {
            lemma_pow2_pos((e - 1) as nat);
            assert((p + m + 1) * pow2((e - 1) as nat) > (p + m) * pow2((e - 1) as nat))
                by (nonlinear_arith)
                requires
                    pow2((e - 1) as nat) > 0,
            ;
        }
    } else {
        assert(b + 1 == p * (e + 1) + 0) by (nonlinear_arith)
            requires
                b == p * e + m,
                m + 1 == p,
        ;
        lemma_fundamental_div_mod_converse((b + 1) as int, p as int, (e + 1) as int, 0);
        if e > 0 {
            lemma_pow2_pos((e - 1) as nat);
            lemma_pow2_unfold(e);
            assert(p * pow2(e) > (p + m) * pow2((e - 1) as nat)) by (nonlinear_arith)
                requires
                    pow2(e) == 2 * pow2((e - 1) as nat),
                    pow2((e - 1) as nat) > 0,
                    m < p,
            ;
        } else {
            lemma_pow2(0);
            reveal(pow2);
            assert(pow2(0) == 1) by {
                lemma2_to64();
            }
            assert(p * pow2(0) == p) by (nonlinear_arith)
                requires
                    pow2(0) == 1,
            ;
        }
    }
}

/// Encodings are ordered as the numbers that they stand for.
pub proof fn lemma_magnitude_monotone(f: nat, a: nat, b: nat)
    requires
        a < b,
    ensures
        magnitude(f, a) < magnitude(f, b),
    decreases b - a,
{
    lemma_magnitude_step(f, (b - 1) as nat);
    if a < b - 1 {
        lemma_magnitude_monotone(f, a, (b - 1) as nat);
    }
}

/// At most one encoding is nearest.
pub proof fn lemma_rounds_to_unique(f: nat, inf: nat, num: nat, den: nat, a: nat, b: nat)
    requires
        den > 0,
        rounds_to(f, inf, num, den, a),
        rounds_to(f, inf, num, den, b),
    ensures
        a == b,
{
    if a < b {
        lemma_rounds_to_ordered(f, inf, num, den, a, b);
    } else if b < a {
        lemma_rounds_to_ordered(f, inf, num, den, b, a);
    }
}

proof fn lemma_rounds_to_ordered(f: nat, inf: nat, num: nat, den: nat, a: nat, b: nat)
    requires
        den > 0,
        a < b,
        rounds_to(f, inf, num, den, a),
    ensures
        !rounds_to(f, inf, num, den, b),
{
    let upper = magnitude(f, a) + magnitude(f, a + 1);
    let lower = magnitude(f, (b - 1) as nat) + magnitude(f, b);
    if a + 1 < b {
        lemma_magnitude_monotone(f, a, (b - 1) as nat);
        lemma_magnitude_monotone(f, a + 1, b);
        assert(upper * den < lower * den) by (nonlinear_arith)
            requires
                upper < lower,
                den > 0,
        ;
    } else {
        assert(b == a + 1);
    }
}

/// `rounded` is the encoding that a witness shows to be nearest.
pub proof fn lemma_rounded(f: nat, inf: nat, num: nat, den: nat, b: nat)
    requires
        den > 0,
        rounds_to(f, inf, num, den, b),
    ensures
        rounded(f, inf, num, den) == b,
{
    lemma_rounds_to_unique(f, inf, num, den, rounded(f, inf, num, den), b);
}

/// From an encoding that is not too large, one finds the nearest by going up.
proof fn lemma_rounds_to_exists(f: nat, inf: nat, num: nat, den: nat, b: nat) -> (c: nat)
    requires
        b <= inf,
        not_below(f, num, den, b),
    ensures
        rounds_to(f, inf, num, den, c),
    decreases inf - b,
{
    if b == inf || not_above(f, num, den, b) {
        b
    } else {
        lemma_rounds_to_exists(f, inf, num, den, b + 1)
    }
}

/// There is a nearest encoding.
pub proof fn lemma_rounded_exists(f: nat, inf: nat, num: nat, den: nat)
    ensures
        rounds_to(f, inf, num, den, rounded(f, inf, num, den)),
        rounded(f, inf, num, den) <= inf,
{
    let b = lemma_rounds_to_exists(f, inf, num, den, 0);
    assert(rounds_to(f, inf, num, den, b));
}

/// Rounding keeps the order.
pub proof fn lemma_rounded_monotone(f: nat, inf: nat, small: nat, large: nat, den: nat)
    requires
        den > 0,
        small <= large,
    ensures
        rounded(f, inf, small, den) <= rounded(f, inf, large, den),
{
    let a = rounded(f, inf, small, den);
    let b = rounded(f, inf, large, den);
    lemma_rounded_exists(f, inf, small, den);
    lemma_rounded_exists(f, inf, large, den);
    if a > b {
        let low = magnitude(f, b) + magnitude(f, b + 1);
        let high = magnitude(f, (a - 1) as nat) + magnitude(f, a);
        if b + 1 < a {
            lemma_magnitude_monotone(f, b, (a - 1) as nat);
            lemma_magnitude_monotone(f, b + 1, a);
            assert(low * den < high * den) by (nonlinear_arith)
                requires
                    low < high,
                    den > 0,
            ;
        }
    }
}

/// The encoding with significand `q` and exponent `e` stands for `q * 2^e`.
pub proof fn lemma_magnitude_compose(f: nat, e: nat, q: nat)
    requires
        q <= 2 * pow2(f),
        e == 0 || q >= pow2(f),
    ensures
        magnitude(f, e * pow2(f) + q) == q * pow2(e),
{
    let p = pow2(f);
    lemma_pow2_pos(f);
    lemma_pow2_unfold(e + 1);
    lemma2_to64();
    let b = e * p + q;
    if q < p {
        lemma_fundamental_div_mod_converse(b as int, p as int, 0, q as int);
        assert(q * pow2(0) == q) by (nonlinear_arith)
            requires
                pow2(0) == 1,
        ;
    } else if q < 2 * p {
        assert(b == p * (e + 1) + (q - p)) by (nonlinear_arith)
            requires
                b == e * p + q,
        ;
        lemma_fundamental_div_mod_converse(b as int, p as int, (e + 1) as int, q - p);
    } else {
        assert(b == p * (e + 2) + 0) by (nonlinear_arith)
            requires
                b == e * p + q,
                q == 2 * p,
        ;
        lemma_fundamental_div_mod_converse(b as int, p as int, (e + 2) as int, 0);
        assert(p * pow2(e + 1) == q * pow2(e)) by (nonlinear_arith)
            requires
                pow2(e + 1) == 2 * pow2(e),
                q == 2 * p,
        ;
    }
}

/// Choosing between `q` and `q + 1` by comparing with the half-way point picks
/// the nearest encoding.
proof fn lemma_nearest(f: nat, num: nat, den: nat, e: nat, q: nat, up: bool)
    requires
        f >= 1,
        den > 0,
        q < 2 * pow2(f),
        e == 0 || q >= pow2(f),
        q * (pow2(e) * den) <= num,
        num < (q + 1) * (pow2(e) * den),
        up <==> (2 * num > (2 * q + 1) * (pow2(e) * den) || (2 * num == (2 * q + 1) * (pow2(e)
            * den) && q % 2 == 1)),
    ensures
        ({
            let b = e * pow2(f) + q + if up { 1nat } else { 0nat };
            not_below(f, num, den, b) && not_above(f, num, den, b)
        }),
{
    let p = pow2(f);
    let u = pow2(e);
    let c = u * den;
    lemma_pow2_pos(f);
    lemma_pow2_pos(e);
    lemma_pow2_unfold(f);
    let b0 = e * p + q;
    lemma_magnitude_compose(f, e, q);
    lemma_magnitude_compose(f, e, q + 1);
    assert(b0 + 1 == e * p + (q + 1));
    assert(b0 % 2 == q % 2) by {
        let h = pow2((f - 1) as nat);
        assert(b0 == 2 * (e * h) + q) by (nonlinear_arith)
            requires
                b0 == e * p + q,
                p == 2 * h,
        ;
    }
    let mid = (magnitude(f, b0) + magnitude(f, b0 + 1)) * den;
    assert(mid == (2 * q + 1) * c) by (nonlinear_arith)
        requires
            mid == (q * u + (q + 1) * u) * den,
            c == u * den,
    ;
    if up {
        lemma_magnitude_step(f, b0 + 1);
        let next = (magnitude(f, b0 + 1) + magnitude(f, b0 + 2)) * den;
        assert(next > 2 * num) by (nonlinear_arith)
            requires
                next == ((q + 1) * u + magnitude(f, b0 + 2)) * den,
                magnitude(f, b0 + 2) > (q + 1) * u,
                den > 0,
                num < (q + 1) * c,
                c == u * den,
        ;
        assert((b0 + 1) + 1 == b0 + 2);
    } else if b0 > 0 {
        lemma_magnitude_step(f, (b0 - 1) as nat);
        let prev = (magnitude(f, (b0 - 1) as nat) + magnitude(f, b0)) * den;
        assert(prev < 2 * num) by (nonlinear_arith)
            requires
                prev == (magnitude(f, (b0 - 1) as nat) + q * u) * den,
                magnitude(f, (b0 - 1) as nat) < q * u,
                den > 0,
                num >= q * c,
                c == u * den,
        ;
    }
}

/// Replacing an encoding beyond infinity by infinity keeps it nearest.
proof fn lemma_saturate(f: nat, inf: nat, num: nat, den: nat, b: nat)
    requires
        den > 0,
        inf > 0,
        not_below(f, num, den, b),
        not_above(f, num, den, b),
    ensures
        rounds_to(f, inf, num, den, if b < inf { b } else { inf }),
{
    if b > inf {
        let lower = magnitude(f, (b - 1) as nat) + magnitude(f, b);
        let at_inf = magnitude(f, (inf - 1) as nat) + magnitude(f, inf);
        lemma_magnitude_monotone(f, (inf - 1) as nat, (b - 1) as nat);
        lemma_magnitude_monotone(f, inf, b);
        assert(at_inf * den < lower * den) by (nonlinear_arith)
            requires
                at_inf < lower,
                den > 0,
        ;
    }
}


/// `2^k`.
pub fn power_of_two(k: u32) -> (r: u128)
    requires
        k <= 127,
    ensures
        r == pow2(k as nat),
        r > 0,
{
    let mut r: u128 = 1;
    let mut i: u32 = 0;
    proof {
        lemma2_to64();
    }
    while i < k
        invariant
            i <= k <= 127,
            r == pow2(i as nat),
        decreases k - i,
    {
        proof {
            lemma_pow2_unfold((i + 1) as nat);
            lemma_power_below(i as nat + 1, 127);
        }
        r = r * 2;
        i = i + 1;
    }
    proof {
        lemma_pow2_pos(k as nat);
    }
    r
}

proof fn lemma_power_below(a: nat, b: nat)
    requires
        a <= b,
    ensures
        pow2(a) <= pow2(b),
        b == 127 ==> pow2(b) == 0x8000_0000_0000_0000_0000_0000_0000_0000,
{
    if a < b {
        lemma_pow2_strictly_increases(a, b);
    }
    if b == 127 {
        lemma_pow2_adds(63, 64);
        lemma2_to64();
        lemma2_to64_rest();
        assert(0x8000_0000_0000_0000int * 0x1_0000_0000_0000_0000int
            == 0x8000_0000_0000_0000_0000_0000_0000_0000int);
    }
}

/// Number of bits of `m` without leading zeros.
pub fn bit_length(m: u128) -> (n: u32)
    ensures
        n <= 128,
        m < pow2(n as nat),
        m == 0 ==> n == 0,
        m > 0 ==> n >= 1 && pow2((n - 1) as nat) <= m,
{
    let mut x: u128 = m;
    let mut n: u32 = 0;
    proof {
        lemma2_to64();
        lemma_pow2_adds(64, 64);
        lemma2_to64_rest();
    }
    while x > 0
        invariant
            x * pow2(n as nat) <= m,
            m < (x + 1) * pow2(n as nat),
            n <= 128,
            m < pow2(128),
            n > 0 && x == 0 ==> pow2((n - 1) as nat) <= m,
            n == 0 ==> x == m,
        decreases x,
    {
        proof {
            let p = pow2(n as nat);
            lemma_pow2_pos(n as nat);
            lemma_pow2_unfold((n + 1) as nat);
            let q = pow2((n + 1) as nat);
            let h = x / 2;
            assert(h * q <= m) by (nonlinear_arith)
                requires
                    2 * h <= x,
                    q == 2 * p,
                    x * p <= m,
            ;
            assert(m < (h + 1) * q) by (nonlinear_arith)
                requires
                    x + 1 <= 2 * (h + 1),
                    q == 2 * p,
                    m < (x + 1) * p,
                    p > 0,
            ;
            assert(p <= m) by (nonlinear_arith)
                requires
                    x >= 1,
                    x * p <= m,
            ;
            if n >= 128 {
                if n > 128 {
                    lemma_pow2_strictly_increases(128, n as nat);
                }
                assert(false);
            }
        }
        x = x / 2;
        n = n + 1;
    }
    proof {
        assert((x + 1) * pow2(n as nat) == pow2(n as nat)) by (nonlinear_arith)
            requires
                x == 0,
        ;
        if n > 0 {
            lemma_pow2_pos((n - 1) as nat);
        }
    }
    n
}

/// Comparing `num / den` with multiples of `2^(e + s)` by means of the leading
/// digits `m` of its expansion.
proof fn lemma_split(num: nat, den: nat, m: nat, e: int, sticky: bool, s: nat, q: nat, rem: nat)
    requires
        den > 0,
        s >= 1,
        e + s >= 0,
        scaled(num, den, m, e, sticky),
        m == q * pow2(s) + rem,
        rem < pow2(s),
    ensures
        ({
            let c = pow2((e + s) as nat) * den;
            let half = pow2((s - 1) as nat);
            &&& q * c <= num
            &&& num < (q + 1) * c
            &&& 2 * num > (2 * q + 1) * c <==> rem > half || (rem == half && sticky)
            &&& 2 * num == (2 * q + 1) * c <==> rem == half && !sticky
        }),
{
    let t = pow2(positive_part(-e));
    let d = pow2(s);
    let half = pow2((s - 1) as nat);
    let cc = pow2(positive_part(e)) * den;
    let a = num * t;
    let g = pow2((e + s) as nat);
    let c = g * den;
    lemma_pow2_pos(positive_part(-e));
    lemma_pow2_pos(positive_part(e));
    lemma_pow2_pos(s);
    lemma_pow2_pos((s - 1) as nat);
    lemma_pow2_pos((e + s) as nat);
    lemma_pow2_unfold(s);
    lemma_pow2_adds((e + s) as nat, positive_part(-e));
    lemma_pow2_adds(s, positive_part(e));
    assert((e + s) as nat + positive_part(-e) == s + positive_part(e));
    assert(cc > 0) by (nonlinear_arith)
        requires
            cc == pow2(positive_part(e)) * den,
            pow2(positive_part(e)) > 0,
            den > 0,
    ;
    assert(c * t == d * cc) by (nonlinear_arith)
        requires
            c == g * den,
            cc == pow2(positive_part(e)) * den,
            g * t == d * pow2(positive_part(e)),
    ;
    assert(a >= m * cc);
    assert(a < (m + 1) * cc) by (nonlinear_arith)
        requires
            a == m * cc || a < (m + 1) * cc,
            cc > 0,
    ;
    // a lies in [q, q + 1) * d * cc
    assert(q * (d * cc) <= a) by (nonlinear_arith)
        requires
            a >= m * cc,
            m == q * d + rem,
            cc > 0,
    ;
    assert(a < (q + 1) * (d * cc)) by (nonlinear_arith)
        requires
            a < (m + 1) * cc,
            m == q * d + rem,
            rem + 1 <= d,
            cc > 0,
    ;
    lemma_scale_comparison(num, t, q, c, d * cc, a);
    lemma_scale_comparison(num, t, q + 1, c, d * cc, a);
    assert(2 * num * t == 2 * a) by (nonlinear_arith)
        requires
            a == num * t,
    ;
    lemma_scale_comparison(2 * num, t, 2 * q + 1, c, d * cc, 2 * a);
    // 2 * a against (2 * q + 1) * d * cc
    let mid = (2 * q + 1) * (d * cc);
    assert(mid == 2 * ((q * d + half) * cc)) by (nonlinear_arith)
        requires
            mid == (2 * q + 1) * (d * cc),
            d == 2 * half,
    ;
    if rem > half || (rem == half && sticky) {
        assert(2 * a > mid) by (nonlinear_arith)
            requires
                mid == 2 * ((q * d + half) * cc),
                m == q * d + rem,
                cc > 0,
                (rem > half && a >= m * cc) || (rem == half && a > m * cc),
        ;
    } else if rem == half {
        assert(2 * a == mid) by (nonlinear_arith)
            requires
                mid == 2 * ((q * d + half) * cc),
                m == q * d + rem,
                rem == half,
                a == m * cc,
        ;
    } else {
        assert(2 * a < mid) by (nonlinear_arith)
            requires
                mid == 2 * ((q * d + half) * cc),
                m == q * d + rem,
                rem + 1 <= half,
                a < (m + 1) * cc,
                cc > 0,
        ;
    }
}

/// `x` compares with `k * c` as `x * t` does with `k * c * t`.
proof fn lemma_scale_comparison(x: nat, t: nat, k: nat, c: nat, ct: nat, xt: nat)
    requires
        t > 0,
        c * t == ct,
        x * t == xt,
    ensures
        xt >= k * ct <==> x >= k * c,
        xt > k * ct <==> x > k * c,
        xt == k * ct <==> x == k * c,
{
    assert(k * ct == (k * c) * t) by (nonlinear_arith)
        requires
            c * t == ct,
    ;
    let y = k * c;
    assert(xt > y * t <==> x > y) by (nonlinear_arith)
        requires
            t > 0,
            x * t == xt,
    ;
    assert(xt == y * t <==> x == y) by (nonlinear_arith)
        requires
            t > 0,
            x * t == xt,
    ;
}


proof fn lemma_round_zero(f: nat, num: nat, den: nat, e: int)
    requires
        den > 0,
        scaled(num, den, 0, e, false),
    ensures
        not_above(f, num, den, 0),
{
    let t = pow2(positive_part(-e));
    lemma_pow2_pos(positive_part(-e));
    assert(num == 0) by (nonlinear_arith)
        requires
            num * t == 0 * (pow2(positive_part(e)) * den),
            t > 0,
    ;
    lemma_magnitude_step(f, 0);
    let mid = magnitude(f, 0) + magnitude(f, 1);
    assert(mid * den > 0) by (nonlinear_arith)
        requires
            mid > 0,
            den > 0,
    ;
}

/// A number below half of the smallest positive one rounds to zero.
proof fn lemma_round_tiny(f: nat, num: nat, den: nat, m: nat, e: int, sticky: bool, len: nat)
    requires
        f >= 1,
        den > 0,
        scaled(num, den, m, e, sticky),
        m < pow2(len),
        -e > len,
    ensures
        not_above(f, num, den, 0),
{
    let s = (-e) as nat;
    let t = pow2(s);
    lemma2_to64();
    lemma_pow2_pos(s);
    lemma_pow2_unfold(s);
    lemma_power_below(len, (s - 1) as nat);
    lemma_pow2_pos(f);
    lemma_pow2_unfold(f);
    lemma_small_mod(1, pow2(f));
    lemma_basic_div(1, pow2(f) as int);
    lemma_small_mod(0, pow2(f));
    lemma_basic_div(0, pow2(f) as int);
    assert(magnitude(f, 0) == 0);
    assert(magnitude(f, 1) == 1);
    assert(pow2(0) * den == den) by (nonlinear_arith)
        requires
            pow2(0) == 1,
    ;
    assert(2 * num < den) by (nonlinear_arith)
        requires
            num * t == m * den || num * t < (m + 1) * den,
            num * t == m * den ==> 2 * m < t,
            2 * (m + 1) <= t,
            den > 0,
            t > 0,
    ;
    assert((0 + 1) * den == den);
}

proof fn lemma_shift_left(f: nat, m: nat, len: nat, s: int, shift: nat)
    requires
        s <= 0,
        m < pow2(len),
        len >= 1,
        pow2((len - 1) as nat) <= m,
        s >= len - (f + 1),
        shift == pow2((-s) as nat),
    ensures
        m * shift < 2 * pow2(f),
        s == len - (f + 1) ==> m * shift >= pow2(f),
{
    let k = (-s) as nat;
    lemma_pow2_pos(k);
    lemma_pow2_adds(len, k);
    lemma_pow2_adds((len - 1) as nat, k);
    lemma_power_below(len + k, f + 1);
    lemma_pow2_unfold(f + 1);
    assert(m * shift < pow2(len) * shift) by (nonlinear_arith)
        requires
            m < pow2(len),
            shift > 0,
    ;
    assert(m * shift >= pow2((len - 1) as nat) * shift) by (nonlinear_arith)
        requires
            m >= pow2((len - 1) as nat),
    ;
    if s == len - (f + 1) {
        assert((len - 1) as nat + k == f);
    }
}

/// A number with an unknown tail has enough digits to be cut.
proof fn lemma_sticky_shifts(f: nat, m: nat, len: nat, s: int)
    requires
        m >= pow2(f + 2),
        m < pow2(len),
        s >= len - (f + 1),
    ensures
        s > 0,
{
    if s <= 0 {
        lemma_power_below(len, f + 2);
    }
}

proof fn lemma_shift_right(f: nat, m: nat, len: nat, s: nat, q: nat)
    requires
        s >= 1,
        m < pow2(len),
        len >= 1,
        pow2((len - 1) as nat) <= m,
        s >= len - (f + 1),
        q == m / pow2(s),
    ensures
        q < 2 * pow2(f),
        s == len - (f + 1) ==> q >= pow2(f),
{
    let d = pow2(s);
    lemma_pow2_pos(s);
    lemma_fundamental_div_mod(m as int, d as int);
    lemma_pow2_adds(s, f + 1);
    lemma_pow2_adds(s, f);
    lemma_pow2_unfold(f + 1);
    lemma_power_below(len, s + (f + 1));
    let p = pow2(f);
    assert(q < 2 * p) by (nonlinear_arith)
        requires
            d * q <= m,
            m < d * (2 * p),
            d > 0,
    ;
    if s == len - (f + 1) {
        assert((len - 1) as nat == s + f);
        assert(d * (q + 1) == d * q + d) by (nonlinear_arith);
        assert(q >= p) by (nonlinear_arith)
            requires
                m < d * (q + 1),
                m >= d * p,
                d > 0,
        ;
    }
}

/// Shifting left loses nothing.
proof fn lemma_exact(num: nat, den: nat, m: nat, e: int, s: int, q: nat)
    requires
        den > 0,
        s <= 0,
        e + s >= 0,
        scaled(num, den, m, e, false),
        q == m * pow2((-s) as nat),
    ensures
        ({
            let c = pow2((e + s) as nat) * den;
            &&& q * c <= num
            &&& num < (q + 1) * c
            &&& 2 * num < (2 * q + 1) * c
        }),
{
    lemma2_to64();
    let g = pow2((e + s) as nat);
    let k = pow2((-s) as nat);
    let c = g * den;
    lemma_pow2_pos((e + s) as nat);
    lemma_pow2_adds((e + s) as nat, (-s) as nat);
    assert(num * pow2(0) == num) by (nonlinear_arith)
        requires
            pow2(0) == 1,
    ;
    assert(c > 0) by (nonlinear_arith)
        requires
            c == g * den,
            g > 0,
            den > 0,
    ;
    assert(num == q * c) by (nonlinear_arith)
        requires
            num == m * (pow2(e as nat) * den),
            pow2(e as nat) == g * k,
            q == m * k,
            c == g * den,
    ;
    assert((q + 1) * c == q * c + c) by (nonlinear_arith);
    assert((2 * q + 1) * c == 2 * (q * c) + c) by (nonlinear_arith);
}

/// Rounds `m * 2^e`, or a number between that and `(m + 1) * 2^e`, to the nearest
/// encoding of the format with `f` fraction bits whose infinity is `inf`.
pub fn round_scaled(f: u32, inf: u64, m: u128, e: i32, sticky: bool) -> (b: u64)
    requires
        1 <= f <= 52,
        0 < inf,
        m < pow2(127),
        -5000 <= e <= 5000,
        sticky ==> m >= pow2((f + 2) as nat),
    ensures
        b <= inf,
        forall|num: nat, den: nat|
            den > 0 && #[trigger] scaled(num, den, m as nat, e as int, sticky) ==> rounds_to(
                f as nat,
                inf as nat,
                num,
                den,
                b as nat,
            ),
{
    if m == 0 {
        proof {
            lemma_pow2_pos((f + 2) as nat);
            assert forall|num: nat, den: nat|
                den > 0 && #[trigger] scaled(num, den, m as nat, e as int, sticky)
                    implies rounds_to(
                f as nat,
                inf as nat,
                num,
                den,
                0,
            ) by {
                lemma_round_zero(f as nat, num, den, e as int);
            }
        }
        return 0;
    }
    let len: u32 = bit_length(m);
    proof {
        if len > 127 {
            lemma_power_below(127, (len - 1) as nat);
            assert(false);
        }
    }
    let by_len: i32 = len as i32 - (f as i32 + 1);
    let s: i32 = if by_len >= -e {
        by_len
    } else {
        -e
    };
    if s > len as i32 {
        proof {
            assert forall|num: nat, den: nat|
                den > 0 && #[trigger] scaled(num, den, m as nat, e as int, sticky)
                    implies rounds_to(
                f as nat,
                inf as nat,
                num,
                den,
                0,
            ) by {
                lemma_round_tiny(f as nat, num, den, m as nat, e as int, sticky, len as nat);
            }
        }
        return 0;
    }
    proof {
        lemma2_to64();
        lemma2_to64_rest();
        lemma_power_below(f as nat, 52);
    }
    let exponent: u128 = (e + s) as u128;
    let q: u128;
    let up: bool;
    if s <= 0 {
        let shift: u128 = power_of_two((-s) as u32);
        proof {
            lemma_shift_left(f as nat, m as nat, len as nat, s as int, shift as nat);
            if sticky {
                lemma_sticky_shifts(f as nat, m as nat, len as nat, s as int);
            }
        }
        q = m * shift;
        up = false;
    } else {
        let unit: u128 = power_of_two(s as u32);
        let rem: u128 = m % unit;
        q = m / unit;
        proof {
            lemma_fundamental_div_mod(m as int, unit as int);
            lemma_shift_right(f as nat, m as nat, len as nat, s as nat, q as nat);
            lemma_pow2_unfold(s as nat);
        }
        let half: u128 = unit / 2;
        up = rem > half || (rem == half && (sticky || q % 2 == 1));
    }
    let fraction: u128 = power_of_two(f);
    proof {
        assert(exponent * fraction <= 10000 * pow2(52)) by (nonlinear_arith)
            requires
                exponent <= 10000,
                fraction <= pow2(52),
        ;
    }
    let b: u128 = exponent * fraction + q + if up {
        1
    } else {
        0
    };
    proof {
        assert forall|num: nat, den: nat|
            den > 0 && #[trigger] scaled(num, den, m as nat, e as int, sticky) implies rounds_to(
            f as nat,
            inf as nat,
            num,
            den,
            if b < inf {
                b as nat
            } else {
                inf as nat
            },
        ) by {
            if s <= 0 {
                lemma_exact(num, den, m as nat, e as int, s as int, q as nat);
            } else {
                lemma_split(
                    num,
                    den,
                    m as nat,
                    e as int,
                    sticky,
                    s as nat,
                    q as nat,
                    m as nat % pow2(s as nat),
                );
            }
            lemma_nearest(f as nat, num, den, exponent as nat, q as nat, up);
            lemma_saturate(f as nat, inf as nat, num, den, b as nat);
        }
    }
    if b < inf as u128 {
        b as u64
    } else {
        inf
    }
}

} // verus!
