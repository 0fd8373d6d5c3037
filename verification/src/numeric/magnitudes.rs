//! Arithmetic on non-negative numbers in encoded form.
//!
//! `f` is the number of fraction bits of the format, `inf` the encoding of
//! infinity and `k` the exponent of the smallest positive number, `2^-k`.

use crate::numeric::rounding::{
    bit_length, lemma_magnitude_monotone, lemma_rounded, magnitude, positive_part, power_of_two,
    round_scaled, rounded, scaled,
};
use vstd::arithmetic::div_mod::*;
use vstd::arithmetic::mul::*;
use vstd::arithmetic::power2::*;
use vstd::prelude::*;

verus! {

/// `f`, `inf` and `k` describe a format with at most 52 fraction bits.
pub open spec fn format_ok(f: u32, inf: u64, k: u32) -> bool {
    &&& 1 <= f <= 52
    &&& 0 < inf <= 2047 * pow2(f as nat)
    &&& f <= k <= 1074
}

/// Significand and exponent of a finite encoding.
pub fn parts(f: u32, b: u64) -> (p: (u64, u32))
    requires
        1 <= f <= 52,
        b < 2047 * pow2(f as nat),
    ensures
        magnitude(f as nat, b as nat) == p.0 * pow2(p.1 as nat),
        p.0 < 2 * pow2(f as nat),
        p.1 <= 2045,
        p.1 > 0 ==> p.1 + 1 == b as nat / pow2(f as nat),
        p.1 > 0 ==> p.0 >= pow2(f as nat),
        b > 0 ==> p.0 > 0,
        p.0 < 0x20_0000_0000_0000,
{
    let unit: u128 = power_of_two(f);
    proof {
        lemma2_to64();
        lemma2_to64_rest();
        if f < 52 {
            lemma_pow2_strictly_increases(f as nat, 52);
        }
        lemma_fundamental_div_mod(b as int, unit as int);
        lemma_mod_bound(b as int, unit as int);
    }
    let e: u64 = b / (unit as u64);
    let m: u64 = b % (unit as u64);
    proof {
        assert(e <= 2046) by (nonlinear_arith)
            requires
                b == unit * e + m,
                b < 2047 * unit,
                m >= 0,
                unit > 0,
        ;
        assert(m * pow2(0) == m) by (nonlinear_arith)
            requires
                pow2(0) == 1,
        ;
        if e == 0 {
            assert(unit * e == 0) by (nonlinear_arith)
                requires
                    e == 0,
            ;
        }
    }
    if e == 0 {
        (m, 0)
    } else {
        (unit as u64 + m, (e - 1) as u32)
    }
}

proof fn lemma_power_of_sum(a: nat, b: nat, c: nat, d: nat)
    requires
        a + b == c + d,
    ensures
        pow2(a) * pow2(b) == pow2(c) * pow2(d),
{
    lemma_pow2_adds(a, b);
    lemma_pow2_adds(c, d);
}

/// A short tail lies below one unit of the cut significand.
proof fn lemma_short_tail(f: nat, m_low: nat, e_low: nat, e_high: nat)
    requires
        1 <= f <= 52,
        m_low < 2 * pow2(f),
        e_high > e_low + 64,
    ensures
        m_low * pow2(e_low) < pow2((e_high - 8) as nat),
{
    lemma_pow2_unfold(f + 1);
    lemma_pow2_adds(f + 1, e_low);
    lemma_pow2_pos(e_low);
    assert(m_low * pow2(e_low) <= pow2(f + 1) * pow2(e_low)) by (nonlinear_arith)
        requires
            m_low <= pow2(f + 1),
    ;
    lemma_pow2_strictly_increases(f + 1 + e_low, (e_high - 8) as nat);
}

/// The nearest encoding of the sum.
pub fn add_magnitudes(f: u32, inf: u64, k: u32, a: u64, b: u64) -> (r: u64)
    requires
        format_ok(f, inf, k),
        a < inf,
        b < inf,
    ensures
        r == rounded(
            f as nat,
            inf as nat,
            magnitude(f as nat, a as nat) + magnitude(f as nat, b as nat),
            1,
        ),
        r <= inf,
{
    let (ma, ea) = parts(f, a);
    let (mb, eb) = parts(f, b);
    let (m_high, e_high, m_low, e_low): (u64, u32, u64, u32) = if ea >= eb {
        (ma, ea, mb, eb)
    } else {
        (mb, eb, ma, ea)
    };
    let ghost num = magnitude(f as nat, a as nat) + magnitude(f as nat, b as nat);
    let d: u32 = e_high - e_low;
    proof {
        lemma2_to64();
        lemma2_to64_rest();
        lemma_pow2_unfold((f + 2) as nat);
        lemma_pow2_unfold((f + 1) as nat);
        lemma_pow2_pos(f as nat);
        lemma_pow2_adds(63, 64);
    }
    let r: u64;
    if d <= 64 {
        let shift: u128 = power_of_two(d);
        proof {
            if d < 64 {
                lemma_pow2_strictly_increases(d as nat, 64);
            }
            assert(m_high * shift <= 0x20_0000_0000_0000 * pow2(64)) by (nonlinear_arith)
                requires
                    m_high <= 0x20_0000_0000_0000,
                    shift <= pow2(64),
            ;
        }
        let m: u128 = m_high as u128 * shift + m_low as u128;
        r = round_scaled(f, inf, m, e_low as i32, false);
        proof {
            lemma_pow2_adds(d as nat, e_low as nat);
            assert(num == m * pow2(e_low as nat)) by (nonlinear_arith)
                requires
                    num == m_high * pow2(e_high as nat) + m_low * pow2(e_low as nat),
                    pow2(e_high as nat) == shift * pow2(e_low as nat),
                    m == m_high * shift + m_low,
            ;
            lemma_whole(num, m as nat, e_low as nat, false);
        }
    } else {
        let m: u128 = m_high as u128 * 256;
        let sticky: bool = m_low > 0;
        r = round_scaled(f, inf, m, e_high as i32 - 8, sticky);
        proof {
            let e8 = (e_high - 8) as nat;
            lemma_short_tail(f as nat, m_low as nat, e_low as nat, e_high as nat);
            lemma_pow2_adds(8, e8);
            lemma_pow2_pos(e_low as nat);
            assert(num == m * pow2(e8) + m_low * pow2(e_low as nat)) by (nonlinear_arith)
                requires
                    num == m_high * pow2(e_high as nat) + m_low * pow2(e_low as nat),
                    pow2(e_high as nat) == 256 * pow2(e8),
                    m == m_high * 256,
            ;
            if sticky {
                assert(m_low * pow2(e_low as nat) > 0) by (nonlinear_arith)
                    requires
                        m_low > 0,
                        pow2(e_low as nat) > 0,
                ;
                assert((m + 1) * pow2(e8) == m * pow2(e8) + pow2(e8)) by (nonlinear_arith);
            } else {
                assert(m_low * pow2(e_low as nat) == 0) by (nonlinear_arith)
                    requires
                        m_low == 0,
                ;
            }
            lemma_whole(num, m as nat, e8, sticky);
        }
    }
    proof {
        lemma_rounded(f as nat, inf as nat, num, 1, r as nat);
    }
    r
}

/// `scaled` for whole numbers.
proof fn lemma_whole(num: nat, m: nat, e: nat, sticky: bool)
    requires
        !sticky ==> num == m * pow2(e),
        sticky ==> m * pow2(e) < num && num < (m + 1) * pow2(e),
    ensures
        scaled(num, 1, m, e as int, sticky),
{
    lemma2_to64();
    assert(num * pow2(0) == num) by (nonlinear_arith)
        requires
            pow2(0) == 1,
    ;
    assert(pow2(e) * 1 == pow2(e));
}

/// The nearest encoding of the difference of `a` and a number `b` that is not
/// larger.
pub fn subtract_magnitudes(f: u32, inf: u64, k: u32, a: u64, b: u64) -> (r: u64)
    requires
        format_ok(f, inf, k),
        b <= a < inf,
    ensures
        r == rounded(
            f as nat,
            inf as nat,
            (magnitude(f as nat, a as nat) - magnitude(f as nat, b as nat)) as nat,
            1,
        ),
        r <= inf,
{
    let (ma, ea) = parts(f, a);
    let (mb, eb) = parts(f, b);
    let ghost va = magnitude(f as nat, a as nat);
    let ghost vb = magnitude(f as nat, b as nat);
    proof {
        if b < a {
            lemma_magnitude_monotone(f as nat, b as nat, a as nat);
        }
        lemma_exponents_ordered(f as nat, ma as nat, ea as nat, mb as nat, eb as nat);
    }
    let ghost num = (va - vb) as nat;
    let d: u32 = ea - eb;
    proof {
        lemma2_to64();
        lemma2_to64_rest();
        lemma_pow2_unfold((f + 2) as nat);
        lemma_pow2_unfold((f + 1) as nat);
        lemma_pow2_pos(f as nat);
        lemma_pow2_adds(63, 64);
        lemma_pow2_pos(eb as nat);
    }
    let r: u64;
    if d <= 64 {
        let shift: u128 = power_of_two(d);
        proof {
            if d < 64 {
                lemma_pow2_strictly_increases(d as nat, 64);
            }
            assert(ma * shift <= 0x20_0000_0000_0000 * pow2(64)) by (nonlinear_arith)
                requires
                    ma <= 0x20_0000_0000_0000,
                    shift <= pow2(64),
            ;
            lemma_pow2_adds(d as nat, eb as nat);
            assert(va == (ma * shift) * pow2(eb as nat)) by (nonlinear_arith)
                requires
                    va == ma * pow2(ea as nat),
                    pow2(ea as nat) == shift * pow2(eb as nat),
            ;
            assert(ma * shift >= mb) by (nonlinear_arith)
                requires
                    (ma * shift) * pow2(eb as nat) >= mb * pow2(eb as nat),
                    pow2(eb as nat) > 0,
            ;
        }
        let m: u128 = ma as u128 * shift - mb as u128;
        r = round_scaled(f, inf, m, eb as i32, false);
        proof {
            assert(num == m * pow2(eb as nat)) by (nonlinear_arith)
                requires
                    num == (ma * shift) * pow2(eb as nat) - mb * pow2(eb as nat),
                    m == ma * shift - mb,
            ;
            lemma_whole(num, m as nat, eb as nat, false);
        }
    } else {
        let sticky: bool = mb > 0;
        let m: u128 = if sticky {
            ma as u128 * 256 - 1
        } else {
            ma as u128 * 256
        };
        r = round_scaled(f, inf, m, ea as i32 - 8, sticky);
        proof {
            let e8 = (ea - 8) as nat;
            lemma_short_tail(f as nat, mb as nat, eb as nat, ea as nat);
            lemma_pow2_adds(8, e8);
            let top = ma * 256;
            assert(va == top * pow2(e8)) by (nonlinear_arith)
                requires
                    va == ma * pow2(ea as nat),
                    pow2(ea as nat) == 256 * pow2(e8),
                    top == ma * 256,
            ;
            if sticky {
                assert(mb * pow2(eb as nat) > 0) by (nonlinear_arith)
                    requires
                        mb > 0,
                        pow2(eb as nat) > 0,
                ;
                assert(m * pow2(e8) == top * pow2(e8) - pow2(e8)) by (nonlinear_arith)
                    requires
                        m == top - 1,
                ;
                assert((m + 1) * pow2(e8) == top * pow2(e8));
            } else {
                assert(mb * pow2(eb as nat) == 0) by (nonlinear_arith)
                    requires
                        mb == 0,
                ;
            }
            lemma_whole(num, m as nat, e8, sticky);
        }
    }
    proof {
        lemma_rounded(f as nat, inf as nat, num, 1, r as nat);
    }
    r
}

/// The larger number has the larger exponent.
proof fn lemma_exponents_ordered(f: nat, ma: nat, ea: nat, mb: nat, eb: nat)
    requires
        ma < 2 * pow2(f),
        eb > 0 ==> mb >= pow2(f),
        ma * pow2(ea) >= mb * pow2(eb),
    ensures
        ea >= eb,
{
    if ea < eb {
        let g = pow2(ea);
        lemma_pow2_pos(ea);
        let d = (eb - ea) as nat;
        lemma_pow2_adds(d, ea);
        lemma_pow2_unfold(d);
        lemma_pow2_pos((d - 1) as nat);
        let p = pow2(f);
        assert(mb * (pow2(d) * g) > ma * g) by (nonlinear_arith)
            requires
                pow2(d) >= 2,
                mb >= p,
                ma < 2 * p,
                g > 0,
        ;
    }
}

/// The nearest encoding of the product.
pub fn multiply_magnitudes(f: u32, inf: u64, k: u32, a: u64, b: u64) -> (r: u64)
    requires
        format_ok(f, inf, k),
        a < inf,
        b < inf,
    ensures
        r == rounded(
            f as nat,
            inf as nat,
            magnitude(f as nat, a as nat) * magnitude(f as nat, b as nat),
            pow2(k as nat),
        ),
        r <= inf,
{
    let (ma, ea) = parts(f, a);
    let (mb, eb) = parts(f, b);
    proof {
        lemma2_to64();
        lemma2_to64_rest();
        lemma_pow2_adds(63, 64);
        lemma_pow2_pos(k as nat);
        assert(ma * mb <= 0x20_0000_0000_0000 * 0x20_0000_0000_0000) by (nonlinear_arith)
            requires
                ma <= 0x20_0000_0000_0000,
                mb <= 0x20_0000_0000_0000,
        ;
    }
    let m: u128 = ma as u128 * mb as u128;
    let e: i32 = ea as i32 + eb as i32 - k as i32;
    let r: u64 = round_scaled(f, inf, m, e, false);
    proof {
        let num = magnitude(f as nat, a as nat) * magnitude(f as nat, b as nat);
        let den = pow2(k as nat);
        let t = positive_part(-e as int);
        let g = positive_part(e as int);
        lemma_pow2_adds(ea as nat, eb as nat);
        lemma_power_of_sum((ea + eb) as nat, t, g, k as nat);
        let pe = pow2((ea + eb) as nat);
        assert(num == m * pe) by (nonlinear_arith)
            requires
                num == (ma * pow2(ea as nat)) * (mb * pow2(eb as nat)),
                pe == pow2(ea as nat) * pow2(eb as nat),
                m == ma * mb,
        ;
        assert(num * pow2(t) == m * (pow2(g) * den)) by (nonlinear_arith)
            requires
                num == m * pe,
                pe * pow2(t) == pow2(g) * den,
        ;
        assert(scaled(num, den, m as nat, e as int, false));
        lemma_rounded(f as nat, inf as nat, num, den, r as nat);
    }
    r
}

/// The nearest encoding of the quotient.
pub fn divide_magnitudes(f: u32, inf: u64, k: u32, a: u64, b: u64) -> (r: u64)
    requires
        format_ok(f, inf, k),
        a < inf,
        0 < b < inf,
    ensures
        r == rounded(
            f as nat,
            inf as nat,
            magnitude(f as nat, a as nat) * pow2(k as nat),
            magnitude(f as nat, b as nat),
        ),
        r <= inf,
{
    let (ma, ea) = parts(f, a);
    let (mb, eb) = parts(f, b);
    let len: u32 = bit_length(ma as u128);
    proof {
        lemma2_to64();
        lemma2_to64_rest();
        lemma_pow2_adds(63, 64);
        lemma_pow2_adds(62, 64);
        if len > 53 {
            lemma_pow2_strictly_increases(53, (len) as nat);
            if len > 54 {
                lemma_pow2_strictly_increases(53, (len - 1) as nat);
            }
        }
    }
    let shift: u32 = 126 - len;
    let unit: u128 = power_of_two(shift);
    proof {
        lemma_pow2_adds(len as nat, shift as nat);
        assert(ma * unit <= pow2(126)) by (nonlinear_arith)
            requires
                ma <= pow2(len as nat),
                pow2(126) == pow2(len as nat) * unit,
        ;
    }
    let top: u128 = ma as u128 * unit;
    let m: u128 = top / (mb as u128);
    let rem: u128 = top % (mb as u128);
    let e: i32 = ea as i32 + k as i32 - eb as i32 - shift as i32;
    let sticky: bool = rem > 0;
    proof {
        lemma_fundamental_div_mod(top as int, mb as int);
        lemma_mod_bound(top as int, mb as int);
        lemma_div_nonincreasing(top as int, mb as int);
        if sticky {
            if ma == 0 {
                assert(top == 0) by (nonlinear_arith)
                    requires
                        top == ma * unit,
                        ma == 0,
                ;
                lemma_div_of0(mb as int);
                assert(mb * m == 0) by (nonlinear_arith)
                    requires
                        m == 0,
                ;
                assert(false);
            }
            lemma_enough_digits(f as nat, ma as nat, mb as nat, len as nat, top as nat, m as nat);
        }
    }
    let r: u64 = round_scaled(f, inf, m, e, sticky);
    proof {
        let num = magnitude(f as nat, a as nat) * pow2(k as nat);
        let den = magnitude(f as nat, b as nat);
        let t = positive_part(-e as int);
        let g = positive_part(e as int);
        lemma_pow2_pos(eb as nat);
        lemma_pow2_pos(g);
        assert(den > 0) by (nonlinear_arith)
            requires
                den == mb * pow2(eb as nat),
                mb > 0,
                pow2(eb as nat) > 0,
        ;
        lemma_pow2_adds(ea as nat, k as nat);
        lemma_pow2_adds(eb as nat, g);
        lemma_power_of_sum((ea + k) as nat, t, (eb + g) as nat, shift as nat);
        let pe = pow2((ea + k) as nat);
        let w = pow2((eb + g) as nat);
        lemma_pow2_pos((eb + g) as nat);
        assert(num == ma * pe) by (nonlinear_arith)
            requires
                num == (ma * pow2(ea as nat)) * pow2(k as nat),
                pe == pow2(ea as nat) * pow2(k as nat),
        ;
        assert(num * pow2(t) == top * w) by (nonlinear_arith)
            requires
                num == ma * pe,
                pe * pow2(t) == w * unit,
                top == ma * unit,
        ;
        let c = pow2(g) * den;
        assert(c == mb * w) by (nonlinear_arith)
            requires
                c == pow2(g) * den,
                den == mb * pow2(eb as nat),
                w == pow2(eb as nat) * pow2(g),
        ;
        assert(top * w == m * c + rem * w) by (nonlinear_arith)
            requires
                top == mb * m + rem,
                c == mb * w,
        ;
        assert(rem * w < c) by (nonlinear_arith)
            requires
                rem < mb,
                c == mb * w,
                w > 0,
        ;
        assert((m + 1) * c == m * c + c) by (nonlinear_arith);
        if sticky {
            assert(rem * w > 0) by (nonlinear_arith)
                requires
                    rem > 0,
                    w > 0,
            ;
        } else {
            assert(rem * w == 0) by (nonlinear_arith)
                requires
                    rem == 0,
            ;
        }
        assert(scaled(num, den, m as nat, e as int, sticky));
        lemma_rounded(f as nat, inf as nat, num, den, r as nat);
    }
    r
}

proof fn lemma_enough_digits(f: nat, ma: nat, mb: nat, len: nat, top: nat, m: nat)
    requires
        1 <= f <= 52,
        1 <= len <= 54,
        pow2((len - 1) as nat) <= ma,
        0 < mb < 0x20_0000_0000_0000,
        top == ma * pow2((126 - len) as nat),
        m == top / mb,
    ensures
        m >= pow2(f + 2),
{
    lemma2_to64();
    lemma2_to64_rest();
    lemma_pow2_adds((len - 1) as nat, (126 - len) as nat);
    assert(top >= pow2(125)) by (nonlinear_arith)
        requires
            top == ma * pow2((126 - len) as nat),
            ma >= pow2((len - 1) as nat),
            pow2(125) == pow2((len - 1) as nat) * pow2((126 - len) as nat),
    ;
    lemma_pow2_adds(53, 72);
    lemma_fundamental_div_mod(top as int, mb as int);
    lemma_mod_bound(top as int, mb as int);
    let p = pow2(72);
    assert(m >= p) by (nonlinear_arith)
        requires
            top < mb * m + mb,
            top >= 0x20_0000_0000_0000 * p,
            0 < mb < 0x20_0000_0000_0000,
            m >= 0,
            p >= 0,
    ;
    lemma_pow2_strictly_increases(f + 2, 72);
}

/// The nearest encoding of a whole number.
pub fn whole_magnitude(f: u32, inf: u64, k: u32, n: u64) -> (r: u64)
    requires
        format_ok(f, inf, k),
    ensures
        r == rounded(f as nat, inf as nat, n as nat * pow2(k as nat), 1),
        r <= inf,
{
    proof {
        lemma2_to64();
        lemma2_to64_rest();
        lemma_pow2_strictly_increases(64, 127);
    }
    let r: u64 = round_scaled(f, inf, n as u128, k as i32, false);
    proof {
        let num = n as nat * pow2(k as nat);
        lemma_whole(num, n as nat, k as nat, false);
        lemma_rounded(f as nat, inf as nat, num, 1, r as nat);
    }
    r
}

/// The largest whole number that is not above the encoded one, or the largest
/// that fits.
pub fn truncate_magnitude(f: u32, inf: u64, k: u32, a: u64) -> (r: u64)
    requires
        format_ok(f, inf, k),
        a < inf,
    ensures
        ({
            let whole = magnitude(f as nat, a as nat) / pow2(k as nat);
            r == if whole > u64::MAX {
                u64::MAX as nat
            } else {
                whole
            }
        }),
{
    let (m, e) = parts(f, a);
    let ghost v = magnitude(f as nat, a as nat);
    let ghost unit = pow2(k as nat);
    proof {
        lemma2_to64();
        lemma2_to64_rest();
        lemma_pow2_pos(k as nat);
        lemma_pow2_adds(63, 53);
    }
    if e >= k {
        let d: u32 = e - k;
        proof {
            lemma_pow2_adds(d as nat, k as nat);
            assert(v == unit * (m * pow2(d as nat))) by (nonlinear_arith)
                requires
                    v == m * pow2(e as nat),
                    pow2(e as nat) == pow2(d as nat) * unit,
            ;
            lemma_div_multiples_vanish((m * pow2(d as nat)) as int, unit as int);
        }
        if m == 0 {
            assert(m * pow2(d as nat) == 0) by (nonlinear_arith)
                requires
                    m == 0,
            ;
            return 0;
        }
        if d >= 64 {
            proof {
                if d > 64 {
                    lemma_pow2_strictly_increases(64, d as nat);
                }
                assert(m * pow2(d as nat) >= pow2(64)) by (nonlinear_arith)
                    requires
                        m >= 1,
                        pow2(d as nat) >= pow2(64),
                ;
            }
            return u64::MAX;
        }
        let shift: u128 = power_of_two(d);
        proof {
            if d < 63 {
                lemma_pow2_strictly_increases(d as nat, 63);
            }
            assert(m * shift <= 0x20_0000_0000_0000 * pow2(63)) by (nonlinear_arith)
                requires
                    m <= 0x20_0000_0000_0000,
                    shift <= pow2(63),
            ;
        }
        let whole: u128 = m as u128 * shift;
        if whole > u64::MAX as u128 {
            u64::MAX
        } else {
            whole as u64
        }
    } else {
        let s: u32 = k - e;
        proof {
            lemma_pow2_adds(s as nat, e as nat);
            lemma_pow2_pos(e as nat);
            lemma_pow2_pos(s as nat);
            assert(v == pow2(e as nat) * m) by (nonlinear_arith)
                requires
                    v == m * pow2(e as nat),
            ;
            assert(unit == pow2(e as nat) * pow2(s as nat)) by (nonlinear_arith)
                requires
                    unit == pow2(s as nat) * pow2(e as nat),
            ;
            lemma_div_denominator(v as int, pow2(e as nat) as int, pow2(s as nat) as int);
            lemma_div_multiples_vanish(m as int, pow2(e as nat) as int);
        }
        if s >= 64 {
            proof {
                if s > 64 {
                    lemma_pow2_strictly_increases(64, s as nat);
                }
                lemma_basic_div(m as int, pow2(s as nat) as int);
            }
            return 0;
        }
        let unit_s: u128 = power_of_two(s);
        proof {
            lemma_div_nonincreasing(m as int, unit_s as int);
        }
        (m as u128 / unit_s) as u64
    }
}

/// The nearest encoding in another, shorter format, whose smallest positive
/// number is `2^drop` times as large.
pub fn narrow_magnitude(f: u32, inf: u64, drop: u32, wide_f: u32, a: u64) -> (r: u64)
    requires
        1 <= f <= 52,
        0 < inf,
        drop <= 2000,
        1 <= wide_f <= 52,
        a < 2047 * pow2(wide_f as nat),
    ensures
        r == rounded(
            f as nat,
            inf as nat,
            magnitude(wide_f as nat, a as nat),
            pow2(drop as nat),
        ),
        r <= inf,
{
    let (m, e) = parts(wide_f, a);
    proof {
        lemma2_to64();
        lemma2_to64_rest();
        lemma_pow2_strictly_increases(64, 127);
    }
    let x: i32 = e as i32 - drop as i32;
    let r: u64 = round_scaled(f, inf, m as u128, x, false);
    proof {
        let num = magnitude(wide_f as nat, a as nat);
        let den = pow2(drop as nat);
        let t = positive_part(-x as int);
        let g = positive_part(x as int);
        lemma_pow2_pos(drop as nat);
        lemma_power_of_sum(e as nat, t, g, drop as nat);
        assert(num * pow2(t) == m * (pow2(g) * den)) by (nonlinear_arith)
            requires
                num == m * pow2(e as nat),
                pow2(e as nat) * pow2(t) == pow2(g) * den,
        ;
        assert(scaled(num, den, m as nat, x as int, false));
        lemma_rounded(f as nat, inf as nat, num, den, r as nat);
    }
    r
}

} // verus!
