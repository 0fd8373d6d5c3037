//! Rounding to a whole number.

use crate::numeric::binary32::Binary32;
use crate::numeric::rounding::{lemma_magnitude_monotone, magnitude, power_of_two};
use vstd::arithmetic::div_mod::*;
use vstd::arithmetic::power2::*;
use vstd::prelude::*;

verus! {

/// The number 0.5.
pub const HALF_BITS: u32 = 0x3f00_0000;

impl Binary32 {
    /// The nearest whole number, ties away from zero; 0 for a negative number and for
    /// no number, and at most the largest index.
    pub open spec fn nearest_index(self) -> nat {
        if self.nan() || self.negative() {
            0
        } else if self.infinite() {
            usize::MAX as nat
        } else {
            let n = (2 * self.size() + pow2(149)) / pow2(150);
            if n > usize::MAX {
                usize::MAX as nat
            } else {
                n
            }
        }
    }

    /// The nearest whole number, ties away from zero.
    pub fn to_index(self) -> (n: usize)
        ensures
            n == self.nearest_index(),
    {
        if self.is_nan() || self.is_negative() {
            return 0;
        }
        if self.is_infinite() {
            return usize::MAX;
        }
        let b: u32 = self.bits;
        proof {
            lemma_constants();
        }
        if b < HALF_BITS {
            proof {
                lemma_magnitude_monotone(23, b as nat, HALF_BITS as nat);
                assert(2 * self.size() + pow2(149) < pow2(150));
                lemma_basic_div((2 * self.size() + pow2(149)) as int, pow2(150) as int);
            }
            return 0;
        }
        let e: u32 = b / 8388608;
        let m: u128 = 8388608 + (b % 8388608) as u128;
        assert(126 <= e <= 254);
        assert(self.size() == m as nat * pow2((e - 1) as nat));
        let whole: u128;
        if e < 150 {
            let s: u32 = 150 - e;
            let p: u128 = power_of_two(s);
            proof {
                lemma_pow2_strictly_increases(s as nat, 25);
                assert(pow2(25) == 0x200_0000);
                lemma_pow2_unfold((s + 1) as nat);
                lemma_pow2_adds(s as nat, (e - 1) as nat);
                lemma_pow2_adds((s + 1) as nat, (e - 1) as nat);
                lemma_pow2_pos(s as nat);
                lemma_cancel(2 * m as nat + p as nat, 2 * p as nat, pow2((e - 1) as nat));
                assert(2 * self.size() + pow2(149) == (2 * m as nat + p as nat) * pow2(
                    (e - 1) as nat,
                )) by (nonlinear_arith)
                    requires
                        self.size() == m as nat * pow2((e - 1) as nat),
                        pow2(149) == p as nat * pow2((e - 1) as nat),
                ;
            }
            whole = (2 * m + p) / (2 * p);
        } else {
            let p: u128 = power_of_two(e - 150);
            proof {
                lemma_pow2_adds((e - 150) as nat, 149);
                lemma_pow2_adds(24, 104);
                if e < 254 {
                    lemma_pow2_strictly_increases((e - 150) as nat, 104);
                }
                assert(pow2(24) == 0x100_0000);
                lemma_pow2_pos(104);
                let n = (m as nat) * (p as nat);
                assert((m as nat) * (p as nat) < pow2(128)) by (nonlinear_arith)
                    requires
                        m < 0x100_0000,
                        p <= pow2(104),
                        pow2(128) == 0x100_0000 * pow2(104),
                        pow2(104) > 0,
                ;
                lemma_pow2_adds(64, 64);
                assert(2 * self.size() == n * pow2(150)) by (nonlinear_arith)
                    requires
                        self.size() == m as nat * pow2((e - 1) as nat),
                        pow2((e - 1) as nat) == p as nat * pow2(149),
                        pow2(150) == 2 * pow2(149),
                        n == (m as nat) * (p as nat),
                ;
                lemma_fundamental_div_mod_converse(
                    (2 * self.size() + pow2(149)) as int,
                    pow2(150) as int,
                    n as int,
                    pow2(149) as int,
                );
            }
            whole = m * p;
        }
        if whole > usize::MAX as u128 {
            usize::MAX
        } else {
            whole as usize
        }
    }
}

proof fn lemma_constants()
    ensures
        pow2(23) == 8388608,
        pow2(25) == 0x200_0000,
        pow2(24) == 0x100_0000,
        pow2(150) == 2 * pow2(149),
        pow2(149) == 2 * pow2(148),
        pow2(148) > 0,
        magnitude(23, HALF_BITS as nat) == pow2(148),
        pow2(64) == 0x1_0000_0000_0000_0000,
{
    lemma2_to64();
    lemma2_to64_rest();
    lemma_pow2_unfold(150);
    lemma_pow2_unfold(149);
    lemma_pow2_pos(148);
    lemma_pow2_adds(23, 125);
    assert(0x3f00_0000nat / 8388608 == 126);
    assert(0x3f00_0000nat % 8388608 == 0);
}

/// A common factor does not change a quotient.
proof fn lemma_cancel(a: nat, b: nat, k: nat)
    requires
        b > 0,
        k > 0,
    ensures
        (a * k) / (b * k) == a / b,
{
    let q = a / b;
    let r = a % b;
    lemma_fundamental_div_mod(a as int, b as int);
    assert(a * k == q * (b * k) + r * k) by (nonlinear_arith)
        requires
            a == b * q + r,
    ;
    assert(r * k < b * k) by (nonlinear_arith)
        requires
            r < b,
            k > 0,
    ;
    assert(b * k > 0) by (nonlinear_arith)
        requires
            b > 0,
            k > 0,
    ;
    lemma_fundamental_div_mod_converse((a * k) as int, (b * k) as int, q as int, (r * k) as int);
}

/// The nearest whole number is within a half of the number.
pub proof fn law_nearest_index(x: Binary32)
    requires
        !x.nan(),
        !x.infinite(),
        !x.negative(),
        x.nearest_index() < usize::MAX,
    ensures
        ({
            let one = pow2(149) as int;
            let n = x.nearest_index();
            2 * (n * one) - one <= 2 * x.size() < 2 * (n * one) + one
        }),
{
    let one = pow2(149) as int;
    let n = x.nearest_index() as int;
    lemma_pow2_unfold(150);
    lemma_pow2_pos(149);
    let d = 2 * x.size() + one;
    lemma_fundamental_div_mod(d, 2 * one);
    lemma_mod_division_less_than_divisor(d, 2 * one);
    assert((2 * one) * n == 2 * (n * one)) by (nonlinear_arith);
}

} // verus!
