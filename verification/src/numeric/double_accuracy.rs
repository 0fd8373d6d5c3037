//! How far the result of an operation in double precision can lie from the exact one.

use crate::numeric::accuracy::{abs, lemma_gap};
use crate::numeric::binary64::{
    nearest_double, whole_double, Binary64, FRACTION_BITS, INFINITY_BITS, SMALLEST_EXPONENT,
};
use crate::numeric::rounding::{
    lemma_magnitude_monotone, lemma_magnitude_step, lemma_rounded_exists, magnitude,
};
use vstd::arithmetic::div_mod::*;
use vstd::arithmetic::power2::*;
use vstd::prelude::*;

verus! {

/// The number 1 in units of the smallest positive double precision number.
pub open spec fn double_unit() -> nat {
    pow2(SMALLEST_EXPONENT as nat)
}

/// `result` is as near to `exact` as a rounded number is; both are counted in parts of a
/// unit, of which there are `den`.
pub open spec fn near_double(exact: int, result: int, den: int) -> bool {
    9007199254740992 * abs(exact - result * den) <= (result + 4503599627370496) * den
}

/// How far the nearest number is.
proof fn lemma_double_rounding(num: nat, den: nat)
    requires
        den > 0,
    ensures
        nearest_double(num, den) <= INFINITY_BITS,
        nearest_double(num, den) < INFINITY_BITS ==> near_double(
            num as int,
            magnitude(FRACTION_BITS as nat, nearest_double(num, den)) as int,
            den as int,
        ),
{
    let f = FRACTION_BITS as nat;
    let b = nearest_double(num, den);
    let r = magnitude(f, b);
    lemma2_to64();
    lemma2_to64_rest();
    assert(pow2(52) == 4503599627370496);
    lemma_rounded_exists(f, INFINITY_BITS as nat, num, den);
    if b < INFINITY_BITS {
        lemma_gap(f, b);
        let up = magnitude(f, b + 1);
        assert(9007199254740992 * (num - r * den) <= (r + 4503599627370496) * den)
            by (nonlinear_arith)
            requires
                2 * num <= (r + up) * den,
                (up - r) * 4503599627370496 <= r + 4503599627370496,
                den > 0,
        ;
        if b > 0 {
            lemma_gap(f, (b - 1) as nat);
            lemma_magnitude_step(f, (b - 1) as nat);
            let low = magnitude(f, (b - 1) as nat);
            assert(9007199254740992 * (r * den - num) <= (r + 4503599627370496) * den)
                by (nonlinear_arith)
                requires
                    2 * num >= (low + r) * den,
                    (r - low) * 4503599627370496 <= low + 4503599627370496,
                    low <= r,
                    den > 0,
            ;
        } else {
            lemma_pow2_pos(f);
            lemma_small_mod(0, pow2(f));
            lemma_basic_div(0, pow2(f) as int);
            assert(r == 0);
            assert(r * den == 0) by (nonlinear_arith)
                requires
                    r == 0,
            ;
            assert((r + 4503599627370496) * den >= 0) by (nonlinear_arith)
                requires
                    r == 0,
                    den > 0,
            ;
        }
    }
}

/// How far the number of a count is from the count.
pub proof fn law_whole_double_is_near(n: u64)
    requires
        !whole_double(n).infinite(),
    ensures
        !whole_double(n).nan(),
        !whole_double(n).negative(),
        near_double(n * double_unit(), whole_double(n).size() as int, 1),
{
    lemma_double_rounding(n as nat * double_unit(), 1);
}

/// How far a quotient of positive numbers is from the exact one.
pub proof fn law_double_quotient_is_near(x: Binary64, y: Binary64)
    requires
        !x.nan(),
        !x.infinite(),
        !x.negative(),
        y.over_zero(),
        !y.infinite(),
    ensures
        !x.quotient(y).nan(),
        !x.quotient(y).negative(),
        y.size() > 0,
        !x.quotient(y).infinite() ==> near_double(
            (x.size() * double_unit()) as int,
            x.quotient(y).size() as int,
            y.size() as int,
        ),
{
    let f = FRACTION_BITS as nat;
    lemma_pow2_pos(f);
    lemma_small_mod(0, pow2(f));
    lemma_basic_div(0, pow2(f) as int);
    lemma_magnitude_monotone(f, 0, y.absolute());
    lemma_double_rounding(x.size() * double_unit(), y.size());
}

} // verus!
