//! Opposite numbers give opposite results.

use crate::numeric::binary32::{
    law_product_commutes, law_product_zero, law_zero_quotient, nearest, number_zero, signed,
    Binary32, FRACTION_BITS, INFINITY_BITS, SMALLEST_EXPONENT,
};
use crate::numeric::rounding::lemma_rounded_exists;
use vstd::arithmetic::div_mod::*;
use vstd::arithmetic::power2::*;
use vstd::prelude::*;

verus! {

/// `x` and `y` are opposite numbers.
pub open spec fn mirrored(x: Binary32, y: Binary32) -> bool {
    x.same_number(y.opposite())
}

/// Opposite numbers have the same size, and the same absolute value.
pub proof fn lemma_mirrored(x: Binary32, y: Binary32)
    requires
        mirrored(x, y),
    ensures
        mirrored(y, x),
        mirrored(x.opposite(), y.opposite()),
        x.absolute() == y.absolute(),
        x.size() == y.size(),
        x.value() == -y.value(),
        signed(false, x.absolute()) == signed(false, y.absolute()),
        x.absolute() > 0 ==> x.negative() != y.negative(),
        x.finite() == y.finite(),
{
    if x.absolute() == 0 {
        lemma_pow2_pos(FRACTION_BITS as nat);
        lemma_small_mod(0, pow2(FRACTION_BITS as nat));
        lemma_basic_div(0, pow2(FRACTION_BITS as nat) as int);
    }
}

/// The sums of opposite numbers are opposite.
pub proof fn lemma_sum_mirrored(x: Binary32, y: Binary32, a: Binary32, b: Binary32)
    requires
        mirrored(x, a),
        mirrored(y, b),
        !x.sum(y).nan(),
    ensures
        mirrored(x.sum(y), a.sum(b)),
{
    lemma_mirrored(x, a);
    lemma_mirrored(y, b);
    let exact = x.value() + y.value();
    let f = FRACTION_BITS as nat;
    let inf = INFINITY_BITS as nat;
    assert(a.value() + b.value() == -exact);
    lemma_rounded_exists(f, inf, exact as nat, 1);
    lemma_rounded_exists(f, inf, (-exact) as nat, 1);
}

/// The differences of opposite numbers are opposite.
pub proof fn lemma_difference_mirrored(x: Binary32, y: Binary32, a: Binary32, b: Binary32)
    requires
        mirrored(x, a),
        mirrored(y, b),
        !x.difference(y).nan(),
    ensures
        mirrored(x.difference(y), a.difference(b)),
{
    lemma_mirrored(y, b);
    lemma_sum_mirrored(x, y.opposite(), a, b.opposite());
}

/// The products of opposite numbers with the same number are opposite.
pub proof fn lemma_product_mirrored(x: Binary32, a: Binary32, z: Binary32)
    requires
        mirrored(x, a),
        !x.product(z).nan(),
    ensures
        mirrored(x.product(z), a.product(z)),
{
    lemma_mirrored(x, a);
    let n = x.size() * z.size();
    lemma_rounded_exists(
        FRACTION_BITS as nat,
        INFINITY_BITS as nat,
        n,
        pow2(SMALLEST_EXPONENT as nat),
    );
    if x.absolute() == 0 {
        law_product_zero(z);
        lemma_zero_product(x, z);
        lemma_zero_product(a, z);
    }
}

/// The product of a zero is a zero, unless it is not defined.
pub proof fn lemma_zero_product(x: Binary32, z: Binary32)
    requires
        x.absolute() == 0,
        z.finite(),
    ensures
        x.product(z).absolute() == 0,
{
    law_product_commutes(x, z);
    law_product_zero(z);
    let zero = number_zero();
    assert(x.size() == zero.size());
    let b = nearest(x.size() * z.size(), pow2(SMALLEST_EXPONENT as nat));
    lemma_rounded_exists(
        FRACTION_BITS as nat,
        INFINITY_BITS as nat,
        x.size() * z.size(),
        pow2(SMALLEST_EXPONENT as nat),
    );
    assert(zero.product(z).absolute() == b);
}

/// The quotients of opposite numbers by the same positive number are opposite.
pub proof fn lemma_quotient_mirrored(x: Binary32, a: Binary32, z: Binary32)
    requires
        mirrored(x, a),
        !x.quotient(z).nan(),
        !z.nan(),
        !z.negative(),
        z.absolute() > 0,
    ensures
        mirrored(x.quotient(z), a.quotient(z)),
{
    lemma_mirrored(x, a);
    let n = x.size() * pow2(SMALLEST_EXPONENT as nat);
    lemma_rounded_exists(FRACTION_BITS as nat, INFINITY_BITS as nat, n, z.size());
    if x.absolute() == 0 && z.finite() {
        law_zero_quotient(x, z);
        law_zero_quotient(a, z);
    }
}

/// Opposite numbers that are cut to the same symmetric interval are opposite.
pub proof fn lemma_clamped_mirrored(x: Binary32, a: Binary32, b: Binary32)
    requires
        mirrored(x, a),
        b.opposite().not_over(b),
    ensures
        mirrored(x.clamped(b.opposite(), b), a.clamped(b.opposite(), b)),
{
    lemma_mirrored(x, a);
}

} // verus!
