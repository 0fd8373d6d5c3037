//! Reading a number back from its text.

use crate::numeric::binary32::{
    nearest, not_a_number, signed, Binary32, FRACTION_BITS, INFINITY_BITS, SMALLEST_EXPONENT,
};
use crate::numeric::binary64::Binary64;
use crate::numeric::decimal::{decimal, lemma_ten_positive, padded, ten};
use crate::numeric::fixed_text::{fixed, half_even, infinity_text, nan_text, sign_text};
use crate::numeric::nearest_decimal::{decimal_denominator, decimal_numerator, nearest_decimal};
use crate::numeric::parse_text::{
    digit_run, exponent_of, exponent_part, fraction_part, has_minus, has_sign, is_digit, lower,
    parsed_index, parsed_number, spells, unsigned_number, whole_part, without_sign, word_inf,
    word_infinity, word_nan, written_number,
};
use crate::numeric::rounding::{lemma_rounded_exists, magnitude};
use vstd::arithmetic::div_mod::*;
use vstd::arithmetic::power2::*;
use vstd::prelude::*;

verus! {

/// The number that the text of `x` with `p` decimals stands for: the one nearest to `x`
/// rounded to `p` decimals.
pub open spec fn reread(x: Binary32, p: nat) -> Binary32 {
    if x.nan() {
        not_a_number()
    } else if x.infinite() {
        x
    } else {
        signed(
            x.negative(),
            nearest_decimal(
                half_even(
                    magnitude(FRACTION_BITS as nat, x.absolute()) * ten(p),
                    pow2(SMALLEST_EXPONENT as nat),
                ),
                -(p as int),
            ),
        )
    }
}

/// Nothing but digits.
pub open spec fn digits(t: Seq<u8>) -> bool {
    forall|i: int| 0 <= i < t.len() ==> is_digit(#[trigger] t[i])
}

proof fn lemma_decimal(n: nat)
    ensures
        digits(decimal(n)),
        decimal(n).len() > 0,
        written_number(decimal(n)) == n,
    decreases n,
{
    let t = decimal(n);
    if n < 10 {
        assert(t.drop_last() =~= Seq::<u8>::empty());
        assert(written_number(t.drop_last()) == 0);
    } else {
        lemma_decimal(n / 10);
        assert(t.drop_last() =~= decimal(n / 10));
    }
}

proof fn lemma_padded(a: Seq<u8>, n: nat, width: nat)
    requires
        n < ten(width),
    ensures
        digits(padded(n, width)),
        padded(n, width).len() == width,
        written_number(a + padded(n, width)) == written_number(a) * ten(width) + n,
    decreases width,
{
    let t = a + padded(n, width);
    let w = written_number(a) as int;
    if width == 0 {
        assert(t =~= a);
        assert(w * 1 == w);
    } else {
        let shorter = (width - 1) as nat;
        lemma_padded(a, n / 10, shorter);
        assert(t.drop_last() =~= a + padded(n / 10, shorter));
        assert(10 * (w * ten(shorter)) == w * (10 * ten(shorter))) by (nonlinear_arith);
    }
}

proof fn lemma_digit_run(t: Seq<u8>, rest: Seq<u8>)
    requires
        digits(t),
        rest.len() > 0 ==> !is_digit(rest[0]),
    ensures
        digit_run(t + rest) == t.len(),
    decreases t.len(),
{
    let all = t + rest;
    if t.len() > 0 {
        assert(is_digit(t[0]));
        assert(digits(t.skip(1)));
        lemma_digit_run(t.skip(1), rest);
        assert(all.skip(1) =~= t.skip(1) + rest);
    }
}

proof fn lemma_fixed_is_read(n: nat, p: nat)
    requires
        p > 0,
    ensures
        unsigned_number(fixed(n, p)) == Some(nearest_decimal(n, -(p as int))),
        is_digit(fixed(n, p)[0]),
        fixed(n, p).len() > 0,
{
    lemma_ten_positive(p);
    let q = n / ten(p);
    let r = n % ten(p);
    let whole = decimal(q);
    let fraction = padded(r, p);
    let t = fixed(n, p);
    lemma_decimal(q);
    lemma_padded(whole, r, p);
    lemma_digit_run(whole, seq![46u8] + fraction);
    assert(t =~= whole + (seq![46u8] + fraction));
    assert(is_digit(whole[0]));
    let rest = t.skip(whole.len() as int);
    assert(rest =~= seq![46u8] + fraction);
    assert(rest.skip(1) =~= fraction);
    lemma_digit_run(fraction, Seq::empty());
    assert(fraction + Seq::<u8>::empty() =~= fraction);
    assert(whole_part(t) =~= whole);
    assert(fraction_part(t) =~= fraction);
    assert(exponent_part(t) =~= Seq::<u8>::empty());
    lemma_fundamental_div_mod(n as int, ten(p) as int);
    assert(q * ten(p) == ten(p) * q) by (nonlinear_arith);
    assert(written_number(whole + fraction) == n);
}

/// Every number can be read back from its text with `p` decimals; a finite one comes back
/// as the number nearest to its rounding to `p` decimals.
pub proof fn law_text_reads_back(x: Binary32, p: nat)
    requires
        p > 0,
    ensures
        parsed_number(x.text(p)) == Some(reread(x, p)),
{
    let t = x.text(p);
    let u = without_sign(t);
    if x.nan() {
        assert(u =~= nan_text());
        assert(!spells(u, word_inf())) by {
            assert(lower(u[0]) == 110);
        }
        assert(spells(u, word_nan()));
    } else if x.infinite() {
        assert(u =~= infinity_text());
        assert(spells(u, word_inf()));
    } else {
        let n = half_even(
            magnitude(FRACTION_BITS as nat, x.absolute()) * ten(p),
            pow2(SMALLEST_EXPONENT as nat),
        );
        lemma_fixed_is_read(n, p);
        assert(u =~= fixed(n, p));
        assert(is_digit(u[0]));
        assert(lower(u[0]) == u[0]);
        assert(!spells(u, word_inf()));
        assert(!spells(u, word_infinity()));
        assert(!spells(u, word_nan()));
    }
}

/// A character of the text of a number.
pub open spec fn number_char(b: u8) -> bool {
    is_digit(b) || b == 45 || b == 46 || b == 78 || b == 97 || b == 102 || b == 105 || b == 110
}

/// The text of a number is not empty, and holds neither white space nor a comma.
pub proof fn law_text_is_plain(x: Binary32, p: nat)
    requires
        p > 0,
    ensures
        x.text(p).len() > 0,
        forall|i: int| 0 <= i < x.text(p).len() ==> number_char(#[trigger] x.text(p)[i]),
{
    if x.finite() {
        let n = half_even(
            magnitude(FRACTION_BITS as nat, x.absolute()) * ten(p),
            pow2(SMALLEST_EXPONENT as nat),
        );
        lemma_ten_positive(p);
        lemma_decimal(n / ten(p));
        lemma_padded(Seq::empty(), n % ten(p), p);
        let whole = decimal(n / ten(p));
        let fraction = padded(n % ten(p), p);
        let sign = sign_text(x.negative());
        assert forall|i: int| 0 <= i < x.text(p).len() implies number_char(
            #[trigger] x.text(p)[i],
        ) by {
            let j = i - sign.len();
            if 0 <= j < whole.len() {
                assert(is_digit(whole[j]));
            }
            if j > whole.len() {
                assert(is_digit(fraction[j - whole.len() - 1]));
            }
        }
    }
}

/// Every whole number can be read back from its decimal notation, which holds nothing but
/// digits.
pub proof fn law_index_reads_back(n: nat, max: nat)
    ensures
        digits(decimal(n)),
        decimal(n).len() > 0,
        parsed_index(decimal(n), max) == if n <= max {
            Some(n)
        } else {
            None
        },
{
    let t = decimal(n);
    lemma_decimal(n);
    assert(is_digit(t[0]));
    lemma_digit_run(t, Seq::empty());
    assert(t + Seq::<u8>::empty() =~= t);
}

/// The digits of the text of a finite number with `p` decimals are those of the number
/// itself, up to half a unit in the last place.
pub proof fn law_text_is_rounded(x: Binary32, p: nat)
    requires
        p > 0,
        x.finite(),
    ensures
        ({
            let t = without_sign(x.text(p));
            let n = written_number(whole_part(t) + fraction_part(t));
            let one = pow2(149) as int;
            &&& x.text(p)[0] == 45 <==> x.negative()
            &&& fraction_part(t).len() == p
            &&& exponent_part(t).len() == 0
            &&& -one <= 2 * (n * one - x.size() * ten(p)) <= one
        }),
{
    let a = magnitude(FRACTION_BITS as nat, x.absolute()) * ten(p);
    lemma_pow2_pos(149);
    lemma_digits_are_rounded(a, pow2(149), p);
    let u = without_sign(x.text(p));
    assert(u =~= fixed(half_even(a, pow2(149)), p));
}

/// The digits of the text of a finite double precision number with `p` decimals are those of
/// the number itself, up to half a unit in the last place.
pub proof fn law_double_text_is_rounded(x: Binary64, p: nat)
    requires
        p > 0,
        !x.nan(),
        !x.infinite(),
    ensures
        ({
            let t = without_sign(x.text(p));
            let n = written_number(whole_part(t) + fraction_part(t));
            let one = pow2(1074) as int;
            &&& x.text(p)[0] == 45 <==> x.negative()
            &&& fraction_part(t).len() == p
            &&& exponent_part(t).len() == 0
            &&& -one <= 2 * (n * one - x.size() * ten(p)) <= one
        }),
{
    let a = x.size() * ten(p);
    lemma_pow2_pos(1074);
    lemma_digits_are_rounded(a, pow2(1074), p);
    let u = without_sign(x.text(p));
    assert(u =~= fixed(half_even(a, pow2(1074)), p));
}

/// Reading the digits of a number with `p` decimals, which counts `a` parts of `one`.
proof fn lemma_digits_are_rounded(a: nat, one: nat, p: nat)
    requires
        p > 0,
        one > 0,
    ensures
        ({
            let u = fixed(half_even(a, one), p);
            let n = written_number(whole_part(u) + fraction_part(u));
            &&& u.len() > 0
            &&& is_digit(u[0])
            &&& fraction_part(u).len() == p
            &&& exponent_part(u).len() == 0
            &&& -(one as int) <= 2 * (n * one - a) <= one
        }),
{
    let n = half_even(a, one);
    let u = fixed(n, p);
    lemma_ten_positive(p);
    lemma_fixed_is_read(n, p);
    assert(is_digit(u[0]));
    let q = n / ten(p);
    let r = n % ten(p);
    let whole = decimal(q);
    let fraction = padded(r, p);
    lemma_decimal(q);
    lemma_padded(whole, r, p);
    lemma_digit_run(whole, seq![46u8] + fraction);
    assert(u =~= whole + (seq![46u8] + fraction));
    let rest = u.skip(whole.len() as int);
    assert(rest =~= seq![46u8] + fraction);
    assert(rest.skip(1) =~= fraction);
    lemma_digit_run(fraction, Seq::empty());
    assert(fraction + Seq::<u8>::empty() =~= fraction);
    assert(whole_part(u) =~= whole);
    assert(fraction_part(u) =~= fraction);
    assert(exponent_part(u) =~= Seq::<u8>::empty());
    lemma_fundamental_div_mod(n as int, ten(p) as int);
    assert(q * ten(p) == ten(p) * q) by (nonlinear_arith);
    assert(written_number(whole + fraction) == n);
    lemma_fundamental_div_mod(a as int, one as int);
    let d = a / one;
    assert(one * d == d * one) by (nonlinear_arith);
    assert((d + 1) * one == d * one + one) by (nonlinear_arith);
}

/// A whole number with an exponent stands for the number nearest to the product with that
/// power of ten: above 0 it is multiplied, and below 0 divided. The letter may be small or
/// capital.
pub proof fn law_exponent_scales(n: nat, k: nat, letter: u8, down: bool)
    requires
        letter == 101 || letter == 69,
    ensures
        ({
            let sign = if down {
                seq![45u8]
            } else {
                Seq::empty()
            };
            let t = decimal(n) + seq![letter] + sign + decimal(k);
            let one = pow2(149);
            parsed_number(t) == Some(
                signed(
                    false,
                    if down {
                        nearest(n * one, ten(k))
                    } else {
                        nearest((n * ten(k)) * one, 1)
                    },
                ),
            )
        }),
{
    let sign = if down {
        seq![45u8]
    } else {
        Seq::empty()
    };
    let whole = decimal(n);
    let exponent = decimal(k);
    let tail = seq![letter] + sign + exponent;
    let t = whole + seq![letter] + sign + exponent;
    lemma_decimal(n);
    lemma_decimal(k);
    assert(t =~= whole + tail);
    assert(is_digit(whole[0]));
    assert(t[0] == whole[0]);
    assert(lower(t[0]) == t[0]);
    assert(is_digit(exponent[0]));
    lemma_digit_run(whole, tail);
    assert(t.skip(whole.len() as int) =~= tail);
    assert(whole_part(t) =~= whole);
    assert(fraction_part(t) =~= Seq::<u8>::empty());
    assert(whole + Seq::<u8>::empty() =~= whole);
    let u = tail.skip(1);
    assert(u =~= sign + exponent);
    assert(without_sign(u) =~= exponent);
    lemma_digit_run(exponent, Seq::empty());
    assert(exponent + Seq::<u8>::empty() =~= exponent);
    assert(has_minus(u) == down);
    assert(n * 1 == n);
}

/// A minus sign in front of a number gives the opposite number, and a plus sign the same.
pub proof fn law_sign_in_front(t: Seq<u8>)
    requires
        !has_sign(t),
    ensures
        parsed_number(seq![43u8] + t) == parsed_number(t),
        parsed_number(t) is Some <==> parsed_number(seq![45u8] + t) is Some,
        parsed_number(t) matches Some(x) ==> parsed_number(seq![45u8] + t) == Some(x.opposite()),
{
    assert((seq![43u8] + t).skip(1) =~= t);
    assert((seq![45u8] + t).skip(1) =~= t);
    let d = written_number(whole_part(t) + fraction_part(t));
    if let Some(e) = exponent_of(exponent_part(t)) {
        let k = e - fraction_part(t).len();
        lemma_rounded_exists(
            FRACTION_BITS as nat,
            INFINITY_BITS as nat,
            decimal_numerator(d, k),
            decimal_denominator(k),
        );
    }
}

} // verus!
