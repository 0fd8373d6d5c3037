//! Numbers read from text.

use crate::numeric::binary32::{signed, Binary32, INFINITY_BITS, NAN_BITS, SIGN_BIT};
use crate::numeric::decimal::{all_digits, lemma_number_push, number_of, ten, trimmed};
use crate::numeric::nearest_decimal::{nearest_decimal, round_decimal};
use vstd::prelude::*;
use vstd::slice::*;

verus! {

/// Length of the white space character that `t` begins with, 0 if it begins with
/// none.
pub open spec fn space_at_start(t: Seq<u8>) -> nat {
    if t.len() >= 1 && (9 <= t[0] <= 13 || t[0] == 32) {
        1
    } else if t.len() >= 2 && t[0] == 0xc2 && (t[1] == 0x85 || t[1] == 0xa0) {
        2
    } else if t.len() >= 3 && wide_space(t[0], t[1], t[2]) {
        3
    } else {
        0
    }
}

/// Length of the white space character that `t` ends with, 0 if it ends with none.
pub open spec fn space_at_end(t: Seq<u8>) -> nat {
    let n = t.len();
    if n >= 1 && (9 <= t[n - 1] <= 13 || t[n - 1] == 32) {
        1
    } else if n >= 2 && t[n - 2] == 0xc2 && (t[n - 1] == 0x85 || t[n - 1] == 0xa0) {
        2
    } else if n >= 3 && wide_space(t[n - 3], t[n - 2], t[n - 1]) {
        3
    } else {
        0
    }
}

/// The white space characters that take three bytes.
pub open spec fn wide_space(a: u8, b: u8, c: u8) -> bool {
    ||| a == 0xe1 && b == 0x9a && c == 0x80
    ||| a == 0xe2 && b == 0x80 && (0x80 <= c <= 0x8a || c == 0xa8 || c == 0xa9 || c == 0xaf)
    ||| a == 0xe2 && b == 0x81 && c == 0x9f
    ||| a == 0xe3 && b == 0x80 && c == 0x80
}

pub open spec fn trim_start(t: Seq<u8>) -> Seq<u8>
    decreases t.len(),
{
    if space_at_start(t) > 0 {
        trim_start(t.skip(space_at_start(t) as int))
    } else {
        t
    }
}

pub open spec fn trim_end(t: Seq<u8>) -> Seq<u8>
    decreases t.len(),
{
    if space_at_end(t) > 0 {
        trim_end(t.take(t.len() - space_at_end(t)))
    } else {
        t
    }
}

/// `t` without white space at either end.
pub open spec fn trim_text(t: Seq<u8>) -> Seq<u8> {
    trim_end(trim_start(t))
}

pub open spec fn is_digit(b: u8) -> bool {
    48 <= b <= 57
}

/// Number of digits that `t` begins with.
pub open spec fn digit_run(t: Seq<u8>) -> nat
    decreases t.len(),
{
    if t.len() > 0 && is_digit(t[0]) {
        1 + digit_run(t.skip(1))
    } else {
        0
    }
}

/// Number written with the digits `t`, most significant first.
pub open spec fn written_number(t: Seq<u8>) -> nat
    decreases t.len(),
{
    if t.len() == 0 {
        0
    } else {
        (10 * written_number(t.drop_last()) + (t.last() - 48)) as nat
    }
}

pub open spec fn has_sign(t: Seq<u8>) -> bool {
    t.len() > 0 && (t[0] == 43 || t[0] == 45)
}

pub open spec fn has_minus(t: Seq<u8>) -> bool {
    t.len() > 0 && t[0] == 45
}

pub open spec fn without_sign(t: Seq<u8>) -> Seq<u8> {
    if has_sign(t) {
        t.skip(1)
    } else {
        t
    }
}

pub open spec fn lower(b: u8) -> u8 {
    if 65 <= b <= 90 {
        (b + 32) as u8
    } else {
        b
    }
}

/// `t` spells `word`, in upper or lower case letters.
pub open spec fn spells(t: Seq<u8>, word: Seq<u8>) -> bool {
    t.len() == word.len() && forall|i: int| 0 <= i < t.len() ==> lower(#[trigger] t[i]) == word[i]
}

pub open spec fn word_inf() -> Seq<u8> {
    seq![105u8, 110u8, 102u8]
}

pub open spec fn word_infinity() -> Seq<u8> {
    seq![105u8, 110u8, 102u8, 105u8, 110u8, 105u8, 116u8, 121u8]
}

pub open spec fn word_nan() -> Seq<u8> {
    seq![110u8, 97u8, 110u8]
}

/// Exponent that the end of a number states: none is 0.
pub open spec fn exponent_of(t: Seq<u8>) -> Option<int> {
    if t.len() == 0 {
        Some(0)
    } else if t[0] == 101 || t[0] == 69 {
        let u = t.skip(1);
        let d = without_sign(u);
        if d.len() > 0 && digit_run(d) == d.len() {
            Some(
                if has_minus(u) {
                    -(written_number(d) as int)
                } else {
                    written_number(d) as int
                },
            )
        } else {
            None
        }
    } else {
        None
    }
}

/// Digits before the point.
pub open spec fn whole_part(t: Seq<u8>) -> Seq<u8> {
    t.take(digit_run(t) as int)
}

/// Digits after the point.
pub open spec fn fraction_part(t: Seq<u8>) -> Seq<u8> {
    let rest = t.skip(digit_run(t) as int);
    if rest.len() > 0 && rest[0] == 46 {
        rest.skip(1).take(digit_run(rest.skip(1)) as int)
    } else {
        Seq::empty()
    }
}

/// What follows the digits.
pub open spec fn exponent_part(t: Seq<u8>) -> Seq<u8> {
    let rest = t.skip(digit_run(t) as int);
    if rest.len() > 0 && rest[0] == 46 {
        rest.skip(1).skip(digit_run(rest.skip(1)) as int)
    } else {
        rest
    }
}

/// Encoding of the number that the unsigned decimal notation `t` stands for.
pub open spec fn unsigned_number(t: Seq<u8>) -> Option<nat> {
    let digits = whole_part(t) + fraction_part(t);
    if digits.len() == 0 {
        None
    } else {
        match exponent_of(exponent_part(t)) {
            None => None,
            Some(e) => Some(
                nearest_decimal(written_number(digits), e - fraction_part(t).len()),
            ),
        }
    }
}

/// The number that `t` stands for.
pub open spec fn parsed_number(t: Seq<u8>) -> Option<Binary32> {
    let u = without_sign(t);
    if spells(u, word_inf()) || spells(u, word_infinity()) {
        Some(signed(has_minus(t), INFINITY_BITS as nat))
    } else if spells(u, word_nan()) {
        Some(signed(has_minus(t), NAN_BITS as nat))
    } else {
        match unsigned_number(u) {
            None => None,
            Some(b) => Some(signed(has_minus(t), b)),
        }
    }
}

/// The whole number that `t` stands for, if it does not exceed `max`.
pub open spec fn parsed_index(t: Seq<u8>, max: nat) -> Option<nat> {
    let u = if t.len() > 0 && t[0] == 43 {
        t.skip(1)
    } else {
        t
    };
    if u.len() > 0 && digit_run(u) == u.len() && written_number(u) <= max {
        Some(written_number(u))
    } else {
        None
    }
}

fn is_wide_space(a: u8, b: u8, c: u8) -> (r: bool)
    ensures
        r == wide_space(a, b, c),
{
    (a == 0xe1 && b == 0x9a && c == 0x80) || (a == 0xe2 && b == 0x80 && ((0x80 <= c && c <= 0x8a)
        || c == 0xa8 || c == 0xa9 || c == 0xaf)) || (a == 0xe2 && b == 0x81 && c == 0x9f) || (a
        == 0xe3 && b == 0x80 && c == 0x80)
}

fn leading_space(t: &[u8]) -> (n: usize)
    ensures
        n == space_at_start(t@),
        n <= t@.len(),
{
    let len: usize = t.len();
    if len >= 1 && ((9 <= t[0] && t[0] <= 13) || t[0] == 32) {
        1
    } else if len >= 2 && t[0] == 0xc2 && (t[1] == 0x85 || t[1] == 0xa0) {
        2
    } else if len >= 3 && is_wide_space(t[0], t[1], t[2]) {
        3
    } else {
        0
    }
}

fn trailing_space(t: &[u8]) -> (n: usize)
    ensures
        n == space_at_end(t@),
        n <= t@.len(),
{
    let n: usize = t.len();
    if n >= 1 && ((9 <= t[n - 1] && t[n - 1] <= 13) || t[n - 1] == 32) {
        1
    } else if n >= 2 && t[n - 2] == 0xc2 && (t[n - 1] == 0x85 || t[n - 1] == 0xa0) {
        2
    } else if n >= 3 && is_wide_space(t[n - 3], t[n - 2], t[n - 1]) {
        3
    } else {
        0
    }
}

/// Removes white space at both ends.
pub fn trim(t: &[u8]) -> (r: &[u8])
    ensures
        r@ == trim_text(t@),
{
    let mut r: &[u8] = t;
    let mut n: usize = leading_space(r);
    while n > 0
        invariant
            n == space_at_start(r@),
            n <= r@.len(),
            trim_start(r@) == trim_start(t@),
        decreases r@.len(),
    {
        proof {
            assert(r@.skip(n as int) =~= r@.subrange(n as int, r@.len() as int));
        }
        r = slice_subrange(r, n, r.len());
        n = leading_space(r);
    }
    let ghost middle = r@;
    let mut n: usize = trailing_space(r);
    while n > 0
        invariant
            n == space_at_end(r@),
            n <= r@.len(),
            trim_end(r@) == trim_end(middle),
        decreases r@.len(),
    {
        proof {
            assert(r@.take(r@.len() - n) =~= r@.subrange(0, r@.len() - n));
        }
        r = slice_subrange(r, 0, r.len() - n);
        n = trailing_space(r);
    }
    r
}

/// Number of digits that `t` begins with.
fn count_digits(t: &[u8]) -> (n: usize)
    ensures
        n == digit_run(t@),
        n <= t@.len(),
        forall|i: int| 0 <= i < n ==> is_digit(#[trigger] t@[i]),
{
    let mut n: usize = 0;
    assert(t@.skip(0) =~= t@);
    while n < t.len() && 48 <= t[n] && t[n] <= 57
        invariant
            n <= t@.len(),
            digit_run(t@) == n + digit_run(t@.skip(n as int)),
            forall|i: int| 0 <= i < n ==> is_digit(#[trigger] t@[i]),
        decreases t@.len() - n,
    {
        assert(t@.skip(n as int).skip(1) =~= t@.skip(n + 1));
        assert(t@.skip(n as int)[0] == t@[n as int]);
        n = n + 1;
    }
    proof {
        let rest = t@.skip(n as int);
        if n < t@.len() {
            assert(rest[0] == t@[n as int]);
        }
        assert(digit_run(rest) == 0);
    }
    n
}

/// The number written with the digits `t`, or `cap` if that is smaller.
fn capped_number(t: &[u8], cap: u128) -> (r: u128)
    requires
        forall|i: int| 0 <= i < t@.len() ==> is_digit(#[trigger] t@[i]),
        10 <= cap <= 0x1000_0000_0000_0000_0000_0000_0000_000,
    ensures
        r == if written_number(t@) < cap {
            written_number(t@)
        } else {
            cap as nat
        },
{
    let mut r: u128 = 0;
    let mut i: usize = 0;
    assert(t@.take(0) =~= Seq::<u8>::empty());
    while i < t.len()
        invariant
            i <= t@.len(),
            forall|j: int| 0 <= j < t@.len() ==> is_digit(#[trigger] t@[j]),
            10 <= cap <= 0x1000_0000_0000_0000_0000_0000_0000_000,
            r == if written_number(t@.take(i as int)) < cap {
                written_number(t@.take(i as int))
            } else {
                cap as nat
            },
        decreases t@.len() - i,
    {
        proof {
            assert(t@.take(i + 1).drop_last() =~= t@.take(i as int));
            assert(t@.take(i + 1).last() == t@[i as int]);
            assert(is_digit(t@[i as int]));
        }
        let next: u128 = r * 10 + (t[i] - 48) as u128;
        r = if next < cap {
            next
        } else {
            cap
        };
        i = i + 1;
    }
    assert(t@.take(t@.len() as int) =~= t@);
    r
}

/// The exponent, cut to the interval from `-cap` to `cap`.
fn parse_exponent(t: &[u8], cap: u128) -> (r: Option<i128>)
    requires
        10 <= cap <= 0x1000_0000_0000_0000_0000_0000,
    ensures
        r is Some <==> exponent_of(t@) is Some,
        r is Some ==> {
            let e = exponent_of(t@)->0;
            r->0 == if e > cap {
                cap as int
            } else if e < -cap {
                -cap
            } else {
                e
            }
        },
{
    if t.len() == 0 {
        return Some(0);
    }
    if t[0] != 101 && t[0] != 69 {
        return None;
    }
    let u: &[u8] = slice_subrange(t, 1, t.len());
    assert(u@ =~= t@.skip(1));
    let signed_exponent: bool = u.len() > 0 && (u[0] == 43 || u[0] == 45);
    let minus: bool = u.len() > 0 && u[0] == 45;
    let d: &[u8] = if signed_exponent {
        slice_subrange(u, 1, u.len())
    } else {
        u
    };
    assert(d@ =~= without_sign(u@));
    if d.len() == 0 || count_digits(d) != d.len() {
        return None;
    }
    proof {
        lemma_all_run(d@);
    }
    let n: u128 = capped_number(d, cap);
    if minus {
        Some(-(n as i128))
    } else {
        Some(n as i128)
    }
}

proof fn lemma_all_run(d: Seq<u8>)
    requires
        digit_run(d) == d.len(),
    ensures
        forall|i: int| 0 <= i < d.len() ==> is_digit(#[trigger] d[i]),
    decreases d.len(),
{
    if d.len() > 0 {
        lemma_all_run(d.skip(1));
        assert forall|i: int| 0 <= i < d.len() implies is_digit(#[trigger] d[i]) by {
            if i > 0 {
                assert(d.skip(1)[i - 1] == d[i]);
            }
        }
    }
}

/// Leading zeros do not change the number, and the digits in reverse order stand
/// for it.
fn collect_digits(whole: &[u8], fraction: &[u8]) -> (d: Vec<u8>)
    requires
        forall|i: int| 0 <= i < whole@.len() ==> is_digit(#[trigger] whole@[i]),
        forall|i: int| 0 <= i < fraction@.len() ==> is_digit(#[trigger] fraction@[i]),
    ensures
        trimmed(d@),
        number_of(d@) == written_number(whole@ + fraction@),
{
    let ghost all = whole@ + fraction@;
    let mut d: Vec<u8> = Vec::new();
    let mut i: usize = fraction.len();
    proof {
        assert(all.skip(all.len() as int) =~= Seq::<u8>::empty());
    }
    while i > 0
        invariant
            i <= fraction@.len(),
            all == whole@ + fraction@,
            forall|j: int| 0 <= j < fraction@.len() ==> is_digit(#[trigger] fraction@[j]),
            d@ == reversed_digits(all.skip(whole@.len() + i)),
        decreases i,
    {
        i = i - 1;
        proof {
            let k = whole@.len() + i;
            assert(all[k as int] == fraction@[i as int]);
            assert(is_digit(fraction@[i as int]));
            lemma_reversed_step(all, k as int);
        }
        d.push(fraction[i] - 48);
    }
    let mut i: usize = whole.len();
    while i > 0
        invariant
            i <= whole@.len(),
            all == whole@ + fraction@,
            forall|j: int| 0 <= j < whole@.len() ==> is_digit(#[trigger] whole@[j]),
            d@ == reversed_digits(all.skip(i as int)),
        decreases i,
    {
        i = i - 1;
        proof {
            assert(all[i as int] == whole@[i as int]);
            assert(is_digit(whole@[i as int]));
            lemma_reversed_step(all, i as int);
        }
        d.push(whole[i] - 48);
    }
    proof {
        assert(all.skip(0) =~= all);
        assert forall|j: int| 0 <= j < all.len() implies is_digit(#[trigger] all[j]) by {
            if j < whole@.len() {
                assert(all[j] == whole@[j]);
            } else {
                assert(all[j] == fraction@[j - whole@.len()]);
            }
        }
        lemma_reversed_number(all);
        assert forall|j: int| 0 <= j < d@.len() implies #[trigger] d@[j] < 10 by {
            assert(is_digit(all[all.len() - 1 - j]));
        }
    }
    while d.len() > 0 && d[d.len() - 1] == 0
        invariant
            all_digits(d@),
            number_of(d@) == written_number(all),
        decreases d@.len(),
    {
        proof {
            let n = d@.len() - 1;
            assert(d@ =~= d@.take(n).push(0));
            lemma_number_push(d@.take(n), 0);
            assert(0 * ten(n as nat) == 0) by (nonlinear_arith);
        }
        let ghost before = d@;
        d.pop();
        assert(d@ =~= before.take(before.len() - 1));
    }
    d
}

/// Digit values of `t` in reverse order.
spec fn reversed_digits(t: Seq<u8>) -> Seq<u8> {
    Seq::new(t.len(), |i: int| (t[t.len() - 1 - i] - 48) as u8)
}

proof fn lemma_reversed_step(all: Seq<u8>, k: int)
    requires
        0 <= k < all.len(),
    ensures
        reversed_digits(all.skip(k)) == reversed_digits(all.skip(k + 1)).push((all[k] - 48) as u8),
{
    assert(reversed_digits(all.skip(k)) =~= reversed_digits(all.skip(k + 1)).push(
        (all[k] - 48) as u8,
    ));
}

proof fn lemma_reversed_number(t: Seq<u8>)
    requires
        forall|i: int| 0 <= i < t.len() ==> is_digit(#[trigger] t[i]),
    ensures
        number_of(reversed_digits(t)) == written_number(t),
    decreases t.len(),
{
    if t.len() > 0 {
        let r = reversed_digits(t);
        lemma_reversed_number(t.drop_last());
        assert(r.skip(1) =~= reversed_digits(t.drop_last()));
        assert(is_digit(t[t.len() - 1]));
        assert(r[0] == (t.last() - 48) as u8);
    }
}

/// Beyond the range that a caller can exceed, the exponent does not matter.
proof fn lemma_capped_exponent(d: Seq<u8>, n: nat, e: int, cap: int, capped: int)
    requires
        trimmed(d),
        n <= cap / 4,
        cap >= 1000,
        capped == if e > cap {
            cap
        } else if e < -cap {
            -cap
        } else {
            e
        },
        d.len() <= cap / 4,
    ensures
        nearest_decimal(number_of(d), e - n) == nearest_decimal(number_of(d), capped - n),
{
    if d.len() == 0 {
        lemma_zero_decimal(e - n);
        lemma_zero_decimal(capped - n);
    } else if e > cap {
        crate::numeric::decimal::lemma_number_lower(d);
        crate::numeric::nearest_decimal::lemma_large_decimal(number_of(d), d.len(), e - n);
        crate::numeric::nearest_decimal::lemma_large_decimal(number_of(d), d.len(), capped - n);
    } else if e < -cap {
        crate::numeric::decimal::lemma_number_bound(d);
        crate::numeric::nearest_decimal::lemma_small_decimal(number_of(d), d.len(), e - n);
        crate::numeric::nearest_decimal::lemma_small_decimal(number_of(d), d.len(), capped - n);
    }
}

proof fn lemma_zero_decimal(k: int)
    ensures
        nearest_decimal(0, k) == nearest_decimal(0, 0),
{
    crate::numeric::nearest_decimal::lemma_zero(k);
    crate::numeric::nearest_decimal::lemma_zero(0);
}

/// Encoding of an unsigned number in decimal notation.
fn parse_unsigned(t: &[u8]) -> (r: Option<u32>)
    ensures
        r is Some <==> unsigned_number(t@) is Some,
        r is Some ==> r->0 == unsigned_number(t@)->0,
        r is Some ==> r->0 <= INFINITY_BITS,
{
    let n: usize = count_digits(t);
    let whole: &[u8] = slice_subrange(t, 0, n);
    assert(whole@ =~= whole_part(t@));
    let rest: &[u8] = slice_subrange(t, n, t.len());
    assert(rest@ =~= t@.skip(n as int));
    let fraction: &[u8];
    let tail: &[u8];
    if rest.len() > 0 && rest[0] == 46 {
        let after: &[u8] = slice_subrange(rest, 1, rest.len());
        assert(after@ =~= rest@.skip(1));
        let k: usize = count_digits(after);
        fraction = slice_subrange(after, 0, k);
        tail = slice_subrange(after, k, after.len());
        assert(fraction@ =~= after@.take(k as int));
        assert(tail@ =~= after@.skip(k as int));
    } else {
        fraction = slice_subrange(rest, 0, 0);
        tail = rest;
        assert(fraction@ =~= Seq::<u8>::empty());
    }
    assert(fraction@ == fraction_part(t@));
    assert(tail@ == exponent_part(t@));
    if whole.len() == 0 && fraction.len() == 0 {
        return None;
    }
    let cap: u128 = 0x100_0000_0000_0000_0000_0000;
    match parse_exponent(tail, cap) {
        None => None,
        Some(e) => {
            let d: Vec<u8> = collect_digits(whole, fraction);
            let count: usize = d.len();
            proof {
                assert(count == d@.len());
                lemma_capped_exponent(
                    d@,
                    fraction@.len(),
                    exponent_of(tail@)->0,
                    cap as int,
                    e as int,
                );
            }
            Some(round_decimal(&d, e - fraction.len() as i128))
        },
    }
}

fn spells_word(t: &[u8], word: &[u8]) -> (r: bool)
    ensures
        r == spells(t@, word@),
{
    if t.len() != word.len() {
        return false;
    }
    let mut i: usize = 0;
    while i < t.len()
        invariant
            i <= t@.len(),
            t@.len() == word@.len(),
            forall|j: int| 0 <= j < i ==> lower(#[trigger] t@[j]) == word@[j],
        decreases t@.len() - i,
    {
        let c: u8 = t[i];
        let l: u8 = if 65 <= c && c <= 90 {
            c + 32
        } else {
            c
        };
        if l != word[i] {
            assert(lower(t@[i as int]) != word@[i as int]);
            return false;
        }
        i = i + 1;
    }
    true
}

/// Reads a number.
pub fn parse_number(t: &[u8]) -> (r: Option<Binary32>)
    ensures
        r == parsed_number(t@),
{
    let minus: bool = t.len() > 0 && t[0] == 45;
    let u: &[u8] = if t.len() > 0 && (t[0] == 43 || t[0] == 45) {
        slice_subrange(t, 1, t.len())
    } else {
        t
    };
    assert(u@ =~= without_sign(t@));
    let inf: [u8; 3] = [105, 110, 102];
    let infinity: [u8; 8] = [105, 110, 102, 105, 110, 105, 116, 121];
    let nan: [u8; 3] = [110, 97, 110];
    assert(inf@ =~= word_inf());
    assert(infinity@ =~= word_infinity());
    assert(nan@ =~= word_nan());
    let bits: u32;
    if spells_word(u, &inf) || spells_word(u, &infinity) {
        bits = INFINITY_BITS;
    } else if spells_word(u, &nan) {
        bits = NAN_BITS;
    } else {
        match parse_unsigned(u) {
            None => {
                return None;
            },
            Some(b) => {
                bits = b;
            },
        }
    }
    if minus {
        Some(Binary32 { bits: bits + SIGN_BIT })
    } else {
        Some(Binary32 { bits })
    }
}

/// Reads a whole number that does not exceed `max`.
pub fn parse_bounded(t: &[u8], max: u64) -> (r: Option<u64>)
    ensures
        r is Some <==> parsed_index(t@, max as nat) is Some,
        r is Some ==> r->0 == parsed_index(t@, max as nat)->0,
{
    let u: &[u8] = if t.len() > 0 && t[0] == 43 {
        slice_subrange(t, 1, t.len())
    } else {
        t
    };
    assert(u@ =~= if t@.len() > 0 && t@[0] == 43 {
        t@.skip(1)
    } else {
        t@
    });
    if u.len() == 0 || count_digits(u) != u.len() {
        return None;
    }
    proof {
        lemma_all_run(u@);
    }
    let n: u128 = capped_number(u, max as u128 + 10);
    if n <= max as u128 {
        Some(n as u64)
    } else {
        None
    }
}

/// Reads a whole number.
pub fn parse_index(t: &[u8]) -> (r: Option<usize>)
    ensures
        r is Some <==> parsed_index(t@, usize::MAX as nat) is Some,
        r is Some ==> r->0 == parsed_index(t@, usize::MAX as nat)->0,
{
    match parse_bounded(t, usize::MAX as u64) {
        None => None,
        Some(n) => Some(n as usize),
    }
}

} // verus!
