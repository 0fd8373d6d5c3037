//! The single precision number nearest to a decimal number.

use crate::numeric::binary32::{nearest, FRACTION_BITS, INFINITY_BITS, SMALLEST_EXPONENT};
use crate::numeric::decimal::{
    all_digits, lemma_number_bound, lemma_number_lower, lemma_number_split, lemma_ten_adds,
    lemma_ten_below_power, lemma_ten_grows, lemma_ten_positive, number_of, scale_digits, ten,
    trimmed,
};
use crate::numeric::rounding::{
    lemma_magnitude_monotone, lemma_rounded, magnitude, positive_part, round_scaled, scaled,
};
use vstd::arithmetic::mul::*;
use vstd::arithmetic::power2::*;
use vstd::prelude::*;

verus! {

/// Numerator of `d * 10^k` in units of the smallest positive number.
pub open spec fn decimal_numerator(d: nat, k: int) -> nat {
    d * ten(positive_part(k)) * pow2(SMALLEST_EXPONENT as nat)
}

/// Denominator of `d * 10^k`.
pub open spec fn decimal_denominator(k: int) -> nat {
    ten(positive_part(-k))
}

/// Encoding of the number nearest to `d * 10^k`.
pub open spec fn nearest_decimal(d: nat, k: int) -> nat {
    nearest(decimal_numerator(d, k), decimal_denominator(k))
}

/// The powers of ten that the bounds below rest on.
proof fn lemma_ten_values()
    ensures
        ten(20) == 100_000_000_000_000_000_000,
        ten(39) == 1_000_000_000_000_000_000_000_000_000_000_000_000_000,
        ten(38) == 100_000_000_000_000_000_000_000_000_000_000_000_000,
        ten(37) == 10_000_000_000_000_000_000_000_000_000_000_000_000,
{
    reveal_with_fuel(ten, 41);
}

proof fn lemma_power_values()
    ensures
        pow2(127) == 0x8000_0000_0000_0000_0000_0000_0000_0000,
        pow2(128) == 0x1_0000_0000_0000_0000_0000_0000_0000_0000,
        pow2(25) == 0x200_0000,
{
    lemma2_to64();
    lemma2_to64_rest();
    lemma_pow2_adds(64, 63);
    lemma_pow2_adds(64, 64);
}

/// What exceeds every finite number rounds to infinity.
proof fn lemma_huge(num: nat, den: nat)
    requires
        den > 0,
        num >= ten(39) * pow2(SMALLEST_EXPONENT as nat) * den,
    ensures
        nearest(num, den) == INFINITY_BITS,
{
    let f = FRACTION_BITS as nat;
    let inf = INFINITY_BITS as nat;
    let unit = pow2(SMALLEST_EXPONENT as nat);
    lemma_ten_values();
    lemma_power_values();
    lemma2_to64();
    lemma_pow2_pos(SMALLEST_EXPONENT as nat);
    lemma_pow2_adds(23, 254);
    lemma_pow2_adds(128, SMALLEST_EXPONENT as nat);
    assert(inf / pow2(23) == 255);
    assert(inf % pow2(23) == 0);
    let top = magnitude(f, inf);
    assert(top == pow2(277));
    assert(top == pow2(128) * unit);
    lemma_magnitude_monotone(f, (inf - 1) as nat, inf);
    let mid = (magnitude(f, (inf - 1) as nat) + top) * den;
    assert(mid < 2 * num) by (nonlinear_arith)
        requires
            mid == (magnitude(f, (inf - 1) as nat) + top) * den,
            magnitude(f, (inf - 1) as nat) < top,
            top == pow2(128) * unit,
            pow2(128) < ten(39),
            unit > 0,
            den > 0,
            num >= ten(39) * unit * den,
    ;
    lemma_rounded(f, inf, num, den, inf);
}

/// What lies far below the smallest positive number rounds to zero.
proof fn lemma_negligible(d: nat, den: nat)
    requires
        den > 0,
        d * ten(51) <= den,
    ensures
        nearest(d * pow2(SMALLEST_EXPONENT as nat), den) == 0,
{
    let f = FRACTION_BITS as nat;
    let inf = INFINITY_BITS as nat;
    let unit = pow2(SMALLEST_EXPONENT as nat);
    lemma2_to64();
    lemma2_to64_rest();
    lemma_pow2_adds(64, 64);
    lemma_pow2_adds(128, 21);
    lemma_ten_adds(20, 31);
    reveal_with_fuel(ten, 33);
    lemma_ten_values();
    assert(magnitude(f, 0) == 0);
    assert(magnitude(f, 1) == 1);
    let num = d * unit;
    assert(2 * unit < ten(51));
    assert(2 * num < den) by (nonlinear_arith)
        requires
            num == d * unit,
            2 * unit < ten(51),
            d * ten(51) <= den,
            den > 0,
            d >= 0,
    ;
    let mid = (magnitude(f, 0) + magnitude(f, 1)) * den;
    assert(mid == den) by (nonlinear_arith)
        requires
            mid == (0 + 1) * den,
    ;
    lemma_rounded(f, inf, num, den, 0);
}

/// Prepends `k` zeros, which multiplies the number by `10^k`.
fn shift_digits(d: &Vec<u8>, k: usize) -> (r: Vec<u8>)
    requires
        trimmed(d@),
        d@.len() > 0,
    ensures
        trimmed(r@),
        r@.len() == d@.len() + k,
        number_of(r@) == number_of(d@) * ten(k as nat),
{
    let mut r: Vec<u8> = Vec::new();
    let mut i: usize = 0;
    while i < k
        invariant
            i <= k,
            r@.len() == i,
            forall|j: int| 0 <= j < i ==> #[trigger] r@[j] == 0,
            number_of(r@) == 0,
        decreases k - i,
    {
        proof {
            crate::numeric::decimal::lemma_number_push(r@, 0);
            assert(0 * ten(r@.len()) == 0) by (nonlinear_arith);
        }
        r.push(0);
        i = i + 1;
    }
    let ghost zeros = r@;
    let mut i: usize = 0;
    while i < d.len()
        invariant
            i <= d@.len(),
            zeros.len() == k,
            r@ == zeros + d@.take(i as int),
            trimmed(d@),
        decreases d@.len() - i,
    {
        r.push(d[i]);
        i = i + 1;
        assert(r@ =~= zeros + d@.take(i as int));
    }
    proof {
        assert(d@.take(d@.len() as int) =~= d@);
        lemma_number_split(r@, k as int);
        assert(r@.take(k as int) =~= zeros);
        assert(r@.skip(k as int) =~= d@);
        assert(ten(k as nat) * number_of(d@) == number_of(d@) * ten(k as nat)) by (nonlinear_arith);
        assert forall|j: int| 0 <= j < r@.len() implies #[trigger] r@[j] < 10 by {
            if j < k {
                assert(zeros[j] == 0);
            } else {
                assert(r@[j] == d@[j - k]);
            }
        }
    }
    r
}

/// The digits from place `n` on, as a number.
fn leading_number(d: &Vec<u8>, n: usize) -> (m: u128)
    requires
        trimmed(d@),
        n <= d@.len() <= n + 38,
    ensures
        m == number_of(d@.skip(n as int)),
{
    let mut m: u128 = 0;
    let mut i: usize = d.len();
    proof {
        assert(d@.skip(i as int) =~= Seq::<u8>::empty());
    }
    while i > n
        invariant
            n <= i <= d@.len() <= n + 38,
            trimmed(d@),
            m == number_of(d@.skip(i as int)),
        decreases i,
    {
        proof {
            let k = i - 1;
            let tail = d@.skip(k);
            assert(tail.skip(1) =~= d@.skip(i as int));
            assert(tail[0] == d@[k]);
            assert(all_digits(tail)) by {
                assert forall|j: int| 0 <= j < tail.len() implies #[trigger] tail[j] < 10 by {
                    assert(tail[j] == d@[k + j]);
                }
            }
            lemma_number_bound(tail);
            lemma_ten_grows(tail.len(), 38);
            lemma_ten_values();
        }
        i = i - 1;
        m = m * 10 + d[i] as u128;
    }
    m
}

/// Whether one of the first `n` digits differs from zero.
fn has_tail(d: &Vec<u8>, n: usize) -> (b: bool)
    requires
        trimmed(d@),
        n <= d@.len(),
    ensures
        b == (number_of(d@.take(n as int)) > 0),
{
    let mut i: usize = 0;
    proof {
        assert(d@.take(0) =~= Seq::<u8>::empty());
    }
    while i < n
        invariant
            i <= n <= d@.len(),
            trimmed(d@),
            number_of(d@.take(i as int)) == 0,
        decreases n - i,
    {
        proof {
            assert(d@.take(i + 1) =~= d@.take(i as int).push(d@[i as int]));
            crate::numeric::decimal::lemma_number_push(d@.take(i as int), d@[i as int]);
            lemma_ten_positive(i as nat);
        }
        if d[i] > 0 {
            proof {
                let x = d@[i as int];
                assert(x * ten(i as nat) > 0) by (nonlinear_arith)
                    requires
                        x > 0,
                        ten(i as nat) > 0,
                ;
                lemma_number_split(d@.take(n as int), i + 1);
                assert(d@.take(n as int).take(i + 1) =~= d@.take(i + 1));
                let rest = number_of(d@.take(n as int).skip(i + 1));
                assert(ten((i + 1) as nat) * rest >= 0) by (nonlinear_arith)
                    requires
                        rest >= 0,
                        ten((i + 1) as nat) >= 0,
                ;
            }
            return true;
        }
        proof {
            assert(0 * ten(i as nat) == 0) by (nonlinear_arith);
        }
        i = i + 1;
    }
    false
}

/// The digits left of the point and whether something stands right of it
/// describe the number to be rounded.
proof fn lemma_scaled_decimal(
    num: nat,
    den: nat,
    all: nat,
    places: nat,
    m: nat,
    low: nat,
    e: int,
)
    requires
        all == low + ten(places) * m,
        low < ten(places),
        num * pow2(positive_part(-e)) * ten(places) == all * (pow2(positive_part(e)) * den),
        den > 0,
    ensures
        scaled(num, den, m, e, low > 0),
{
    let a = num * pow2(positive_part(-e));
    let c = pow2(positive_part(e)) * den;
    let t = ten(places);
    lemma_ten_positive(places);
    lemma_pow2_pos(positive_part(e));
    assert(c > 0) by (nonlinear_arith)
        requires
            c == pow2(positive_part(e)) * den,
            pow2(positive_part(e)) > 0,
            den > 0,
    ;
    assert(a * t == (m * c) * t + low * c) by (nonlinear_arith)
        requires
            a * t == all * c,
            all == low + t * m,
    ;
    assert(low * c < t * c) by (nonlinear_arith)
        requires
            low < t,
            c > 0,
    ;
    if low > 0 {
        assert(low * c > 0) by (nonlinear_arith)
            requires
                low > 0,
                c > 0,
        ;
        assert(m * c < a) by (nonlinear_arith)
            requires
                a * t == (m * c) * t + low * c,
                low * c > 0,
                t > 0,
        ;
        assert(a < (m + 1) * c) by (nonlinear_arith)
            requires
                a * t == (m * c) * t + low * c,
                low * c < t * c,
                t > 0,
        ;
    } else {
        assert(low * c == 0) by (nonlinear_arith)
            requires
                low == 0,
        ;
        assert(a == m * c) by (nonlinear_arith)
            requires
                a * t == (m * c) * t,
                t > 0,
        ;
    }
}

/// The bookkeeping of doublings and halvings.
proof fn lemma_rescaled(
    d: nat,
    k: int,
    all: nat,
    places: nat,
    doubled: nat,
    halved: nat,
    five: nat,
    tens: nat,
    e: int,
)
    requires
        all == d * ten(positive_part(k)) * pow2(doubled) * five,
        places == positive_part(-k) + halved,
        ten(halved) == tens,
        tens == pow2(halved) * five,
        e == SMALLEST_EXPONENT + halved - doubled,
    ensures
        decimal_numerator(d, k) * pow2(positive_part(-e)) * ten(places) == all * (pow2(
            positive_part(e),
        ) * decimal_denominator(k)),
{
    let unit = pow2(SMALLEST_EXPONENT as nat);
    let x = d * ten(positive_part(k));
    let n = pow2(positive_part(-e));
    let g = pow2(positive_part(e));
    let den = decimal_denominator(k);
    lemma_ten_adds(positive_part(-k), halved);
    lemma_pow2_adds(SMALLEST_EXPONENT as nat, positive_part(-e));
    lemma_pow2_adds(SMALLEST_EXPONENT as nat + positive_part(-e), halved);
    lemma_pow2_adds(doubled, positive_part(e));
    let h = pow2(halved);
    let w = pow2(doubled);
    assert(SMALLEST_EXPONENT as nat + positive_part(-e) + halved == doubled + positive_part(e));
    assert(unit * n * h == w * g);
    assert(ten(places) == den * (h * five));
    let lhs = x * unit * n * (den * (h * five));
    let rhs = x * w * five * (g * den);
    assert(lhs == rhs) by (nonlinear_arith)
        requires
            unit * n * h == w * g,
            lhs == x * unit * n * (den * (h * five)),
            rhs == x * w * five * (g * den),
    ;
}

/// Encoding of the number nearest to the number with digits `d` times `10^k`.
pub fn round_decimal(d: &Vec<u8>, k: i128) -> (b: u32)
    requires
        trimmed(d@),
        -0x1000_0000_0000_0000_0000_0000 <= k <= 0x1000_0000_0000_0000_0000_0000,
    ensures
        b == nearest_decimal(number_of(d@), k as int),
        b <= INFINITY_BITS,
{
    let ghost value = number_of(d@);
    let ghost num = decimal_numerator(value, k as int);
    let ghost den = decimal_denominator(k as int);
    proof {
        lemma_ten_positive(positive_part(-k as int));
        lemma_ten_positive(positive_part(k as int));
    }
    if d.len() == 0 {
        proof {
            lemma_zero(k as int);
        }
        return 0;
    }
    let place: i128 = d.len() as i128 + k;
    proof {
        lemma_number_lower(d@);
        lemma_number_bound(d@);
    }
    if place > 39 {
        proof {
            lemma_large_decimal(value, d@.len(), k as int);
        }
        return INFINITY_BITS;
    }
    if place < -50 {
        proof {
            lemma_small_decimal(value, d@.len(), k as int);
        }
        return 0;
    }
    let mut all: Vec<u8>;
    let mut places: i128;
    if k >= 0 {
        all = shift_digits(d, k as usize);
        places = 0;
    } else {
        all = shift_digits(d, 0);
        places = -k;
        proof {
            assert(number_of(d@) * ten(0) == number_of(d@)) by (nonlinear_arith)
                requires
                    ten(0) == 1,
            ;
        }
    }
    let ghost x = value * ten(positive_part(k as int));
    assert(number_of(all@) == x) by {
        if k < 0 {
            assert(value * ten(0) == value) by (nonlinear_arith)
                requires
                    ten(0) == 1,
            ;
        }
    }
    let mut halved: i32 = 0;
    let ghost mut five: nat = 1;
    if place >= 38 {
        scale_digits(&mut all, 5);
        scale_digits(&mut all, 5);
        scale_digits(&mut all, 5);
        scale_digits(&mut all, 5);
        places = places + 4;
        halved = 4;
        proof {
            five = 625;
            assert(number_of(all@) == x * 625);
            lemma_halved_bound(value, d@.len(), k as int, all@, places as nat);
        }
    } else {
        proof {
            assert(number_of(all@) == x * 1) by (nonlinear_arith)
                requires
                    number_of(all@) == x,
            ;
        }
    }
    let mut doubled: i32 = 0;
    let ghost base = number_of(all@);
    proof {
        lemma2_to64();
        assert(base * pow2(0) == base) by (nonlinear_arith)
            requires
                pow2(0) == 1,
        ;
        lemma_number_lower(all@);
    }
    let ghost floor = (all@.len() - 1) as nat;
    while (all.len() as i128) < places + 21
        invariant
            trimmed(all@),
            all@.len() > 0,
            0 <= places <= 0x1000_0000_0000_0000_0000_0004,
            all@.len() <= places + 38,
            0 <= doubled <= 288,
            number_of(all@) == base * pow2(doubled as nat),
            base >= ten(floor),
            floor + 52 >= places,
            doubled > 0 ==> all@.len() <= places + 21,
        decreases 300 - doubled,
    {
        proof {
            lemma_doubling_bound(base, floor, all@, places as nat, doubled as nat);
        }
        let ghost prev = all@;
        scale_digits(&mut all, 2);
        proof {
            lemma_pow2_unfold((doubled + 1) as nat);
            let w = pow2(doubled as nat);
            assert(2 * (base * w) == base * (2 * w)) by (nonlinear_arith);
            lemma_doubled_length(prev, all@);
        }
        doubled = doubled + 1;
    }
    let point: usize = places as usize;
    let m: u128 = leading_number(&all, point);
    let sticky: bool = has_tail(&all, point);
    let e: i32 = 149 + halved - doubled;
    proof {
        let n = places as int;
        let low = number_of(all@.take(n));
        let high = all@.skip(n);
        lemma_number_split(all@, n);
        assert(trimmed(high)) by {
            assert forall|j: int| 0 <= j < high.len() implies #[trigger] high[j] < 10 by {
                assert(high[j] == all@[n + j]);
            }
            assert(high[high.len() - 1] == all@[all@.len() - 1]);
        }
        assert(all_digits(all@.take(n)));
        lemma_number_bound(all@.take(n));
        lemma_number_bound(high);
        lemma_number_lower(high);
        lemma_ten_grows(20, (high.len() - 1) as nat);
        lemma_ten_grows(high.len(), 38);
        lemma_ten_values();
        lemma_power_values();
        let w = pow2(doubled as nat);
        assert(number_of(all@) == x * w * five) by (nonlinear_arith)
            requires
                number_of(all@) == base * w,
                base == x * five,
        ;
        assert(ten(halved as nat) == pow2(halved as nat) * five) by {
            reveal_with_fuel(ten, 5);
            lemma2_to64();
        }
        lemma_rescaled(
            value,
            k as int,
            number_of(all@),
            places as nat,
            doubled as nat,
            halved as nat,
            five,
            ten(halved as nat),
            e as int,
        );
        lemma_scaled_decimal(
            num,
            den,
            number_of(all@),
            places as nat,
            m as nat,
            low,
            e as int,
        );
    }
    let b: u64 = round_scaled(FRACTION_BITS, INFINITY_BITS as u64, m, e, sticky);
    proof {
        lemma_rounded(FRACTION_BITS as nat, INFINITY_BITS as nat, num, den, b as nat);
    }
    b as u32
}

/// A number of more than 39 digits before the point rounds to infinity.
pub proof fn lemma_large_decimal(value: nat, len: nat, k: int)
    requires
        len > 0,
        value >= ten((len - 1) as nat),
        len + k > 39,
    ensures
        nearest_decimal(value, k) == INFINITY_BITS,
{
    let num = decimal_numerator(value, k);
    let den = decimal_denominator(k);
    let unit = pow2(SMALLEST_EXPONENT as nat);
    let g = ten(positive_part(k));
    lemma_ten_positive(positive_part(-k));
    lemma_ten_positive(positive_part(k));
    lemma_ten_adds((len - 1) as nat, positive_part(k));
    lemma_ten_adds(39, positive_part(-k));
    lemma_ten_grows(39 + positive_part(-k), (len - 1) as nat + positive_part(k));
    assert(value * g >= ten((len - 1) as nat) * g) by (nonlinear_arith)
        requires
            value >= ten((len - 1) as nat),
    ;
    assert(num >= ten(39) * unit * den) by (nonlinear_arith)
        requires
            num == value * g * unit,
            value * g >= ten(39) * den,
    ;
    lemma_huge(num, den);
}

/// A number that begins far behind the point rounds to zero.
pub proof fn lemma_small_decimal(value: nat, len: nat, k: int)
    requires
        value < ten(len),
        len + k < -50,
    ensures
        nearest_decimal(value, k) == 0,
{
    let den = decimal_denominator(k);
    lemma_ten_positive(positive_part(-k));
    lemma_ten_adds(len, 51);
    lemma_ten_grows(len + 51, positive_part(-k));
    lemma_ten_positive(51);
    assert(value * ten(51) <= ten(len) * ten(51)) by (nonlinear_arith)
        requires
            value <= ten(len),
    ;
    assert(value * ten(0) == value) by (nonlinear_arith)
        requires
            ten(0) == 1,
    ;
    lemma_negligible(value, den);
}

/// Zero is zero whatever the exponent.
pub proof fn lemma_zero(k: int)
    ensures
        nearest_decimal(0, k) == 0,
{
    lemma_ten_positive(positive_part(-k));
    assert(0 * ten(51) == 0) by (nonlinear_arith);
    assert(0 * ten(positive_part(k)) == 0) by (nonlinear_arith);
    lemma_negligible(0, decimal_denominator(k));
}

/// Four halvings leave at most 38 digits before the point.
proof fn lemma_halved_bound(value: nat, len: nat, k: int, all: Seq<u8>, places: nat)
    requires
        value < ten(len),
        38 <= len + k <= 39,
        trimmed(all),
        number_of(all) == value * ten(positive_part(k)) * 625,
        places == positive_part(-k) + 4,
        value > 0,
    ensures
        all.len() <= places + 38,
        all.len() > 0,
{
    let g = ten(positive_part(k));
    lemma_ten_positive(positive_part(k));
    lemma_ten_adds(len, positive_part(k));
    assert(len + positive_part(k) <= 39 + positive_part(-k));
    lemma_ten_grows(len + positive_part(k), 39 + positive_part(-k));
    lemma_ten_adds(39, positive_part(-k));
    lemma_ten_adds(38, places);
    lemma_ten_adds(4, positive_part(-k));
    reveal_with_fuel(ten, 5);
    lemma_ten_values();
    let t = ten(positive_part(-k));
    assert(value * g < ten(len) * g) by (nonlinear_arith)
        requires
            value < ten(len),
            g > 0,
    ;
    assert(value * g >= 1) by (nonlinear_arith)
        requires
            value >= 1,
            g >= 1,
    ;
    assert(ten(38 + places) == ten(38) * (10000 * t));
    assert(number_of(all) < ten(38 + places)) by (nonlinear_arith)
        requires
            number_of(all) == value * g * 625,
            value * g < ten(39) * t,
            ten(39) == 10 * ten(38),
            ten(38 + places) == ten(38) * (10000 * t),
            ten(38) > 0,
    ;
    if all.len() > 0 {
        lemma_number_lower(all);
        if all.len() > places + 38 {
            lemma_ten_grows(38 + places, (all.len() - 1) as nat);
        }
    }
}

/// A number that still has fewer than 21 digits before the point has been doubled
/// fewer than 288 times.
proof fn lemma_doubling_bound(base: nat, floor: nat, all: Seq<u8>, places: nat, doubled: nat)
    requires
        trimmed(all),
        all.len() < places + 21,
        number_of(all) == base * pow2(doubled),
        base >= ten(floor),
        floor + 52 >= places,
    ensures
        doubled < 288,
{
    if doubled >= 288 {
        let top = (floor + 72) as nat;
        lemma_number_bound(all);
        lemma_ten_grows(all.len(), top);
        lemma_ten_adds(floor, 72);
        lemma_ten_below_power(72);
        if doubled > 288 {
            lemma_pow2_strictly_increases(288, doubled);
        }
        lemma_ten_positive(floor);
        assert(base * pow2(doubled) >= ten(floor) * ten(72)) by (nonlinear_arith)
            requires
                base >= ten(floor),
                pow2(doubled) >= ten(72),
        ;
    }
}

/// Doubling adds at most one digit.
proof fn lemma_doubled_length(before: Seq<u8>, after: Seq<u8>)
    requires
        trimmed(before),
        trimmed(after),
        number_of(after) == 2 * number_of(before),
    ensures
        after.len() <= before.len() + 1,
{
    if after.len() > before.len() + 1 {
        lemma_number_lower(after);
        lemma_number_bound(before);
        lemma_ten_grows(before.len() + 1, (after.len() - 1) as nat);
        lemma_ten_positive(before.len());
    }
}

} // verus!
