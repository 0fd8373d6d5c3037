//! Standard mobile platforms.
//!
//! On the network the vector of a mobile base holds wheel speeds in rad/s, carried in
//! the generic binary format. A base is driven by its linear and angular speed; the
//! functions below map these to wheel speeds and back.

use crate::io_bridge::adapters::framing::{decode_fixed, fixed_telemetry};
use crate::io_bridge::adapters::generic_binary::{encode_fixed, fixed_encoding};
use crate::io_bridge::adapters::{BrandAdapter, FrameStrategy, Framing, Telemetry};
use crate::io_bridge::command_vector::{CommandVector, MAX_JOINTS};
use crate::io_bridge::jerk_limiter::{lemma_two, number_two, TWO_BITS};
use crate::io_bridge::robot_brand::RobotBrand;
use crate::numeric::accuracy::{
    abs, huge, lemma_abs_product, lemma_difference_error, lemma_product_error,
    lemma_product_finite, lemma_quotient_error, lemma_quotient_finite, lemma_sizes,
    lemma_sum_error, lemma_sum_finite, near, one_unit,
};
use crate::numeric::binary32::{
    law_product_zero, law_sum_with_zero, law_zero_quotient, law_zero_sum, number_zero, Binary32,
};
use vstd::arithmetic::div_mod::*;
use vstd::arithmetic::power2::*;
use vstd::prelude::*;

verus! {

/// Codec of the mobile platforms.
pub struct AmrRos2;

/// Default distance between the wheels, as the encoding of the number: 0.5 m.
pub const DEFAULT_WHEEL_BASE_M: u32 = 0x3f00_0000;

impl Default for AmrRos2 {
    fn default() -> (a: AmrRos2)
        ensures
            a == AmrRos2,
    {
        AmrRos2
    }
}

impl BrandAdapter for AmrRos2 {
    open spec fn brand_is(&self) -> RobotBrand {
        RobotBrand::Amr
    }

    open spec fn protocol_text(&self) -> Seq<char> {
        "ROS2 Twist/Odom (f32 LE)"@
    }

    open spec fn framing(&self) -> Framing {
        Framing::Fixed { bytes_per_joint: 4 }
    }

    open spec fn telemetry(&self, acc: Seq<u8>, joint_count: nat) -> Option<Telemetry> {
        fixed_telemetry(acc, joint_count)
    }

    open spec fn encoding(&self, values: Seq<Binary32>, room: nat) -> Seq<u8> {
        fixed_encoding(values, room)
    }

    open spec fn hint(&self) -> nat {
        1024
    }

    fn brand(&self) -> (b: RobotBrand) {
        RobotBrand::Amr
    }

    fn protocol_label(&self) -> (s: &'static str) {
        "ROS2 Twist/Odom (f32 LE)"
    }

    fn frame_strategy(&self) -> (f: FrameStrategy) {
        FrameStrategy::Fixed { bytes_per_joint: 4 }
    }

    fn decode_telemetry(&self, acc: &[u8], joint_count: usize) -> (r: Option<
        (usize, [Binary32; MAX_JOINTS], usize),
    >) {
        decode_fixed(acc, joint_count)
    }

    fn encode_command(&self, command: &CommandVector, out: &mut [u8]) -> (written: usize) {
        encode_fixed(command, out)
    }

    fn buffer_hint(&self) -> (n: usize) {
        1024
    }
}

/// Speeds of the left and the right wheel of a base that moves with the speeds
/// `linear` and `angular`: the linear speed less and plus half of what the rotation
/// takes.
pub open spec fn wheel_speeds(linear: Binary32, angular: Binary32, wheel_base: Binary32) -> (
    Binary32,
    Binary32,
) {
    if wheel_base.not_over(number_zero()) {
        (linear, linear)
    } else {
        let half = angular.product(wheel_base).quotient(number_two());
        (linear.difference(half), linear.sum(half))
    }
}

/// Maps linear and angular speed to the wheel speeds of a differential base.
pub fn twist_to_wheel_speeds(linear: Binary32, angular: Binary32, wheel_base: Binary32) -> (r: (
    Binary32,
    Binary32,
))
    ensures
        r == wheel_speeds(linear, angular, wheel_base),
{
    if wheel_base.at_most(Binary32::zero()) {
        return (linear, linear);
    }
    let half: Binary32 = angular.times(wheel_base).divided_by(Binary32 { bits: TWO_BITS });
    (linear.minus(half), linear.plus(half))
}

/// Linear and angular speed of a base whose wheels turn with the speeds `left` and
/// `right`: the mean, and the difference over the distance between the wheels.
pub open spec fn twist(left: Binary32, right: Binary32, wheel_base: Binary32) -> (
    Binary32,
    Binary32,
) {
    let angular = if wheel_base.not_over(number_zero()) {
        number_zero()
    } else {
        right.difference(left).quotient(wheel_base)
    };
    (left.sum(right).quotient(number_two()), angular)
}

/// Maps the wheel speeds of a differential base to linear and angular speed.
pub fn wheel_speeds_to_twist(left: Binary32, right: Binary32, wheel_base: Binary32) -> (r: (
    Binary32,
    Binary32,
))
    ensures
        r == twist(left, right, wheel_base),
{
    let v: Binary32 = left.plus(right).divided_by(Binary32 { bits: TWO_BITS });
    let omega: Binary32 = if wheel_base.at_most(Binary32::zero()) {
        Binary32::zero()
    } else {
        right.minus(left).divided_by(wheel_base)
    };
    (v, omega)
}

/// A base that does not turn moves both wheels with its linear speed.
pub proof fn law_straight_line(linear: Binary32, wheel_base: Binary32)
    requires
        linear.finite(),
        wheel_base.finite(),
    ensures
        wheel_speeds(linear, number_zero(), wheel_base).0.same_number(linear),
        wheel_speeds(linear, number_zero(), wheel_base).1.same_number(linear),
{
    let half = number_zero().product(wheel_base).quotient(number_two());
    law_product_zero(wheel_base);
    law_zero_quotient(number_zero().product(wheel_base), number_two());
    law_sum_with_zero(linear, half);
    law_sum_with_zero(linear, half.opposite());
}

/// A base that turns on the spot moves its wheels with opposite speeds.
pub proof fn law_rotation_in_place(angular: Binary32, wheel_base: Binary32)
    requires
        number_zero().below(wheel_base),
        angular.product(wheel_base).quotient(number_two()).finite(),
    ensures
        wheel_speeds(number_zero(), angular, wheel_base).0.same_number(
            wheel_speeds(number_zero(), angular, wheel_base).1.opposite(),
        ),
{
    let half = angular.product(wheel_base).quotient(number_two());
    law_zero_sum(half);
    law_zero_sum(half.opposite());
}

/// Halving is near to the half.
proof fn lemma_half(x: int, half: int)
    requires
        near(x * one_unit(), half, 2 * one_unit() as int),
    ensures
        16777216 * abs(x - 2 * half) <= 2 * (abs(half) + 8388608),
{
    let one = one_unit() as int;
    lemma_pow2_pos(149);
    let d = x - 2 * half;
    let r = abs(half) + 8388608;
    assert(x * one - half * (2 * one) == d * one) by (nonlinear_arith)
        requires
            d == x - 2 * half,
    ;
    assert(abs(d * one) == abs(d) * one) by {
        assert((-d) * one == -(d * one)) by (nonlinear_arith);
        assert(d >= 0 ==> d * one >= 0) by (nonlinear_arith)
            requires
                one > 0,
        ;
        assert(d < 0 ==> d * one < 0) by (nonlinear_arith)
            requires
                one > 0,
        ;
    }
    assert(16777216 * abs(d) <= 2 * r) by (nonlinear_arith)
        requires
            16777216 * (abs(d) * one) <= r * (2 * one),
            one > 0,
    ;
}

/// The linear speed that comes back.
proof fn lemma_mean_error(l: int, h: int, left: int, right: int, sum: int, v: int)
    requires
        near(l - h, left, 1),
        near(l + h, right, 1),
        near(left + right, sum, 1),
        16777216 * abs(sum - 2 * v) <= 2 * (abs(v) + 8388608),
    ensures
        16777216 * abs(v - l) <= 4 * abs(l) + 2 * abs(h) + 4 * 8388608,
{
}

/// What the wheels differ by.
proof fn lemma_difference_of_wheels(l: int, h: int, p: int, left: int, right: int, d: int)
    requires
        16777216 * abs(p - 2 * h) <= 2 * (abs(h) + 8388608),
        near(l - h, left, 1),
        near(l + h, right, 1),
        near(right - left, d, 1),
    ensures
        16777216 * abs(d - p) <= 3 * abs(l) + 4 * abs(p) + 8 * 8388608,
        2 * abs(h) <= 2 * abs(p) + 2,
{
}

/// Driving a base and reading its wheels gives the speeds back, up to rounding: the linear
/// speed up to `(4 |linear| + 3 |angular| wheel_base) / 2^24`, and the angular speed up to
/// `(7 |angular| + 4 |linear| / wheel_base) / 2^24`, and a few units of the smallest number.
/// This holds for every base, as long as the numbers stay within their range.
pub proof fn law_twist_comes_back(linear: Binary32, angular: Binary32, wheel_base: Binary32)
    requires
        number_zero().below(wheel_base),
        ({
            let wheels = wheel_speeds(linear, angular, wheel_base);
            let back = twist(wheels.0, wheels.1, wheel_base);
            back.0.finite() && back.1.finite()
        }),
    ensures
        ({
            let wheels = wheel_speeds(linear, angular, wheel_base);
            let back = twist(wheels.0, wheels.1, wheel_base);
            let one = one_unit() as int;
            let base = wheel_base.value();
            let turned = abs(angular.value()) * base;
            &&& 16777216 * (abs(back.0.value() - linear.value()) * one) <= 4 * (abs(linear.value())
                * one) + 3 * turned + 48000000 * one
            &&& 16777216 * (abs(back.1.value() - angular.value()) * base) <= 7 * turned + 4 * (abs(
                linear.value(),
            ) * one) + 96000000 * one + 16777216 * base
        }),
{
    let one = one_unit() as int;
    let two = number_two();
    lemma_two();
    let product = angular.product(wheel_base);
    let half = product.quotient(two);
    let (left, right) = wheel_speeds(linear, angular, wheel_base);
    let sum = left.sum(right);
    let apart = right.difference(left);
    let (v, w) = twist(left, right, wheel_base);
    lemma_quotient_error(sum, two);
    lemma_sum_error(left, right);
    lemma_difference_error(linear, half);
    lemma_sum_error(linear, half);
    lemma_quotient_error(product, two);
    lemma_product_error(angular, wheel_base);
    lemma_quotient_error(apart, wheel_base);
    lemma_difference_error(right, left);
    lemma_half(sum.value(), v.value());
    lemma_half(product.value(), half.value());
    let l = linear.value();
    let a = angular.value();
    let b = wheel_base.value();
    let p = product.value();
    let h = half.value();
    let d = apart.value();
    let o = w.value();
    lemma_mean_error(l, h, left.value(), right.value(), sum.value(), v.value());
    lemma_difference_of_wheels(l, h, p, left.value(), right.value(), d);
    lemma_back(l, a, b, one, p, h, d, v.value(), o);
}

/// For speeds up to 4 m/s and 8 rad/s and wheels that are 0.25 m to 4 m apart, the speeds
/// that come back differ from those that were given by less than `10^-5`.
pub proof fn law_ordinary_twist_comes_back(
    linear: Binary32,
    angular: Binary32,
    wheel_base: Binary32,
)
    requires
        linear.finite(),
        angular.finite(),
        wheel_base.finite(),
        abs(linear.value()) <= 4 * one_unit(),
        abs(angular.value()) <= 8 * one_unit(),
        one_unit() <= 4 * wheel_base.value(),
        wheel_base.value() <= 4 * one_unit(),
    ensures
        ({
            let wheels = wheel_speeds(linear, angular, wheel_base);
            let back = twist(wheels.0, wheels.1, wheel_base);
            &&& back.0.finite()
            &&& back.1.finite()
            &&& 100000 * abs(back.0.value() - linear.value()) < one_unit()
            &&& 100000 * abs(back.1.value() - angular.value()) < one_unit()
        }),
{
    let product = angular.product(wheel_base);
    let half = product.quotient(number_two());
    let left = linear.difference(half);
    let right = linear.sum(half);
    lemma_sizes();
    lemma_base_positive(wheel_base);
    lemma_ordinary_product(angular, wheel_base);
    lemma_ordinary_half(product);
    lemma_ordinary_sum(linear, half);
    lemma_ordinary_sum(left, right);
    lemma_ordinary_sum(right, left);
    lemma_ordinary_half(left.sum(right));
    lemma_ordinary_quotient(right.difference(left), wheel_base);
    law_twist_comes_back(linear, angular, wheel_base);
    let back = twist(left, right, wheel_base);
    lemma_ordinary_errors(
        linear.value(),
        angular.value(),
        wheel_base.value(),
        one_unit() as int,
        abs(back.0.value() - linear.value()),
        abs(back.1.value() - angular.value()),
    );
}

proof fn lemma_ordinary_product(angular: Binary32, wheel_base: Binary32)
    requires
        angular.finite(),
        wheel_base.finite(),
        abs(angular.value()) <= 8 * one_unit(),
        0 < wheel_base.value() <= 4 * one_unit(),
    ensures
        angular.product(wheel_base).finite(),
        abs(angular.product(wheel_base).value()) <= 33 * one_unit(),
{
    let one = one_unit() as int;
    let a = angular.value();
    let b = wheel_base.value();
    lemma_sizes();
    assert(angular.size() == abs(a));
    assert(wheel_base.size() == abs(b));
    assert(abs(a) * b <= 32 * (one * one)) by (nonlinear_arith)
        requires
            0 <= abs(a) <= 8 * one,
            0 < b <= 4 * one,
    ;
    assert(32 * (one * one) <= huge() * one) by (nonlinear_arith)
        requires
            huge() >= 1024 * one,
            one > 0,
    ;
    lemma_product_finite(angular, wheel_base);
    lemma_product_error(angular, wheel_base);
    let p = angular.product(wheel_base).value();
    lemma_abs_product(a, b);
    lemma_abs_product(p, one);
    assert((abs(p) + 8388608) * one == abs(p) * one + 8388608 * one) by (nonlinear_arith);
    let q = abs(p);
    if q > 33 * one {
        assert(q * one >= 33 * (one * one)) by (nonlinear_arith)
            requires
                q > 33 * one,
                one > 0,
        ;
        assert(one * one >= 1000000000 * one) by (nonlinear_arith)
            requires
                one > 1000000000,
        ;
    }
}

proof fn lemma_ordinary_half(x: Binary32)
    requires
        x.finite(),
        abs(x.value()) <= 100 * one_unit(),
    ensures
        x.quotient(number_two()).finite(),
        2 * abs(x.quotient(number_two()).value()) <= abs(x.value()) + one_unit(),
{
    let one = one_unit() as int;
    let two = number_two();
    lemma_sizes();
    lemma_two();
    assert(x.size() == abs(x.value()));
    assert(x.size() * one <= huge() * (2 * one)) by (nonlinear_arith)
        requires
            x.size() <= 100 * one,
            huge() >= 1024 * one,
            one > 0,
    ;
    lemma_quotient_finite(x, two);
    lemma_quotient_error(x, two);
    lemma_half(x.value(), x.quotient(two).value());
}

proof fn lemma_ordinary_sum(x: Binary32, y: Binary32)
    requires
        x.finite(),
        y.finite(),
        abs(x.value()) + abs(y.value()) <= 100 * one_unit(),
    ensures
        x.sum(y).finite(),
        x.difference(y).finite(),
        abs(x.sum(y).value()) <= abs(x.value()) + abs(y.value()) + one_unit(),
        abs(x.difference(y).value()) <= abs(x.value()) + abs(y.value()) + one_unit(),
{
    lemma_sizes();
    lemma_sum_finite(x, y);
    lemma_sum_error(x, y);
    lemma_difference_error(x, y);
}

proof fn lemma_ordinary_quotient(x: Binary32, wheel_base: Binary32)
    requires
        x.finite(),
        wheel_base.finite(),
        abs(x.value()) <= 100 * one_unit(),
        one_unit() <= 4 * wheel_base.value(),
    ensures
        x.quotient(wheel_base).finite(),
{
    let one = one_unit() as int;
    let b = wheel_base.value();
    lemma_sizes();
    assert(x.size() == abs(x.value()));
    assert(wheel_base.size() == b);
    assert(x.size() * one <= huge() * b) by (nonlinear_arith)
        requires
            x.size() <= 100 * one,
            one <= 4 * b,
            huge() >= 1024 * one,
            one > 0,
    ;
    lemma_quotient_finite(x, wheel_base);
}

/// The errors `dv` and `dw` of the speeds that come back.
proof fn lemma_ordinary_errors(l: int, a: int, b: int, one: int, dv: int, dw: int)
    requires
        16777216 * (dv * one) <= 4 * (abs(l) * one) + 3 * (abs(a) * b) + 48000000 * one,
        16777216 * (dw * b) <= 7 * (abs(a) * b) + 4 * (abs(l) * one) + 96000000 * one + 16777216
            * b,
        abs(l) <= 4 * one,
        abs(a) <= 8 * one,
        one <= 4 * b,
        b <= 4 * one,
        one > 1000000000,
    ensures
        100000 * dv < one,
        100000 * dw < one,
{
    let la = abs(l);
    let aa = abs(a);
    let square = one * one;
    let area = one * b;
    assert(la * one <= 4 * square) by (nonlinear_arith)
        requires
            la <= 4 * one,
            one > 0,
            square == one * one,
    ;
    assert(aa * b <= 32 * square) by (nonlinear_arith)
        requires
            0 <= aa <= 8 * one,
            0 < b <= 4 * one,
            square == one * one,
    ;
    assert(aa * b <= 8 * area) by (nonlinear_arith)
        requires
            aa <= 8 * one,
            0 < b,
            area == one * b,
    ;
    assert(square <= 4 * area) by (nonlinear_arith)
        requires
            one <= 4 * b,
            one > 0,
            square == one * one,
            area == one * b,
    ;
    assert(square >= 1000000000 * one) by (nonlinear_arith)
        requires
            one > 1000000000,
            square == one * one,
    ;
    assert(area >= 1000000000 * b) by (nonlinear_arith)
        requires
            one > 1000000000,
            b > 0,
            area == one * b,
    ;
    if 100000 * dv >= one {
        assert(100000 * (dv * one) >= square) by (nonlinear_arith)
            requires
                100000 * dv >= one,
                one > 0,
                square == one * one,
        ;
    }
    if 100000 * dw >= one {
        assert(100000 * (dw * b) >= area) by (nonlinear_arith)
            requires
                100000 * dw >= one,
                b > 0,
                area == one * b,
        ;
    }
}

/// A base of positive width is above zero.
proof fn lemma_base_positive(wheel_base: Binary32)
    requires
        wheel_base.finite(),
        wheel_base.value() > 0,
    ensures
        !wheel_base.negative(),
        number_zero().below(wheel_base),
{
    if wheel_base.absolute() == 0 {
        lemma_pow2_pos(23);
        lemma_small_mod(0, pow2(23));
        lemma_basic_div(0, pow2(23) as int);
    }
}

/// The two speeds that come back, where `p` is the product of `a` and `b`, and `d` what the
/// wheels differ by.
proof fn lemma_back(
    l: int,
    a: int,
    b: int,
    one: int,
    p: int,
    h: int,
    d: int,
    v: int,
    o: int,
)
    requires
        one > 0,
        b > 0,
        near(a * b, p, one),
        near(d * one, o, b),
        16777216 * abs(v - l) <= 4 * abs(l) + 2 * abs(h) + 4 * 8388608,
        16777216 * abs(d - p) <= 3 * abs(l) + 4 * abs(p) + 8 * 8388608,
        2 * abs(h) <= 2 * abs(p) + 2,
    ensures
        16777216 * (abs(v - l) * one) <= 4 * (abs(l) * one) + 3 * (abs(a) * b) + 48000000 * one,
        16777216 * (abs(o - a) * b) <= 7 * (abs(a) * b) + 4 * (abs(l) * one) + 96000000 * one
            + 16777216 * b,
{
    lemma_abs_product(a, b);
    lemma_abs_product(p, one);
    lemma_abs_product(d, one);
    lemma_abs_product(o, b);
    lemma_abs_product(o - a, b);
    lemma_abs_product(v - l, one);
    lemma_abs_product(d - p, one);
    let turned = abs(a) * b;
    let big_p = abs(p) * one;
    let big_l = abs(l) * one;
    let big_o = abs(o) * b;
    assert((abs(p) + 8388608) * one == big_p + 8388608 * one) by (nonlinear_arith)
        requires
            big_p == abs(p) * one,
    ;
    assert((abs(o) + 8388608) * b == big_o + 8388608 * b) by (nonlinear_arith)
        requires
            big_o == abs(o) * b,
    ;
    assert((d - p) * one == d * one - p * one) by (nonlinear_arith);
    assert((o - a) * b == o * b - a * b) by (nonlinear_arith);
    assert(16777216 * (abs(d - p) * one) <= 3 * big_l + 4 * big_p + 67108864 * one)
        by (nonlinear_arith)
        requires
            16777216 * abs(d - p) <= 3 * abs(l) + 4 * abs(p) + 8 * 8388608,
            one > 0,
            big_l == abs(l) * one,
            big_p == abs(p) * one,
    ;
    assert(16777216 * (abs(v - l) * one) <= 4 * big_l + 2 * big_p + 33554434 * one)
        by (nonlinear_arith)
        requires
            16777216 * abs(v - l) <= 4 * abs(l) + 2 * abs(p) + 2 + 4 * 8388608,
            one > 0,
            big_l == abs(l) * one,
            big_p == abs(p) * one,
    ;
    assert(big_l >= 0) by (nonlinear_arith)
        requires
            big_l == abs(l) * one,
            abs(l) >= 0,
            one > 0,
    ;
}

/// A base turns to the left with a positive angular speed: the right wheel is faster than the
/// left one by the angular speed times the distance between the wheels, and their mean is the
/// linear speed, both up to rounding.
pub proof fn law_right_wheel_leads(linear: Binary32, angular: Binary32, wheel_base: Binary32)
    requires
        number_zero().below(wheel_base),
        wheel_speeds(linear, angular, wheel_base).0.finite(),
        wheel_speeds(linear, angular, wheel_base).1.finite(),
    ensures
        ({
            let one = one_unit() as int;
            let left = wheel_speeds(linear, angular, wheel_base).0.value();
            let right = wheel_speeds(linear, angular, wheel_base).1.value();
            let both = abs(left) + abs(right);
            &&& 16777216 * abs((right - left) * one - angular.value() * wheel_base.value()) <= (4
                * both + 134217728) * one
            &&& 16777216 * abs(left + right - 2 * linear.value()) <= both + 16777216
        }),
{
    let one = one_unit() as int;
    let turn = angular.product(wheel_base);
    let half = turn.quotient(number_two());
    lemma_two();
    lemma_sizes();
    lemma_difference_error(linear, half);
    lemma_sum_error(linear, half);
    lemma_quotient_error(turn, number_two());
    lemma_product_error(angular, wheel_base);
    let (l, r) = wheel_speeds(linear, angular, wheel_base);
    lemma_lead(
        linear.value(),
        half.value(),
        turn.value(),
        l.value(),
        r.value(),
        angular.value() * wheel_base.value(),
        one,
    );
}

proof fn lemma_lead(v: int, h: int, p: int, l: int, r: int, exact: int, one: int)
    requires
        one > 0,
        near(v - h, l, 1),
        near(v + h, r, 1),
        near(p * one, h, 2 * one),
        near(exact, p, one),
    ensures
        16777216 * abs((r - l) * one - exact) <= (4 * (abs(l) + abs(r)) + 134217728) * one,
{
    assert(p * one - h * (2 * one) == (p - 2 * h) * one) by (nonlinear_arith);
    lemma_abs_product(p - 2 * h, one);
    let off = abs(p - 2 * h);
    let ha = abs(h);
    assert(16777216 * off <= 2 * (ha + 8388608)) by (nonlinear_arith)
        requires
            16777216 * (off * one) <= (ha + 8388608) * (2 * one),
            one > 0,
    ;
    let (la, ra, pa) = (abs(l), abs(r), abs(p));
    let way = abs(r - l - 2 * h);
    assert(16777216 * way <= la + ra + 16777216);
    assert(2 * ha <= la + ra + way);
    assert(pa <= 2 * ha + off);
    let gap = abs(r - l - p);
    assert(gap <= way + off);
    assert(16777216 * gap + pa + 8388608 <= 4 * (la + ra) + 134217728);
    lemma_abs_product(r - l - p, one);
    assert((r - l - p) * one == (r - l) * one - p * one) by (nonlinear_arith);
    assert(16777216 * (gap * one) + (pa + 8388608) * one <= (4 * (la + ra) + 134217728) * one)
        by (nonlinear_arith)
        requires
            16777216 * gap + pa + 8388608 <= 4 * (la + ra) + 134217728,
            one > 0,
    ;
}

/// The linear speed is the mean of the speeds of the wheels, and the angular speed is positive
/// where the right wheel is faster: their difference over the distance between the wheels.
pub proof fn law_faster_right_wheel_turns_left(
    left: Binary32,
    right: Binary32,
    wheel_base: Binary32,
)
    requires
        number_zero().below(wheel_base),
        wheel_base.finite(),
        left.sum(right).finite(),
        right.difference(left).finite(),
        twist(left, right, wheel_base).0.finite(),
        twist(left, right, wheel_base).1.finite(),
    ensures
        ({
            let one = one_unit() as int;
            let (linear, angular) = twist(left, right, wheel_base);
            let both = abs(left.value()) + abs(right.value());
            let b = wheel_base.value();
            &&& 16777216 * abs(left.value() + right.value() - 2 * linear.value()) <= 4 * both
                + 67108864
            &&& 16777216 * abs((right.value() - left.value()) * one - angular.value() * b) <= (abs(
                angular.value(),
            ) + 8388608) * b + (2 * both + 16777216) * one
        }),
{
    let one = one_unit() as int;
    let sum = left.sum(right);
    let gap = right.difference(left);
    let (linear, angular) = twist(left, right, wheel_base);
    lemma_two();
    lemma_sizes();
    lemma_sum_error(left, right);
    lemma_difference_error(right, left);
    lemma_quotient_error(sum, number_two());
    lemma_quotient_error(gap, wheel_base);
    let (s, m) = (sum.value(), linear.value());
    assert(s * one - m * (2 * one) == (s - 2 * m) * one) by (nonlinear_arith);
    lemma_abs_product(s - 2 * m, one);
    let off = abs(s - 2 * m);
    let ma = abs(m);
    assert(16777216 * off <= 2 * (ma + 8388608)) by (nonlinear_arith)
        requires
            16777216 * (off * one) <= (ma + 8388608) * (2 * one),
            one > 0,
    ;
    let d = gap.value();
    let exact = right.value() - left.value();
    lemma_abs_product(exact - d, one);
    assert((exact - d) * one == exact * one - d * one) by (nonlinear_arith);
    let e = abs(exact - d);
    let both = abs(left.value()) + abs(right.value());
    assert(16777216 * e <= 2 * both + 16777216);
    assert(16777216 * (e * one) <= (2 * both + 16777216) * one) by (nonlinear_arith)
        requires
            16777216 * e <= 2 * both + 16777216,
            one > 0,
    ;
}

} // verus!
