//! How a joint gets to its target: it sets off in the direction of the target, it moves by its
//! velocity, and it can always stop in time.

use crate::io_bridge::command_vector::MAX_JOINTS;
use crate::io_bridge::jerk_limiter::{
    approach_time, braking_velocity, lemma_two, number_two, steady, velocity_limit, JerkLimiter,
};
use crate::numeric::accuracy::{
    abs, along, law_root_is_near, lemma_abs_product, lemma_difference_error, lemma_near_bound,
    lemma_product_between, lemma_product_error, lemma_quotient_between, lemma_quotient_error,
    lemma_sizes, lemma_sum_error, lemma_sum_finite, near, one_unit,
};
use crate::numeric::binary32::{
    law_position_orders_values, law_sum_commutes, law_sum_monotone, law_sum_with_zero,
    law_zero_sum, number_zero, signed, Binary32,
};
use vstd::arithmetic::power2::*;
use vstd::prelude::*;

verus! {

/// The number 1 in parts that are small against every number of ordinary size.
spec fn part() -> int {
    pow2(69) as int
}

proof fn lemma_parts()
    ensures
        one_unit() == 1208925819614629174706176 * part(),
        part() > 8388608,
{
    lemma2_to64();
    lemma2_to64_rest();
    lemma_pow2_adds(40, 40);
    lemma_pow2_adds(80, 69);
    lemma_pow2_strictly_increases(24, 69);
    assert(pow2(40) == 0x100_0000_0000);
    assert(0x100_0000_0000int * 0x100_0000_0000int == 1208925819614629174706176int);
}

/// A limit of ordinary size: between `2^-10` and `2^20`.
pub open spec fn moderate(x: Binary32) -> bool {
    &&& x.finite()
    &&& one_unit() <= 1024 * x.value()
    &&& x.value() <= 1048576 * one_unit()
}

/// The velocity from which a joint stops within the distance `dist` is the root of twice the
/// acceleration times the distance, up to rounding: its square is within `2^-20` of that.
pub proof fn law_braking_velocity_stops(amax: Binary32, dist: Binary32)
    requires
        moderate(amax),
        dist.finite(),
        one_unit() <= 2097152 * abs(dist.value()),
        abs(dist.value()) <= 262144 * one_unit(),
    ensures
        ({
            let v = braking_velocity(amax, dist);
            let square = v.value() * v.value();
            let exact = 2 * (amax.value() * abs(dist.value()));
            &&& v.finite()
            &&& v.value() > 0
            &&& one_unit() <= 131072 * v.value()
            &&& 1048576 * abs(square - exact) <= exact
        }),
{
    let one = one_unit() as int;
    let e = part();
    let a = amax.value();
    let way = signed(false, dist.absolute());
    let d = way.value();
    let two = number_two();
    lemma_parts();
    lemma_sizes();
    lemma_two();
    assert(d == abs(dist.value()));
    assert(two.value() * a == 2 * (a * one)) by (nonlinear_arith)
        requires
            two.value() == 2 * one,
    ;
    assert(two.value() * a >= 2 * (a * one));
    assert(2 * (two.value() * a) <= (4 * a) * one) by (nonlinear_arith)
        requires
            two.value() == 2 * one,
    ;
    lemma_product_between(two, amax, true, a, 4 * a);
    let twice = two.product(amax);
    let x = twice.value();
    assert(16777216 * abs(2 * a - x) <= x + 8388608) by {
        lemma_abs_product(2 * a - x, one);
        assert((2 * a - x) * one == two.value() * a - x * one) by (nonlinear_arith)
            requires
                two.value() * a == 2 * (a * one),
        ;
        assert(16777216 * (abs(2 * a - x) * one) <= (x + 8388608) * one);
        assert(16777216 * abs(2 * a - x) <= x + 8388608) by (nonlinear_arith)
            requires
                16777216 * (abs(2 * a - x) * one) <= (x + 8388608) * one,
                one > 0,
        ;
    }
    assert(a >= 1180591620717411303424 * e);
    assert(d >= 576460752303423488 * e);
    lemma_far(x, d, e, one);
    lemma_product_between(twice, way, true, 281474976710656 * e, 4398046511104 * one);
    let y = twice.product(way);
    law_root_is_near(y);
    let r = y.root().value();
    assert(braking_velocity(amax, dist) == y.root());
    assert(r >= 9223372036854775808 * e) by (nonlinear_arith)
        requires
            y.value() * one <= 4 * (r * r),
            y.value() >= 281474976710656 * e,
            one == 1208925819614629174706176 * e,
            r > 0,
            e > 0,
    ;
    lemma_stopping(a, d, x, y.value(), r, one);
}

/// Bounds of a product of numbers of ordinary size.
proof fn lemma_far(x: int, d: int, e: int, one: int)
    requires
        e > 0,
        one == 1208925819614629174706176 * e,
        1180591620717411303424 * e <= x <= 4194304 * one,
        576460752303423488 * e <= d <= 262144 * one,
    ensures
        2 * ((281474976710656 * e) * one) <= x * d,
        2 * (x * d) <= (4398046511104 * one) * one,
{
    assert(x * d >= (1180591620717411303424 * e) * (576460752303423488 * e)) by (nonlinear_arith)
        requires
            x >= 1180591620717411303424 * e,
            d >= 576460752303423488 * e,
            e > 0,
    ;
    assert(2 * ((281474976710656 * e) * one) <= (1180591620717411303424 * e) * (576460752303423488
        * e)) by (nonlinear_arith)
        requires
            one == 1208925819614629174706176 * e,
            e > 0,
    ;
    assert(2 * (x * d) <= (4398046511104 * one) * one) by (nonlinear_arith)
        requires
            0 < x <= 4194304 * one,
            0 < d <= 262144 * one,
            one > 0,
    ;
}

/// The errors of the two products and of the root, taken together.
proof fn lemma_stopping(a: int, d: int, x: int, y: int, r: int, one: int)
    requires
        a > 0,
        d > 0,
        one > 0,
        x >= a > 8388608,
        y > 8388608,
        r > 8388608,
        16777216 * abs(2 * a - x) <= x + 8388608,
        near(x * d, y, one),
        281474976710656 * abs(y * one - r * r) <= 33554432 * (r * (r + 8388608)) + (r + 8388608)
            * (r + 8388608),
    ensures
        1048576 * abs(r * r - 2 * (a * d)) <= 2 * (a * d),
{
    let t = 2 * (a * d);
    let u = x * d;
    let w = y * one;
    let q = r * r;
    assert(t > 0) by (nonlinear_arith)
        requires
            a > 0,
            d > 0,
            t == 2 * (a * d),
    ;
    assert(4194304 * abs(2 * a - x) <= 2 * a);
    lemma_abs_product(2 * a - x, d);
    assert((2 * a - x) * d == t - u) by (nonlinear_arith)
        requires
            t == 2 * (a * d),
            u == x * d,
    ;
    assert(4194304 * abs(t - u) <= t) by (nonlinear_arith)
        requires
            4194304 * abs(2 * a - x) <= 2 * a,
            abs(t - u) == abs(2 * a - x) * d,
            d > 0,
            t == 2 * (a * d),
    ;
    assert((y + 8388608) * one <= 2 * w) by (nonlinear_arith)
        requires
            y > 8388608,
            one > 0,
            w == y * one,
    ;
    assert(8388608 * abs(u - w) <= w);
    assert(r * (r + 8388608) <= 2 * q) by (nonlinear_arith)
        requires
            r > 8388608,
            q == r * r,
    ;
    assert((r + 8388608) * (r + 8388608) <= 4 * q) by (nonlinear_arith)
        requires
            r > 8388608,
            q == r * r,
    ;
    assert(2097152 * abs(w - q) <= q);
}

/// Joint `i` is at rest, under limits of ordinary size, and is told to go to a target of
/// ordinary size that is not where it stands.
pub open spec fn setting_off(l: JerkLimiter, i: int, target: Binary32) -> bool {
    let one = one_unit();
    let p = l.prev_pos@[i];
    &&& steady(l, i)
    &&& l.dt.value() <= one <= 65536 * l.dt.value()
    &&& l.prev_vel@[i].is_zero()
    &&& l.prev_acc@[i].is_zero()
    &&& moderate(l.max_vel@[i])
    &&& moderate(l.max_acc@[i])
    &&& moderate(l.max_jerk@[i])
    &&& target.finite()
    &&& abs(p.value()) <= 65536 * one
    &&& abs(target.value()) <= 65536 * one
    &&& one <= 1048576 * abs(target.value() - p.value())
}

/// A joint at rest sets off towards its target, on either side of it: the velocity that is
/// wanted, the acceleration and the velocity point to the target, and the position does not
/// move away from it.
pub proof fn law_joint_sets_off(l: JerkLimiter, i: int, target: Binary32)
    requires
        0 <= i < MAX_JOINTS,
        setting_off(l, i, target),
    ensures
        ({
            let t = l.tick(i, target);
            let p = l.prev_pos@[i];
            let zero = number_zero();
            if p.value() < target.value() {
                &&& zero.below(l.wanted_velocity(i, target))
                &&& zero.below(t.acceleration)
                &&& zero.below(t.velocity)
                &&& p.not_over(t.position)
            } else {
                &&& l.wanted_velocity(i, target).below(zero)
                &&& t.acceleration.below(zero)
                &&& t.velocity.below(zero)
                &&& t.position.not_over(p)
            }
        }),
{
    let one = one_unit() as int;
    let e = part();
    let p = l.prev_pos@[i];
    let up = p.value() < target.value();
    let zero = number_zero();
    let w = l.wanted_velocity(i, target);
    let a = l.tick(i, target).acceleration;
    let v = l.tick(i, target).velocity;
    lemma_parts();
    lemma_sizes();
    lemma_wanted(l, i, target, up);
    lemma_started(l, i, target, up);
    law_position_orders_values(zero, w);
    law_position_orders_values(w, zero);
    law_position_orders_values(zero, a);
    law_position_orders_values(a, zero);
    law_position_orders_values(zero, v);
    law_position_orders_values(v, zero);
    lemma_zero_value(zero);
    lemma_moved(p, v, l.dt, up);
}

proof fn lemma_zero_value(x: Binary32)
    requires
        x.is_zero(),
    ensures
        x.finite(),
        x.value() == 0,
{
    law_position_orders_values(x, number_zero());
    law_position_orders_values(number_zero(), number_zero().opposite());
}

/// The quotient of two limits of ordinary size.
proof fn lemma_ratio(x: Binary32, y: Binary32)
    requires
        moderate(x),
        moderate(y),
    ensures
        x.quotient(y).finite(),
        1 <= x.quotient(y).value() <= 2147483648 * one_unit(),
{
    let one = one_unit() as int;
    lemma_sizes();
    lemma_parts();
    assert(2 * (1 * y.value()) <= x.value() * one) by (nonlinear_arith)
        requires
            y.value() <= 1048576 * one,
            x.value() >= 2097152,
            one > 0,
    ;
    assert(2 * (x.value() * one) <= (2147483648 * one) * y.value()) by (nonlinear_arith)
        requires
            x.value() <= 1048576 * one,
            one <= 1024 * y.value(),
            one > 0,
    ;
    lemma_quotient_between(x, y, true, 1, 2147483648 * one);
}

/// The velocity that is wanted of a joint that sets off.
proof fn lemma_wanted(l: JerkLimiter, i: int, target: Binary32, up: bool)
    requires
        setting_off(l, i, target),
        up == (l.prev_pos@[i].value() < target.value()),
    ensures
        l.wanted_velocity(i, target).finite(),
        33554432 * part() <= along(l.wanted_velocity(i, target), up) <= 1048576 * one_unit(),
{
    let one = one_unit() as int;
    let e = part();
    let p = l.prev_pos@[i];
    let vmax = l.max_vel@[i];
    let amax = l.max_acc@[i];
    let jmax = l.max_jerk@[i];
    let dist = target.difference(p);
    let tau = approach_time(l.dt, vmax, amax, jmax);
    lemma_sizes();
    lemma_parts();
    lemma_sum_finite(target, p);
    lemma_difference_error(target, p);
    let d = along(dist, up);
    assert(576460752303423488 * e <= d <= 262144 * one);
    lemma_ratio(vmax, amax);
    lemma_ratio(amax, jmax);
    let sum = vmax.quotient(amax).sum(amax.quotient(jmax));
    lemma_sum_finite(vmax.quotient(amax), amax.quotient(jmax));
    lemma_sum_error(vmax.quotient(amax), amax.quotient(jmax));
    law_position_orders_values(sum, l.dt);
    assert(tau.finite() && !tau.negative());
    let t = tau.value();
    assert(l.dt.value() <= t <= 8589934592 * one);
    assert(2 * ((33554432 * e) * t) <= d * one) by (nonlinear_arith)
        requires
            d >= 576460752303423488 * e,
            0 < t <= 8589934592 * one,
            e > 0,
            one > 0,
    ;
    assert(2 * (d * one) <= (34359738368 * one) * t) by (nonlinear_arith)
        requires
            d <= 262144 * one,
            one <= 65536 * t,
            one > 0,
    ;
    lemma_quotient_between(dist, tau, up, 33554432 * e, 34359738368 * one);
    let demand = dist.quotient(tau);
    law_braking_velocity_stops(amax, dist);
    let stopping = braking_velocity(amax, dist);
    let most = velocity_limit(vmax, amax, dist);
    law_position_orders_values(stopping, vmax);
    assert(most.finite());
    assert(33554432 * e <= most.value() <= 1048576 * one);
    lemma_cut(demand, most, up);
}

/// A number that is cut to a positive bound keeps its sign, and is the smaller of the two.
proof fn lemma_cut(x: Binary32, bound: Binary32, up: bool)
    requires
        x.finite(),
        bound.finite(),
        bound.value() > 0,
        along(x, up) > 0,
    ensures
        ({
            let c = x.clamped(bound.opposite(), bound);
            &&& c.finite()
            &&& along(c, up) <= bound.value()
            &&& along(c, up) <= along(x, up)
            &&& along(c, up) == bound.value() || along(c, up) == along(x, up)
        }),
{
    law_position_orders_values(x, bound);
    law_position_orders_values(bound, x);
    law_position_orders_values(x, bound.opposite());
    assert(bound.opposite().value() == -bound.value());
}

/// A zero added to a number, or taken away from it.
proof fn lemma_kept(x: Binary32, zero: Binary32)
    requires
        x.finite(),
        zero.is_zero(),
    ensures
        x.sum(zero).finite(),
        x.sum(zero).value() == x.value(),
        zero.sum(x).finite(),
        zero.sum(x).value() == x.value(),
        x.difference(zero).finite(),
        x.difference(zero).value() == x.value(),
{
    law_sum_with_zero(x, zero);
    law_sum_with_zero(x, zero.opposite());
    law_sum_commutes(x, zero);
    law_position_orders_values(x, x.sum(zero));
    law_position_orders_values(x, x.sum(zero.opposite()));
}

/// The acceleration and the velocity of a joint that sets off.
proof fn lemma_started(l: JerkLimiter, i: int, target: Binary32, up: bool)
    requires
        setting_off(l, i, target),
        l.wanted_velocity(i, target).finite(),
        33554432 * part() <= along(l.wanted_velocity(i, target), up) <= 1048576 * one_unit(),
    ensures
        l.tick(i, target).acceleration.finite(),
        along(l.tick(i, target).acceleration, up) > 0,
        l.tick(i, target).velocity.finite(),
        128 * part() <= along(l.tick(i, target).velocity, up) <= 1048576 * one_unit(),
{
    let one = one_unit() as int;
    let e = part();
    let dt = l.dt;
    let t = dt.value();
    let vmax = l.max_vel@[i];
    let amax = l.max_acc@[i];
    let jmax = l.max_jerk@[i];
    let w = l.wanted_velocity(i, target);
    let ws = along(w, up);
    lemma_sizes();
    lemma_parts();
    lemma_kept(w, l.prev_vel@[i]);
    let change = w.difference(l.prev_vel@[i]);
    assert(2 * ((16777216 * e) * t) <= ws * one) by (nonlinear_arith)
        requires
            ws >= 33554432 * e,
            0 < t <= one,
            e > 0,
    ;
    assert(2 * (ws * one) <= (137438953472 * one) * t) by (nonlinear_arith)
        requires
            ws <= 1048576 * one,
            one <= 65536 * t,
            one > 0,
    ;
    lemma_quotient_between(change, dt, up, 16777216 * e, 137438953472 * one);
    lemma_cut(change.quotient(dt), amax, up);
    let a_des = l.wanted_acceleration(i, target);
    lemma_kept(a_des, l.prev_acc@[i]);
    let j = jmax.value();
    assert(2 * ((9007199254740992 * e) * one) <= j * t) by (nonlinear_arith)
        requires
            one == 1208925819614629174706176 * e,
            j >= 1180591620717411303424 * e,
            t >= 18446744073709551616 * e,
            e > 0,
    ;
    assert(2 * (j * t) <= (2097152 * one) * one) by (nonlinear_arith)
        requires
            j <= 1048576 * one,
            0 < t <= one,
    ;
    lemma_product_between(jmax, dt, true, 9007199254740992 * e, 2097152 * one);
    let step = l.acceleration_step(i);
    lemma_cut(a_des.difference(l.prev_acc@[i]), step, up);
    let d = a_des.difference(l.prev_acc@[i]).clamped(step.opposite(), step);
    lemma_kept(d, l.prev_acc@[i]);
    lemma_cut(d.sum(l.prev_acc@[i]), amax, up);
    let a = l.allowed_acceleration(i, target);
    let size = along(a, up);
    assert(16777216 * e <= size <= 1048576 * one);
    assert(2 * ((128 * e) * one) <= size * t) by (nonlinear_arith)
        requires
            one == 1208925819614629174706176 * e,
            size >= 16777216 * e,
            t >= 18446744073709551616 * e,
            e > 0,
    ;
    assert(2 * (size * t) <= (2097152 * one) * one) by (nonlinear_arith)
        requires
            size <= 1048576 * one,
            0 < t <= one,
    ;
    lemma_product_between(a, dt, up, 128 * e, 2097152 * one);
    lemma_kept(a.product(dt), l.prev_vel@[i]);
    lemma_cut(l.prev_vel@[i].sum(a.product(dt)), vmax, up);
}

/// A joint that moves with the velocity `v` gets no nearer to where it came from.
proof fn lemma_moved(p: Binary32, v: Binary32, dt: Binary32, up: bool)
    requires
        p.finite(),
        v.finite(),
        dt.finite(),
        abs(p.value()) <= 65536 * one_unit(),
        0 < dt.value() <= one_unit() <= 65536 * dt.value(),
        128 * part() <= along(v, up) <= 1048576 * one_unit(),
    ensures
        up ==> p.not_over(p.sum(v.product(dt))),
        !up ==> p.sum(v.product(dt)).not_over(p),
{
    let one = one_unit() as int;
    let e = part();
    let t = dt.value();
    let s = along(v, up);
    let zero = number_zero();
    lemma_sizes();
    lemma_parts();
    assert(2 * (8192 * one) <= s * t) by (nonlinear_arith)
        requires
            one == 1208925819614629174706176 * e,
            s >= 128 * e,
            t >= 18446744073709551616 * e,
            e > 8388608,
    ;
    assert(2 * (s * t) <= (2097152 * one) * one) by (nonlinear_arith)
        requires
            s <= 1048576 * one,
            0 < t <= one,
    ;
    lemma_product_between(v, dt, up, 8192, 2097152 * one);
    let m = v.product(dt);
    lemma_zero_value(zero);
    law_position_orders_values(zero, m);
    law_position_orders_values(m, zero);
    law_zero_sum(p);
    lemma_sum_finite(p, m);
    law_sum_commutes(p, m);
    if up {
        law_sum_monotone(zero, m, p);
    } else {
        law_sum_monotone(m, zero, p);
    }
}

/// `x` does not touch the limit `bound`, or there is none.
pub open spec fn inside(x: Binary32, bound: Binary32) -> bool {
    bound.finite() ==> bound.opposite().below(x) && x.below(bound)
}

/// The position changes by the velocity times the period, up to rounding. Products of two
/// numbers are counted in squares of units.
pub proof fn law_position_follows_velocity(l: JerkLimiter, i: int, target: Binary32)
    requires
        0 <= i < MAX_JOINTS,
        steady(l, i),
        l.tick(i, target).position.finite(),
    ensures
        ({
            let one = one_unit() as int;
            let p = l.prev_pos@[i].value();
            let q = l.tick(i, target).position.value();
            let v = l.tick(i, target).velocity.value();
            let t = l.dt.value();
            16777216 * abs((q - p) * one - v * t) <= abs(q) * one + 2 * abs(v * t) + 33554432 * one
        }),
{
    let v = l.tick(i, target).velocity;
    lemma_sizes();
    lemma_sum_error(l.prev_pos@[i], v.product(l.dt));
    lemma_product_error(v, l.dt);
    lemma_integrated(
        l.prev_pos@[i].value(),
        v.value() * l.dt.value(),
        v.product(l.dt).value(),
        l.tick(i, target).position.value(),
        one_unit() as int,
    );
}

/// The velocity changes by the acceleration times the period, up to rounding, unless it
/// touches its limit.
pub proof fn law_velocity_follows_acceleration(l: JerkLimiter, i: int, target: Binary32)
    requires
        0 <= i < MAX_JOINTS,
        steady(l, i),
        l.tick(i, target).velocity.finite(),
        inside(l.tick(i, target).velocity, l.max_vel@[i]),
    ensures
        ({
            let one = one_unit() as int;
            let before = l.prev_vel@[i].value();
            let v = l.tick(i, target).velocity.value();
            let a = l.tick(i, target).acceleration.value();
            let t = l.dt.value();
            16777216 * abs((v - before) * one - a * t) <= abs(v) * one + 2 * abs(a * t) + 33554432
                * one
        }),
{
    let a = l.tick(i, target).acceleration;
    lemma_sizes();
    assert(l.tick(i, target).velocity == l.prev_vel@[i].sum(a.product(l.dt)));
    lemma_sum_error(l.prev_vel@[i], a.product(l.dt));
    lemma_product_error(a, l.dt);
    lemma_integrated(
        l.prev_vel@[i].value(),
        a.value() * l.dt.value(),
        a.product(l.dt).value(),
        l.tick(i, target).velocity.value(),
        one_unit() as int,
    );
}

proof fn lemma_integrated(p: int, exact: int, m: int, q: int, one: int)
    requires
        one > 0,
        near(exact, m, one),
        near(p + m, q, 1),
    ensures
        16777216 * abs((q - p) * one - exact) <= abs(q) * one + 2 * abs(exact) + 33554432 * one,
{
    lemma_near_bound(exact, m, one);
    lemma_abs_product(q - p - m, one);
    assert((q - p - m) * one == (q - p) * one - m * one) by (nonlinear_arith);
    assert((abs(m) + 8388608) * one == abs(m) * one + 8388608 * one) by (nonlinear_arith);
    let off = abs(q - p - m);
    assert(16777216 * (off * one) <= abs(q) * one + 8388608 * one) by (nonlinear_arith)
        requires
            16777216 * off <= abs(q) + 8388608,
            one > 0,
    ;
}

/// The acceleration that is wanted brings the joint to the wanted velocity within one period,
/// up to rounding, unless it touches its limit.
pub proof fn law_wanted_acceleration_reaches_velocity(l: JerkLimiter, i: int, target: Binary32)
    requires
        0 <= i < MAX_JOINTS,
        steady(l, i),
        l.wanted_velocity(i, target).difference(l.prev_vel@[i]).finite(),
        l.wanted_acceleration(i, target).finite(),
        inside(l.wanted_acceleration(i, target), l.max_acc@[i]),
    ensures
        ({
            let one = one_unit() as int;
            let before = l.prev_vel@[i].value();
            let w = l.wanted_velocity(i, target).value();
            let a = l.wanted_acceleration(i, target).value();
            let t = l.dt.value();
            16777216 * abs((w - before) * one - a * t) <= 3 * abs(a * t) + 16777216 * (t + one)
        }),
{
    let one = one_unit() as int;
    let w = l.wanted_velocity(i, target);
    let before = l.prev_vel@[i];
    let change = w.difference(before);
    let a = l.wanted_acceleration(i, target);
    let t = l.dt.value();
    lemma_sizes();
    assert(a == change.quotient(l.dt));
    lemma_difference_error(w, before);
    lemma_quotient_error(change, l.dt);
    let c = change.value();
    let exact = w.value() - before.value();
    lemma_abs_product(exact - c, one);
    assert((exact - c) * one == exact * one - c * one) by (nonlinear_arith);
    lemma_abs_product(c, one);
    lemma_abs_product(a.value(), t);
    assert((abs(a.value()) + 8388608) * t == abs(a.value()) * t + 8388608 * t)
        by (nonlinear_arith);
    let off = abs(exact - c);
    assert(16777216 * (off * one) <= abs(c) * one + 8388608 * one) by (nonlinear_arith)
        requires
            16777216 * off <= abs(c) + 8388608,
            one > 0,
    ;
}

/// The acceleration becomes the one that is wanted, up to rounding, where that is within one
/// step of the one before; else it comes nearer to it by one step. The step is the jerk limit
/// times the period. Without a jerk limit it becomes the one that is wanted at once.
pub proof fn law_acceleration_steps_towards_wanted(l: JerkLimiter, i: int, target: Binary32)
    requires
        0 <= i < MAX_JOINTS,
        steady(l, i),
        l.usable(i),
        l.wanted_acceleration(i, target).finite(),
        l.tick(i, target).acceleration.finite(),
        inside(l.tick(i, target).acceleration, l.max_acc@[i]),
    ensures
        ({
            let a = l.tick(i, target).acceleration;
            let wanted = l.wanted_acceleration(i, target);
            let before = l.prev_acc@[i];
            let change = wanted.difference(before);
            let jmax = l.max_jerk@[i];
            let step = jmax.product(l.dt);
            if jmax.finite() {
                &&& step.opposite().not_over(change) && change.not_over(step) && change.finite()
                    ==> 16777216 * abs(a.value() - wanted.value()) <= abs(a.value()) + abs(
                    change.value(),
                ) + 16777216
                &&& step.below(change) ==> near(before.value() + step.value(), a.value(), 1)
                &&& change.below(step.opposite()) ==> near(
                    before.value() - step.value(),
                    a.value(),
                    1,
                )
            } else {
                a == wanted
            }
        }),
{
    let a = l.tick(i, target).acceleration;
    let wanted = l.wanted_acceleration(i, target);
    let before = l.prev_acc@[i];
    let change = wanted.difference(before);
    let step = l.acceleration_step(i);
    if l.max_jerk@[i].finite() {
        let d = change.clamped(step.opposite(), step);
        assert(a == d.sum(before));
        lemma_sum_error(d, before);
        assert(step.opposite().value() == -step.value());
        if change.finite() {
            lemma_difference_error(wanted, before);
        }
    }
}

} // verus!
