//! What the limiter does with a command: it follows the command in either direction alike, and
//! as far as the limits of the joint allow.

use crate::io_bridge::command_vector::MAX_JOINTS;
use crate::io_bridge::jerk_limiter::{
    approach_time, approachable, braking_velocity, cut_to, is_bound, lemma_scaled_defined,
    number_two, overlaid, steady, velocity_limit, JerkLimiter,
};
use crate::numeric::binary32::{
    law_sum_commutes, law_sum_monotone, law_sum_with_zero, law_zero_sum, lemma_product_defined,
    lemma_quotient_defined, lemma_root_not_negative, lemma_sum_defined,
    number_zero, signed, Binary32, FRACTION_BITS, INFINITY_BITS, SMALLEST_EXPONENT,
};
use crate::numeric::mirror::{
    lemma_clamped_mirrored, lemma_difference_mirrored, lemma_mirrored, lemma_product_mirrored,
    lemma_quotient_mirrored, lemma_sum_mirrored, mirrored,
};
use crate::numeric::rounding::lemma_rounded_exists;
use vstd::arithmetic::power2::*;
use vstd::prelude::*;

verus! {

/// Joint `i` is in opposite states in the two limiters, under the same limits.
pub open spec fn opposed(l: JerkLimiter, m: JerkLimiter, i: int) -> bool {
    &&& l.dt == m.dt
    &&& l.max_vel@[i] == m.max_vel@[i]
    &&& l.max_acc@[i] == m.max_acc@[i]
    &&& l.max_jerk@[i] == m.max_jerk@[i]
    &&& mirrored(l.prev_pos@[i], m.prev_pos@[i])
    &&& mirrored(l.prev_vel@[i], m.prev_vel@[i])
    &&& mirrored(l.prev_acc@[i], m.prev_acc@[i])
}

/// The limiter knows no preferred direction: from the opposite state, the opposite target
/// gives the opposite velocity, acceleration and position.
pub proof fn law_tick_is_odd(
    l: JerkLimiter,
    m: JerkLimiter,
    i: int,
    target: Binary32,
    other: Binary32,
)
    requires
        0 <= i < MAX_JOINTS,
        l.usable(i),
        steady(l, i),
        target.finite(),
        approachable(l, i, target),
        opposed(l, m, i),
        mirrored(target, other),
    ensures
        mirrored(l.wanted_velocity(i, target), m.wanted_velocity(i, other)),
        mirrored(l.tick(i, target).velocity, m.tick(i, other).velocity),
        mirrored(l.tick(i, target).acceleration, m.tick(i, other).acceleration),
        mirrored(l.tick(i, target).position, m.tick(i, other).position),
{
    let dist = target.difference(l.prev_pos@[i]);
    let gap = other.difference(m.prev_pos@[i]);
    let jmax = l.max_jerk@[i];
    let step = l.acceleration_step(i);
    let p = l.prev_acc@[i];
    lemma_wanted_mirrored(l, m, i, target, other);
    let v_des = l.wanted_velocity(i, target);
    let w_des = m.wanted_velocity(i, other);
    lemma_sum_defined(v_des, l.prev_vel@[i].opposite());
    lemma_difference_mirrored(v_des, l.prev_vel@[i], w_des, m.prev_vel@[i]);
    let change = v_des.difference(l.prev_vel@[i]);
    let turn = w_des.difference(m.prev_vel@[i]);
    lemma_quotient_defined(change, l.dt);
    lemma_quotient_mirrored(change, turn, l.dt);
    lemma_cut_mirrored(change.quotient(l.dt), turn.quotient(l.dt), l.max_acc@[i]);
    let a_des = l.wanted_acceleration(i, target);
    let b_des = m.wanted_acceleration(i, other);
    assert(mirrored(a_des, b_des));
    lemma_sum_defined(a_des, p.opposite());
    lemma_difference_mirrored(a_des, p, b_des, m.prev_acc@[i]);
    let d = a_des.difference(p).clamped(step.opposite(), step);
    let e = b_des.difference(m.prev_acc@[i]).clamped(step.opposite(), step);
    if jmax.finite() {
        lemma_product_defined(jmax, l.dt);
        lemma_clamped_mirrored(a_des.difference(p), b_des.difference(m.prev_acc@[i]), step);
        lemma_sum_defined(d, p);
        lemma_sum_mirrored(d, p, e, m.prev_acc@[i]);
        lemma_cut_mirrored(d.sum(p), e.sum(m.prev_acc@[i]), l.max_acc@[i]);
    } else {
        lemma_cut_mirrored(a_des, b_des, l.max_acc@[i]);
    }
    let a = l.allowed_acceleration(i, target);
    let b = m.allowed_acceleration(i, other);
    assert(mirrored(a, b));
    lemma_scaled_defined(a, l.dt);
    lemma_product_mirrored(a, b, l.dt);
    lemma_sum_defined(l.prev_vel@[i], a.product(l.dt));
    lemma_sum_mirrored(l.prev_vel@[i], a.product(l.dt), m.prev_vel@[i], b.product(l.dt));
    lemma_cut_mirrored(
        l.prev_vel@[i].sum(a.product(l.dt)),
        m.prev_vel@[i].sum(b.product(l.dt)),
        l.max_vel@[i],
    );
    let v = l.tick(i, target).velocity;
    let w = m.tick(i, other).velocity;
    lemma_scaled_defined(v, l.dt);
    lemma_product_mirrored(v, w, l.dt);
    lemma_sum_defined(l.prev_pos@[i], v.product(l.dt));
    lemma_sum_mirrored(l.prev_pos@[i], v.product(l.dt), m.prev_pos@[i], w.product(l.dt));
}

proof fn lemma_cut_mirrored(x: Binary32, y: Binary32, bound: Binary32)
    requires
        mirrored(x, y),
        bound.finite() ==> is_bound(bound),
    ensures
        mirrored(cut_to(x, bound), cut_to(y, bound)),
{
    if bound.finite() {
        lemma_clamped_mirrored(x, y, bound);
    }
}

/// The velocities that are wanted from opposite states are opposite.
proof fn lemma_wanted_mirrored(
    l: JerkLimiter,
    m: JerkLimiter,
    i: int,
    target: Binary32,
    other: Binary32,
)
    requires
        0 <= i < MAX_JOINTS,
        l.usable(i),
        steady(l, i),
        target.finite(),
        approachable(l, i, target),
        opposed(l, m, i),
        mirrored(target, other),
    ensures
        !l.wanted_velocity(i, target).nan(),
        mirrored(l.wanted_velocity(i, target), m.wanted_velocity(i, other)),
{
    let dist = target.difference(l.prev_pos@[i]);
    let gap = other.difference(m.prev_pos@[i]);
    let tau = approach_time(l.dt, l.max_vel@[i], l.max_acc@[i], l.max_jerk@[i]);
    let most = velocity_limit(l.max_vel@[i], l.max_acc@[i], dist);
    lemma_sum_defined(target, l.prev_pos@[i].opposite());
    lemma_difference_mirrored(target, l.prev_pos@[i], other, m.prev_pos@[i]);
    lemma_mirrored(dist, gap);
    lemma_quotient_defined(dist, tau);
    lemma_quotient_mirrored(dist, gap, tau);
    assert(most == velocity_limit(m.max_vel@[i], m.max_acc@[i], gap));
    lemma_limit_is_bound(l, i, dist);
    lemma_cut_mirrored(dist.quotient(tau), gap.quotient(tau), most);
}

/// The velocity that is allowed at a distance bounds an absolute value.
proof fn lemma_limit_is_bound(l: JerkLimiter, i: int, dist: Binary32)
    requires
        l.usable(i),
    ensures
        ({
            let most = velocity_limit(l.max_vel@[i], l.max_acc@[i], dist);
            most.finite() ==> is_bound(most)
        }),
{
    lemma_root_not_negative(
        number_two().product(l.max_acc@[i]).product(signed(false, dist.absolute())),
    );
}

/// The velocity that is wanted is the distance to the target over the time of the approach,
/// wherever that lies within the velocity that is allowed; beyond it, it is the allowed
/// velocity in the direction of the target.
pub proof fn law_wanted_velocity_is_the_demand(l: JerkLimiter, i: int, target: Binary32)
    requires
        0 <= i < MAX_JOINTS,
        l.usable(i),
        steady(l, i),
        target.finite(),
        approachable(l, i, target),
    ensures
        ({
            let dist = target.difference(l.prev_pos@[i]);
            let demand = dist.quotient(
                approach_time(l.dt, l.max_vel@[i], l.max_acc@[i], l.max_jerk@[i]),
            );
            let most = velocity_limit(l.max_vel@[i], l.max_acc@[i], dist);
            let wanted = l.wanted_velocity(i, target);
            &&& !wanted.nan()
            &&& !most.finite() ==> wanted.same_number(demand)
            &&& most.opposite().not_over(demand) && demand.not_over(most) ==> wanted.same_number(
                demand,
            )
            &&& most.finite() && most.below(demand) ==> wanted.same_number(most)
            &&& most.finite() && demand.below(most.opposite()) ==> wanted.same_number(
                most.opposite(),
            )
        }),
{
    let dist = target.difference(l.prev_pos@[i]);
    let tau = approach_time(l.dt, l.max_vel@[i], l.max_acc@[i], l.max_jerk@[i]);
    lemma_sum_defined(target, l.prev_pos@[i].opposite());
    lemma_quotient_defined(dist, tau);
    lemma_limit_is_bound(l, i, dist);
}

/// `x` is no limit, or a positive one.
pub open spec fn positive_limit(x: Binary32) -> bool {
    x.finite() ==> number_zero().below(x)
}

/// The approach takes at least one period, at least the time in which the joint comes to its
/// velocity limit, and at least the time in which it comes to its acceleration limit. It takes
/// no longer than one period or the sum of those times. A time that rests on a missing limit
/// counts for nothing.
pub proof fn law_approach_time(dt: Binary32, vmax: Binary32, amax: Binary32, jmax: Binary32)
    requires
        dt.finite(),
        number_zero().below(dt),
        positive_limit(vmax),
        positive_limit(amax),
        positive_limit(jmax),
    ensures
        ({
            let tau = approach_time(dt, vmax, amax, jmax);
            let up = vmax.quotient(amax);
            let ramp = amax.quotient(jmax);
            let speeds = vmax.finite() && amax.finite();
            let ramps = amax.finite() && jmax.finite();
            &&& dt.not_over(tau)
            &&& speeds ==> up.not_over(tau)
            &&& ramps ==> ramp.not_over(tau)
            &&& !speeds && !ramps ==> tau == dt
            &&& speeds && !ramps && dt.below(tau) ==> tau.same_number(up)
            &&& !speeds && ramps && dt.below(tau) ==> tau.same_number(ramp)
            &&& speeds && ramps && dt.below(tau) ==> tau.same_number(up.sum(ramp))
        }),
{
    let up = vmax.quotient(amax);
    let ramp = amax.quotient(jmax);
    let zero = number_zero();
    law_sum_with_zero(zero, zero);
    if vmax.finite() && amax.finite() {
        lemma_quotient_defined(vmax, amax);
        lemma_quotient_not_negative(vmax, amax);
        lemma_with_zero(up);
    }
    if amax.finite() && jmax.finite() {
        lemma_quotient_defined(amax, jmax);
        lemma_quotient_not_negative(amax, jmax);
        lemma_with_zero(ramp);
        if vmax.finite() {
            if up.finite() || ramp.finite() {
                lemma_sum_defined(up, ramp);
            }
            law_sum_monotone(zero, up, ramp);
            law_sum_commutes(up, ramp);
            law_sum_monotone(zero, ramp, up);
        }
    }
}

/// A zero adds nothing.
proof fn lemma_with_zero(x: Binary32)
    requires
        !x.nan(),
    ensures
        x.sum(number_zero()).same_number(x),
        number_zero().sum(x).same_number(x),
{
    if x.finite() {
        law_sum_with_zero(x, number_zero());
        law_zero_sum(x);
    }
}

/// The quotient of positive numbers is not negative.
proof fn lemma_quotient_not_negative(x: Binary32, y: Binary32)
    requires
        x.finite(),
        y.finite(),
        number_zero().below(x),
        number_zero().below(y),
    ensures
        !x.quotient(y).nan(),
        number_zero().not_over(x.quotient(y)),
{
    lemma_quotient_defined(x, y);
    lemma_rounded_exists(
        FRACTION_BITS as nat,
        INFINITY_BITS as nat,
        x.size() * pow2(SMALLEST_EXPONENT as nat),
        y.size(),
    );
}

/// Where the acceleration is limited, the velocity that is allowed at a distance is the
/// smaller of the velocity limit and of the velocity from which the joint still stops; else it
/// is the velocity limit.
pub proof fn law_allowed_velocity(vmax: Binary32, amax: Binary32, dist: Binary32)
    requires
        !vmax.nan(),
        !braking_velocity(amax, dist).nan(),
    ensures
        ({
            let most = velocity_limit(vmax, amax, dist);
            let stopping = braking_velocity(amax, dist);
            &&& !amax.finite() ==> most == vmax
            &&& amax.finite() ==> most.not_over(vmax) && most.not_over(stopping)
            &&& most.same_number(vmax) || most.same_number(stopping)
        }),
{
}

/// The position that is commanded is the one that the motion reaches, wherever that lies
/// within the geometric limits; beyond one of them it is that limit.
pub proof fn law_commanded_position(
    l: JerkLimiter,
    i: int,
    target: Binary32,
    limits: Seq<(Binary32, Binary32)>,
)
    requires
        0 <= i,
        i < limits.len() ==> limits[i].0.not_over(limits[i].1),
    ensures
        ({
            let q = l.tick(i, target).position;
            let c = l.commanded(i, target, limits);
            &&& i >= limits.len() ==> c == q
            &&& i < limits.len() && limits[i].0.not_over(q) && q.not_over(limits[i].1) ==> c == q
            &&& i < limits.len() && q.below(limits[i].0) ==> c == limits[i].0
            &&& i < limits.len() && limits[i].1.below(q) ==> c == limits[i].1
        }),
{
}

/// Limits that are set replace those of the first joints, one for one; the other joints keep
/// theirs.
pub proof fn law_limits_replace(base: Seq<Binary32>, over: Seq<Binary32>, i: int)
    requires
        0 <= i < base.len(),
    ensures
        overlaid(base, over).len() == base.len(),
        i < over.len() ==> overlaid(base, over)[i] == over[i],
        i >= over.len() ==> overlaid(base, over)[i] == base[i],
{
}

} // verus!
