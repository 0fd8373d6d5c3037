//! Mechanical shock limiter.

use crate::io_bridge::command_vector::{CommandVector, MAX_JOINTS};
use crate::io_bridge::vector_sanitizer::limits_ok;
use crate::io_bridge::wire::{copy_numbers, repeated, shorter};
use crate::numeric::accuracy::{
    abs, huge, lemma_abs_product, lemma_difference_error, lemma_near_bound, lemma_product_error,
    lemma_product_finite, lemma_quotient_error, lemma_quotient_finite, lemma_sizes,
    lemma_sum_error, lemma_sum_finite, near, one_unit,
};
use crate::numeric::binary32::{
    law_clamped_in_interval, law_sum_monotone, law_sum_with_zero, law_zero_sum,
    lemma_product_defined, lemma_quotient_defined, lemma_root_not_negative, lemma_sum_defined,
    number_zero, signed, Binary32, INFINITY_BITS,
};
use crate::numeric::rounding::lemma_magnitude_compose;
use vstd::arithmetic::power2::*;
use vstd::prelude::*;

verus! {

/// Sampling period used where none is given: 0.01 s.
pub const DEFAULT_PERIOD_BITS: u32 = 0x3c23_d70a;

/// The number 2.
pub const TWO_BITS: u32 = 0x4000_0000;

/// Limits the third derivative (jerk) of the command curve.
///
/// If the acceleration changes between two frames by more than the machine
/// tolerates, the curve is smoothed and slowed before it reaches the hardware.
pub struct JerkLimiter {
    pub dt: Binary32,
    pub prev_pos: [Binary32; MAX_JOINTS],
    pub prev_vel: [Binary32; MAX_JOINTS],
    pub prev_acc: [Binary32; MAX_JOINTS],
    pub max_vel: [Binary32; MAX_JOINTS],
    pub max_acc: [Binary32; MAX_JOINTS],
    pub max_jerk: [Binary32; MAX_JOINTS],
}

pub open spec fn number_two() -> Binary32 {
    Binary32 { bits: TWO_BITS }
}

/// The number 2 is twice the number 1.
pub proof fn lemma_two()
    ensures
        number_two().finite(),
        !number_two().negative(),
        number_two().value() == 2 * one_unit(),
        number_two().size() == 2 * one_unit(),
        one_unit() > 0,
{
    lemma2_to64();
    assert(pow2(23) == 8388608);
    lemma_magnitude_compose(23, 127, 8388608);
    lemma_pow2_adds(23, 127);
    lemma_pow2_unfold(150);
    lemma_pow2_pos(149);
    assert(127 * 8388608 + 8388608 == TWO_BITS as int);
}

/// `x` bounds an absolute value: the interval from `-x` to `x` is one.
pub open spec fn is_bound(x: Binary32) -> bool {
    x.opposite().not_over(x)
}

/// `x` cut to the interval from `-bound` to `bound`, where `bound` is finite.
pub open spec fn cut_to(x: Binary32, bound: Binary32) -> Binary32 {
    if bound.finite() {
        x.clamped(bound.opposite(), bound)
    } else {
        x
    }
}

/// Time constant of the approach: large enough for the acceleration and the jerk to
/// follow the demand without overshoot. Without limits it is `dt`, and the target is
/// reached in one tick.
pub open spec fn approach_time(dt: Binary32, vmax: Binary32, amax: Binary32, jmax: Binary32)
    -> Binary32 {
    let from_vel = if vmax.finite() && amax.finite() {
        vmax.quotient(amax)
    } else {
        number_zero()
    };
    let from_jerk = if amax.finite() && jmax.finite() {
        amax.quotient(jmax)
    } else {
        number_zero()
    };
    from_vel.sum(from_jerk).larger_of(dt)
}

/// The velocity from which a joint that brakes with `amax` stops within the distance `dist`.
pub open spec fn braking_velocity(amax: Binary32, dist: Binary32) -> Binary32 {
    number_two().product(amax).product(signed(false, dist.absolute())).root()
}

/// Largest velocity that is allowed at the distance `dist` from the target: the
/// velocity limit, or what still allows to brake in time.
pub open spec fn velocity_limit(vmax: Binary32, amax: Binary32, dist: Binary32) -> Binary32 {
    if amax.finite() {
        vmax.smaller_of(braking_velocity(amax, dist))
    } else {
        vmax
    }
}

/// State of a joint after a tick.
pub struct JointTick {
    pub position: Binary32,
    pub velocity: Binary32,
    pub acceleration: Binary32,
}

impl JerkLimiter {
    /// The velocity wanted to approach `target`.
    pub open spec fn wanted_velocity(self, i: int, target: Binary32) -> Binary32 {
        let dist = target.difference(self.prev_pos@[i]);
        let tau = approach_time(self.dt, self.max_vel@[i], self.max_acc@[i], self.max_jerk@[i]);
        cut_to(dist.quotient(tau), velocity_limit(self.max_vel@[i], self.max_acc@[i], dist))
    }

    /// The acceleration wanted to reach that velocity.
    pub open spec fn wanted_acceleration(self, i: int, target: Binary32) -> Binary32 {
        cut_to(
            self.wanted_velocity(i, target).difference(self.prev_vel@[i]).quotient(self.dt),
            self.max_acc@[i],
        )
    }

    /// By how much the acceleration may change in one tick.
    pub open spec fn acceleration_step(self, i: int) -> Binary32 {
        self.max_jerk@[i].product(self.dt)
    }

    /// The acceleration that the jerk limit allows.
    pub open spec fn allowed_acceleration(self, i: int, target: Binary32) -> Binary32 {
        let wanted = self.wanted_acceleration(i, target);
        let step = self.acceleration_step(i);
        let previous = self.prev_acc@[i];
        let stepped = if self.max_jerk@[i].finite() {
            wanted.difference(previous).clamped(step.opposite(), step).sum(previous)
        } else {
            wanted
        };
        cut_to(stepped, self.max_acc@[i])
    }

    /// State of joint `i` after a tick with the command `target`, before the
    /// geometric limits.
    pub open spec fn tick(self, i: int, target: Binary32) -> JointTick {
        let acceleration = self.allowed_acceleration(i, target);
        let velocity = cut_to(
            self.prev_vel@[i].sum(acceleration.product(self.dt)),
            self.max_vel@[i],
        );
        JointTick {
            position: self.prev_pos@[i].sum(velocity.product(self.dt)),
            velocity,
            acceleration,
        }
    }

    /// Position commanded to joint `i`.
    pub open spec fn commanded(
        self,
        i: int,
        target: Binary32,
        limits: Seq<(Binary32, Binary32)>,
    ) -> Binary32 {
        let q = self.tick(i, target).position;
        if i < limits.len() {
            q.clamped(limits[i].0, limits[i].1)
        } else {
            q
        }
    }

    /// The finite limits of joint `i` bound absolute values.
    pub open spec fn usable(self, i: int) -> bool {
        &&& self.max_vel@[i].finite() ==> is_bound(self.max_vel@[i])
        &&& self.max_acc@[i].finite() ==> is_bound(self.max_acc@[i])
        &&& self.max_jerk@[i].finite() ==> is_bound(self.acceleration_step(i))
    }

    /// The limiter with the sampling period `dt` in seconds, or 0.01 where `dt` is
    /// not positive. Until limits are set, nothing is limited.
    pub fn new(dt: Binary32) -> (l: JerkLimiter)
        ensures
            l.dt == if number_zero().below(dt) {
                dt
            } else {
                (Binary32 { bits: DEFAULT_PERIOD_BITS })
            },
            l.prev_pos@ == Seq::new(MAX_JOINTS as nat, |i: int| number_zero()),
            l.prev_vel@ == Seq::new(MAX_JOINTS as nat, |i: int| number_zero()),
            l.prev_acc@ == Seq::new(MAX_JOINTS as nat, |i: int| number_zero()),
            l.max_vel@ == Seq::new(MAX_JOINTS as nat, |i: int| Binary32 { bits: INFINITY_BITS }),
            l.max_acc@ == Seq::new(MAX_JOINTS as nat, |i: int| Binary32 { bits: INFINITY_BITS }),
            l.max_jerk@ == Seq::new(MAX_JOINTS as nat, |i: int| Binary32 { bits: INFINITY_BITS }),
            number_zero().below(l.dt),
            forall|i: int| 0 <= i < MAX_JOINTS ==> l.usable(i),
    {
        let dt: Binary32 = if Binary32::zero().less_than(dt) {
            dt
        } else {
            Binary32 { bits: DEFAULT_PERIOD_BITS }
        };
        let unlimited: Binary32 = Binary32 { bits: INFINITY_BITS };
        JerkLimiter {
            dt,
            prev_pos: repeated(Binary32::zero()),
            prev_vel: repeated(Binary32::zero()),
            prev_acc: repeated(Binary32::zero()),
            max_vel: repeated(unlimited),
            max_acc: repeated(unlimited),
            max_jerk: repeated(unlimited),
        }
    }

    /// Sets the physical tolerances of each joint, in rad/s, rad/s² and rad/s³.
    /// Joints beyond the end of a slice keep the limit that they have.
    pub fn set_limits(
        &mut self,
        max_vel: &[Binary32],
        max_acc: &[Binary32],
        max_jerk: &[Binary32],
    )
        ensures
            final(self).dt == old(self).dt,
            final(self).prev_pos == old(self).prev_pos,
            final(self).prev_vel == old(self).prev_vel,
            final(self).prev_acc == old(self).prev_acc,
            final(self).max_vel@ == overlaid(old(self).max_vel@, max_vel@),
            final(self).max_acc@ == overlaid(old(self).max_acc@, max_acc@),
            final(self).max_jerk@ == overlaid(old(self).max_jerk@, max_jerk@),
    {
        copy_limit(&mut self.max_vel, max_vel);
        copy_limit(&mut self.max_acc, max_acc);
        copy_limit(&mut self.max_jerk, max_jerk);
    }

    /// Whether the finite limits of joint `i` bound absolute values.
    pub fn is_usable(&self, i: usize) -> (r: bool)
        requires
            i < MAX_JOINTS,
        ensures
            r == self.usable(i as int),
    {
        let v: Binary32 = self.max_vel[i];
        let a: Binary32 = self.max_acc[i];
        let j: Binary32 = self.max_jerk[i];
        let step: Binary32 = j.times(self.dt);
        (!v.is_finite() || v.negated().at_most(v)) && (!a.is_finite() || a.negated().at_most(a))
            && (!j.is_finite() || step.negated().at_most(step))
    }

    /// State of joint `i` after a tick with the command `target`, before the
    /// geometric limits.
    fn advance(&self, i: usize, target: Binary32) -> (t: JointTick)
        requires
            i < MAX_JOINTS,
            self.usable(i as int),
        ensures
            t == self.tick(i as int, target),
    {
        let dt: Binary32 = self.dt;
        let vmax: Binary32 = self.max_vel[i];
        let amax: Binary32 = self.max_acc[i];
        let jmax: Binary32 = self.max_jerk[i];
        let dist: Binary32 = target.minus(self.prev_pos[i]);

        let from_vel: Binary32 = if vmax.is_finite() && amax.is_finite() {
            vmax.divided_by(amax)
        } else {
            Binary32::zero()
        };
        let from_jerk: Binary32 = if amax.is_finite() && jmax.is_finite() {
            amax.divided_by(jmax)
        } else {
            Binary32::zero()
        };
        let tau: Binary32 = from_vel.plus(from_jerk).larger(dt);

        let mut v_lim: Binary32 = vmax;
        if amax.is_finite() {
            let two: Binary32 = Binary32 { bits: TWO_BITS };
            let v_stop: Binary32 = two.times(amax).times(dist.absolute_value()).square_root();
            v_lim = v_lim.smaller(v_stop);
        }
        let v_des: Binary32 = clamp_to(dist.divided_by(tau), v_lim);
        let a_des: Binary32 = clamp_to(v_des.minus(self.prev_vel[i]).divided_by(dt), amax);

        let mut a: Binary32 = a_des;
        if jmax.is_finite() {
            let step: Binary32 = jmax.times(dt);
            a = a_des.minus(self.prev_acc[i]).clamp(step.negated(), step).plus(self.prev_acc[i]);
        }
        a = clamp_to(a, amax);

        let v: Binary32 = clamp_to(self.prev_vel[i].plus(a.times(dt)), vmax);
        let q: Binary32 = self.prev_pos[i].plus(v.times(dt));
        JointTick { position: q, velocity: v, acceleration: a }
    }

    /// Smoothes the command curve in place: for each joint, the velocity, the
    /// acceleration and the change of the acceleration between two frames are
    /// limited, and the result is cut to the geometric limits.
    pub fn limit(&mut self, command: &mut CommandVector, limits: &[(Binary32, Binary32)])
        requires
            limits_ok(limits@, shorter(old(command).len as nat, MAX_JOINTS as nat)),
            forall|i: int|
                0 <= i < MAX_JOINTS && i < old(command).len ==> #[trigger] old(self).usable(i),
        ensures
            final(self).dt == old(self).dt,
            final(self).max_vel == old(self).max_vel,
            final(self).max_acc == old(self).max_acc,
            final(self).max_jerk == old(self).max_jerk,
            final(command).len == old(command).len,
            forall|i: int|
                0 <= i < MAX_JOINTS && i < old(command).len ==> #[trigger] final(
                    command).entries()[i] == old(self).commanded(
                    i,
                    old(command).entries()[i],
                    limits@,
                ),
            forall|i: int|
                0 <= i < MAX_JOINTS && i < old(command).len ==> #[trigger] final(
                    self).prev_pos@[i] == final(command).entries()[i],
            forall|i: int|
                0 <= i < MAX_JOINTS && i < old(command).len ==> #[trigger] final(
                    self).prev_vel@[i] == old(self).tick(i, old(command).entries()[i]).velocity,
            forall|i: int|
                0 <= i < MAX_JOINTS && i < old(command).len ==> #[trigger] final(
                    self).prev_acc@[i] == old(self).tick(i, old(command).entries()[i]).acceleration,
            forall|i: int|
                old(command).len <= i < MAX_JOINTS ==> #[trigger] final(command).entries()[i]
                    == old(command).entries()[i],
            forall|i: int|
                old(command).len <= i < MAX_JOINTS ==> #[trigger] final(self).prev_pos@[i]
                    == old(self).prev_pos@[i],
            forall|i: int|
                old(command).len <= i < MAX_JOINTS ==> #[trigger] final(self).prev_vel@[i]
                    == old(self).prev_vel@[i],
            forall|i: int|
                old(command).len <= i < MAX_JOINTS ==> #[trigger] final(self).prev_acc@[i]
                    == old(self).prev_acc@[i],
    {
        let n: usize = if command.len < MAX_JOINTS {
            command.len
        } else {
            MAX_JOINTS
        };
        let mut i: usize = 0;
        while i < n
            invariant
                i <= n <= MAX_JOINTS,
                n == shorter(old(command).len as nat, MAX_JOINTS as nat),
                limits_ok(limits@, n as nat),
                forall|j: int| 0 <= j < n ==> #[trigger] old(self).usable(j),
                self.dt == old(self).dt,
                self.max_vel == old(self).max_vel,
                self.max_acc == old(self).max_acc,
                self.max_jerk == old(self).max_jerk,
                command.len == old(command).len,
                forall|j: int|
                    0 <= j < i ==> #[trigger] command.target_actuators@[j] == old(self).commanded(
                        j,
                        old(command).entries()[j],
                        limits@,
                    ),
                forall|j: int|
                    0 <= j < i ==> #[trigger] self.prev_pos@[j] == command.entries()[j],
                forall|j: int|
                    0 <= j < i ==> #[trigger] self.prev_vel@[j] == old(self).tick(
                        j,
                        old(command).entries()[j],
                    ).velocity,
                forall|j: int|
                    0 <= j < i ==> #[trigger] self.prev_acc@[j] == old(self).tick(
                        j,
                        old(command).entries()[j],
                    ).acceleration,
                forall|j: int|
                    i <= j < MAX_JOINTS ==> #[trigger] command.target_actuators@[j]
                        == old(command).entries()[j],
                forall|j: int|
                    i <= j < MAX_JOINTS ==> #[trigger] self.prev_pos@[j] == old(self).prev_pos@[j],
                forall|j: int|
                    i <= j < MAX_JOINTS ==> #[trigger] self.prev_vel@[j] == old(self).prev_vel@[j],
                forall|j: int|
                    i <= j < MAX_JOINTS ==> #[trigger] self.prev_acc@[j] == old(self).prev_acc@[j],
            decreases n - i,
        {
            let target: Binary32 = command.target_actuators[i];
            proof {
                assert(old(self).usable(i as int));
                lemma_tick_is_local(*self, *old(self), i as int, target);
            }
            let t: JointTick = self.advance(i, target);
            let mut q: Binary32 = t.position;
            if i < limits.len() {
                let (min, max) = limits[i];
                assert(limits@[i as int].0.not_over(limits@[i as int].1));
                q = q.clamp(min, max);
            }
            command.target_actuators[i] = q;
            self.prev_pos[i] = q;
            self.prev_vel[i] = t.velocity;
            self.prev_acc[i] = t.acceleration;
            i = i + 1;
        }
    }
}

impl Default for JerkLimiter {
    fn default() -> (l: JerkLimiter)
        ensures
            l.dt == (Binary32 { bits: DEFAULT_PERIOD_BITS }),
            l.prev_pos@ == Seq::new(MAX_JOINTS as nat, |i: int| number_zero()),
            l.prev_vel@ == Seq::new(MAX_JOINTS as nat, |i: int| number_zero()),
            l.prev_acc@ == Seq::new(MAX_JOINTS as nat, |i: int| number_zero()),
            l.max_vel@ == Seq::new(MAX_JOINTS as nat, |i: int| Binary32 { bits: INFINITY_BITS }),
            l.max_acc@ == Seq::new(MAX_JOINTS as nat, |i: int| Binary32 { bits: INFINITY_BITS }),
            l.max_jerk@ == Seq::new(MAX_JOINTS as nat, |i: int| Binary32 { bits: INFINITY_BITS }),
    {
        JerkLimiter::new(Binary32 { bits: DEFAULT_PERIOD_BITS })
    }
}

/// `over` laid over the beginning of `base`.
pub open spec fn overlaid(base: Seq<Binary32>, over: Seq<Binary32>) -> Seq<Binary32> {
    Seq::new(
        base.len(),
        |i: int|
            if i < over.len() {
                over[i]
            } else {
                base[i]
            },
    )
}

fn copy_limit(dst: &mut [Binary32; MAX_JOINTS], src: &[Binary32])
    ensures
        final(dst)@ == overlaid(old(dst)@, src@),
{
    copy_numbers(dst, src);
    assert(dst@ =~= overlaid(old(dst)@, src@));
}

fn clamp_to(x: Binary32, bound: Binary32) -> (r: Binary32)
    requires
        bound.finite() ==> is_bound(bound),
    ensures
        r == cut_to(x, bound),
{
    if bound.is_finite() {
        x.clamp(bound.negated(), bound)
    } else {
        x
    }
}

/// A tick of joint `i` depends on that joint alone.
proof fn lemma_tick_is_local(a: JerkLimiter, b: JerkLimiter, i: int, target: Binary32)
    requires
        a.dt == b.dt,
        a.prev_pos@[i] == b.prev_pos@[i],
        a.prev_vel@[i] == b.prev_vel@[i],
        a.prev_acc@[i] == b.prev_acc@[i],
        a.max_vel@[i] == b.max_vel@[i],
        a.max_acc@[i] == b.max_acc@[i],
        a.max_jerk@[i] == b.max_jerk@[i],
    ensures
        a.tick(i, target) == b.tick(i, target),
        a.usable(i) == b.usable(i),
{
}

/// The velocity of a joint never exceeds its limit.
pub proof fn law_velocity_bounded(l: JerkLimiter, i: int, target: Binary32)
    requires
        0 <= i < MAX_JOINTS,
        l.usable(i),
        l.max_vel@[i].finite(),
        !l.tick(i, target).velocity.nan(),
    ensures
        l.max_vel@[i].opposite().not_over(l.tick(i, target).velocity),
        l.tick(i, target).velocity.not_over(l.max_vel@[i]),
{
}

/// The velocity that is wanted never exceeds the one that is allowed at the distance from the
/// target, nor, where the acceleration is limited, the one from which the joint still stops
/// within the target.
pub proof fn law_braking_in_time(l: JerkLimiter, i: int, target: Binary32)
    requires
        0 <= i < MAX_JOINTS,
        l.usable(i),
        velocity_limit(
            l.max_vel@[i],
            l.max_acc@[i],
            target.difference(l.prev_pos@[i]),
        ).finite(),
        !l.wanted_velocity(i, target).nan(),
    ensures
        ({
            let dist = target.difference(l.prev_pos@[i]);
            let most = velocity_limit(l.max_vel@[i], l.max_acc@[i], dist);
            let stopping = braking_velocity(l.max_acc@[i], dist);
            let wanted = l.wanted_velocity(i, target);
            &&& most.opposite().not_over(wanted)
            &&& wanted.not_over(most)
            &&& l.max_acc@[i].finite() && !stopping.nan() ==> stopping.opposite().not_over(wanted)
                && wanted.not_over(stopping)
        }),
{
    let dist = target.difference(l.prev_pos@[i]);
    lemma_root_not_negative(
        number_two().product(l.max_acc@[i]).product(signed(false, dist.absolute())),
    );
}

/// The acceleration of a joint never exceeds its limit.
pub proof fn law_acceleration_bounded(l: JerkLimiter, i: int, target: Binary32)
    requires
        0 <= i < MAX_JOINTS,
        l.usable(i),
        l.max_acc@[i].finite(),
        !l.tick(i, target).acceleration.nan(),
    ensures
        l.max_acc@[i].opposite().not_over(l.tick(i, target).acceleration),
        l.tick(i, target).acceleration.not_over(l.max_acc@[i]),
{
}

/// Between two frames the acceleration of a joint moves by no more than the jerk
/// limit allows: it stays between the previous acceleration less the step and the
/// previous acceleration plus the step.
pub proof fn law_jerk_bounded(l: JerkLimiter, i: int, target: Binary32)
    requires
        0 <= i < MAX_JOINTS,
        l.usable(i),
        l.max_jerk@[i].finite(),
        l.prev_acc@[i].finite(),
        l.max_acc@[i].finite() ==> l.max_acc@[i].opposite().not_over(l.prev_acc@[i])
            && l.prev_acc@[i].not_over(l.max_acc@[i]),
        !l.tick(i, target).acceleration.nan(),
    ensures
        l.acceleration_step(i).opposite().sum(l.prev_acc@[i]).not_over(
            l.tick(i, target).acceleration,
        ),
        l.tick(i, target).acceleration.not_over(l.acceleration_step(i).sum(l.prev_acc@[i])),
{
    let step = l.acceleration_step(i);
    let p = l.prev_acc@[i];
    let change = l.wanted_acceleration(i, target).difference(p);
    let d = change.clamped(step.opposite(), step);
    let zero = number_zero();
    law_clamped_in_interval(change, step.opposite(), step);
    lemma_sum_defined(step, p);
    lemma_sum_defined(step.opposite(), p);
    law_zero_sum(p);
    law_sum_monotone(step.opposite(), d, p);
    law_sum_monotone(d, step, p);
    law_sum_monotone(step.opposite(), zero, p);
    law_sum_monotone(zero, step, p);
}

/// The limiter at joint `i` is in a finite state, with a finite sampling period. Its
/// limits may be finite or not.
pub open spec fn steady(l: JerkLimiter, i: int) -> bool {
    &&& number_zero().below(l.dt)
    &&& l.dt.finite()
    &&& l.prev_pos@[i].finite()
    &&& l.prev_vel@[i].finite()
    &&& l.prev_acc@[i].finite()
}

/// The command `target` can be approached: it is at a finite distance, or else the time
/// that the approach takes is finite.
pub open spec fn approachable(l: JerkLimiter, i: int, target: Binary32) -> bool {
    ||| target.difference(l.prev_pos@[i]).finite()
    ||| approach_time(l.dt, l.max_vel@[i], l.max_acc@[i], l.max_jerk@[i]).finite()
}

/// The product with a finite number other than zero is defined.
pub proof fn lemma_scaled_defined(x: Binary32, y: Binary32)
    requires
        !x.nan(),
        y.finite(),
        !y.is_zero(),
    ensures
        !x.product(y).nan(),
{
    if x.finite() {
        lemma_product_defined(x, y);
    }
}

/// From a finite state, a command that can be approached gives a velocity, an acceleration
/// and a position, whatever the limits of the joint are. The velocity and the acceleration
/// are finite where their limits are.
pub proof fn law_tick_is_defined(l: JerkLimiter, i: int, target: Binary32)
    requires
        0 <= i < MAX_JOINTS,
        l.usable(i),
        steady(l, i),
        target.finite(),
        approachable(l, i, target),
    ensures
        !l.tick(i, target).velocity.nan(),
        !l.tick(i, target).acceleration.nan(),
        !l.tick(i, target).position.nan(),
        l.max_vel@[i].finite() ==> l.tick(i, target).velocity.finite(),
        l.max_acc@[i].finite() ==> l.tick(i, target).acceleration.finite(),
{
    let dist = target.difference(l.prev_pos@[i]);
    let vmax = l.max_vel@[i];
    let amax = l.max_acc@[i];
    let jmax = l.max_jerk@[i];
    let step = l.acceleration_step(i);
    let tau = approach_time(l.dt, vmax, amax, jmax);
    lemma_sum_defined(target, l.prev_pos@[i].opposite());
    lemma_quotient_defined(dist, tau);
    let v_des = l.wanted_velocity(i, target);
    assert(!v_des.nan());
    lemma_sum_defined(v_des, l.prev_vel@[i].opposite());
    lemma_quotient_defined(v_des.difference(l.prev_vel@[i]), l.dt);
    let a_des = l.wanted_acceleration(i, target);
    assert(!a_des.nan());
    lemma_sum_defined(a_des, l.prev_acc@[i].opposite());
    let d = a_des.difference(l.prev_acc@[i]).clamped(step.opposite(), step);
    if jmax.finite() {
        lemma_product_defined(jmax, l.dt);
        lemma_sum_defined(d, l.prev_acc@[i]);
    }
    let a = l.allowed_acceleration(i, target);
    assert(!a.nan());
    lemma_scaled_defined(a, l.dt);
    lemma_sum_defined(l.prev_vel@[i], a.product(l.dt));
    let v = l.tick(i, target).velocity;
    assert(!v.nan());
    lemma_scaled_defined(v, l.dt);
    lemma_sum_defined(l.prev_pos@[i], v.product(l.dt));
}

/// No limit is set for the motion of joint `i`.
pub open spec fn free(l: JerkLimiter, i: int) -> bool {
    !l.max_vel@[i].finite() && !l.max_acc@[i].finite() && !l.max_jerk@[i].finite()
}

/// The limiter at joint `i` is in a state of ordinary size: the sampling period is at most
/// 1 s and at least `2^-16` s, the position at most `2^16` and the velocity at most `2^40`.
pub open spec fn ordinary(l: JerkLimiter, i: int) -> bool {
    let one = one_unit();
    &&& steady(l, i)
    &&& l.dt.value() <= one <= 65536 * l.dt.value()
    &&& abs(l.prev_pos@[i].value()) <= 65536 * one
    &&& abs(l.prev_vel@[i].value()) <= 0x100_0000_0000 * one
}

/// A joint without limits for its motion stays finite, and its velocity of ordinary size,
/// as long as it is commanded to positions of ordinary size.
pub proof fn law_free_joint_stays_finite(l: JerkLimiter, i: int, target: Binary32)
    requires
        0 <= i < MAX_JOINTS,
        free(l, i),
        ordinary(l, i),
        target.finite(),
        abs(target.value()) <= 65536 * one_unit(),
    ensures
        l.tick(i, target).velocity.finite(),
        l.tick(i, target).acceleration.finite(),
        l.tick(i, target).position.finite(),
        abs(l.tick(i, target).velocity.value()) <= 0x100_0000_0000 * one_unit(),
{
    let dt = l.dt;
    let dist = target.difference(l.prev_pos@[i]);
    let wanted = dist.quotient(dt);
    let change = wanted.difference(l.prev_vel@[i]);
    let a = change.quotient(dt);
    let gained = a.product(dt);
    let v = l.prev_vel@[i].sum(gained);
    law_sum_with_zero(number_zero(), number_zero());
    assert(approach_time(dt, l.max_vel@[i], l.max_acc@[i], l.max_jerk@[i]) == dt);
    assert(l.tick(i, target).acceleration == a);
    assert(l.tick(i, target).velocity == v);
    lemma_sizes();
    lemma_sum_finite(target, l.prev_pos@[i]);
    lemma_difference_error(target, l.prev_pos@[i]);
    lemma_over_period(dist, dt, 0x4_0000);
    lemma_sum_finite(wanted, l.prev_vel@[i]);
    lemma_difference_error(wanted, l.prev_vel@[i]);
    lemma_over_period(change, dt, 0x200_0000_0000);
    lemma_gained(change, dt);
    lemma_sum_finite(l.prev_vel@[i], gained);
    lemma_sum_error(l.prev_vel@[i], gained);
    lemma_times_period(v, dt);
    lemma_sum_finite(l.prev_pos@[i], v.product(dt));
}

/// A joint without limits for its motion is commanded to the target itself, up to rounding:
/// up to `(2 |target| + 11 |target - position| + 7 |velocity| dt) / 2^24`, and a few units
/// of the smallest number. At rest the velocity is zero, and its part vanishes.
pub proof fn law_free_joint_passes_through(l: JerkLimiter, i: int, target: Binary32)
    requires
        0 <= i < MAX_JOINTS,
        free(l, i),
        ordinary(l, i),
        target.finite(),
        abs(target.value()) <= 65536 * one_unit(),
    ensures
        ({
            let one = one_unit() as int;
            let t = target.value();
            let p = l.prev_pos@[i].value();
            16777216 * (abs(l.tick(i, target).position.value() - t) * one) <= 2 * (abs(t) * one)
                + 11 * (abs(t - p) * one) + 7 * (abs(l.prev_vel@[i].value()) * l.dt.value())
                + 134217728 * one
        }),
{
    let dt = l.dt;
    let one = one_unit() as int;
    let dist = target.difference(l.prev_pos@[i]);
    let wanted = dist.quotient(dt);
    let change = wanted.difference(l.prev_vel@[i]);
    let a = change.quotient(dt);
    let gained = a.product(dt);
    let v = l.prev_vel@[i].sum(gained);
    let moved = v.product(dt);
    let q = l.prev_pos@[i].sum(moved);
    law_free_joint_stays_finite(l, i, target);
    law_sum_with_zero(number_zero(), number_zero());
    assert(approach_time(dt, l.max_vel@[i], l.max_acc@[i], l.max_jerk@[i]) == dt);
    assert(l.tick(i, target).velocity == v);
    assert(l.tick(i, target).position == q);
    lemma_sizes();
    lemma_sum_error(l.prev_pos@[i], moved);
    lemma_product_error(v, dt);
    lemma_sum_error(l.prev_vel@[i], gained);
    lemma_product_error(a, dt);
    lemma_quotient_error(change, dt);
    lemma_difference_error(wanted, l.prev_vel@[i]);
    lemma_quotient_error(dist, dt);
    lemma_difference_error(target, l.prev_pos@[i]);
    lemma_gained_error(change.value(), dt.value(), one, a.value(), gained.value());
    lemma_velocity_error(
        wanted.value(),
        l.prev_vel@[i].value(),
        change.value(),
        gained.value(),
        v.value(),
    );
    lemma_moved_error(
        dist.value(),
        wanted.value(),
        l.prev_vel@[i].value(),
        v.value(),
        moved.value(),
        dt.value(),
        one,
    );
    lemma_arrival_error(
        target.value(),
        l.prev_pos@[i].value(),
        dist.value(),
        moved.value(),
        q.value(),
        abs(l.prev_vel@[i].value()) * dt.value(),
        one,
    );
}

/// A change over a sampling period `t`, times the period.
proof fn lemma_gained_error(f: int, t: int, one: int, a: int, g: int)
    requires
        0 < t <= one,
        near(f * one, a, t),
        near(a * t, g, one),
    ensures
        16777216 * abs(g - f) <= 3 * abs(f) + 4 * 8388608,
{
    lemma_near_bound(f * one, a, t);
    lemma_near_bound(a * t, g, one);
    lemma_abs_product(f, one);
    lemma_abs_product(a, t);
    lemma_abs_product(g, one);
    lemma_abs_product(g - f, one);
    assert((g - f) * one == g * one - f * one) by (nonlinear_arith);
    assert((abs(a) + 8388608) * t == abs(a) * t + 8388608 * t) by (nonlinear_arith);
    assert((abs(g) + 8388608) * one == abs(g) * one + 8388608 * one) by (nonlinear_arith);
    let e = abs(g - f);
    let most = 3 * abs(f) + 4 * 8388608;
    assert(most * one == 3 * (abs(f) * one) + 4 * (8388608 * one)) by (nonlinear_arith)
        requires
            most == 3 * abs(f) + 4 * 8388608,
    ;
    assert(abs(f) * one >= 0) by (nonlinear_arith)
        requires
            abs(f) >= 0,
            one > 0,
    ;
    assert(16777216 * (e * one) <= most * one);
    assert(16777216 * e <= most) by (nonlinear_arith)
        requires
            16777216 * (e * one) <= most * one,
            one > 0,
    ;
}

/// The velocity that is reached, where `w` is wanted and `v0` was the one before.
proof fn lemma_velocity_error(w: int, v0: int, f: int, g: int, v: int)
    requires
        near(w - v0, f, 1),
        16777216 * abs(g - f) <= 3 * abs(f) + 4 * 8388608,
        near(v0 + g, v, 1),
    ensures
        16777216 * abs(v - w) <= 6 * abs(w) + 5 * abs(v0) + 8 * 8388608,
{
}

/// The way that is moved, where `d` is the distance.
proof fn lemma_moved_error(d: int, w: int, v0: int, v: int, m: int, t: int, one: int)
    requires
        0 < t <= one,
        near(d * one, w, t),
        16777216 * abs(v - w) <= 6 * abs(w) + 5 * abs(v0) + 8 * 8388608,
        near(v * t, m, one),
    ensures
        16777216 * (abs(m - d) * one) <= 9 * (abs(d) * one) + 6 * (abs(v0) * t) + 11 * (8388608
            * one),
{
    lemma_near_bound(d * one, w, t);
    lemma_abs_product(d, one);
    lemma_abs_product(w, t);
    lemma_abs_product(m, one);
    lemma_abs_product(m - d, one);
    lemma_abs_product(v - w, t);
    assert((m - d) * one == m * one - d * one) by (nonlinear_arith);
    assert((v - w) * t == v * t - w * t) by (nonlinear_arith);
    assert((abs(w) + 8388608) * t == abs(w) * t + 8388608 * t) by (nonlinear_arith);
    assert((abs(m) + 8388608) * one == abs(m) * one + 8388608 * one) by (nonlinear_arith);
    let e = abs(v - w);
    assert(16777216 * (e * t) <= 6 * (abs(w) * t) + 5 * (abs(v0) * t) + 8 * (8388608 * t))
        by (nonlinear_arith)
        requires
            16777216 * e <= 6 * abs(w) + 5 * abs(v0) + 8 * 8388608,
            t > 0,
    ;
    assert(abs(v0) * t >= 0) by (nonlinear_arith)
        requires
            abs(v0) >= 0,
            t > 0,
    ;
    assert(abs(d) * one >= 0) by (nonlinear_arith)
        requires
            abs(d) >= 0,
            one > 0,
    ;
}

/// The position that is reached, where `drift` is what the velocity before adds.
proof fn lemma_arrival_error(t: int, p: int, d: int, m: int, q: int, drift: int, one: int)
    requires
        one > 0,
        drift >= 0,
        near(t - p, d, 1),
        16777216 * (abs(m - d) * one) <= 9 * (abs(d) * one) + 6 * drift + 11 * (8388608 * one),
        near(p + m, q, 1),
    ensures
        16777216 * (abs(q - t) * one) <= 2 * (abs(t) * one) + 11 * (abs(t - p) * one) + 7 * drift
            + 134217728 * one,
{
    let e = abs(q - t);
    let way = abs(t - p);
    let off = abs(m - d);
    assert(16777215 * e <= abs(t) + 16777216 * off + abs(d) + 2 * 8388608);
    assert(16777215 * abs(d) <= 16777216 * way + 8388608);
    assert(16777215 * (e * one) <= abs(t) * one + 16777216 * (off * one) + abs(d) * one + 2 * (
    8388608 * one)) by (nonlinear_arith)
        requires
            16777215 * e <= abs(t) + 16777216 * off + abs(d) + 2 * 8388608,
            one > 0,
    ;
    assert(16777215 * (abs(d) * one) <= 16777216 * (way * one) + 8388608 * one)
        by (nonlinear_arith)
        requires
            16777215 * abs(d) <= 16777216 * way + 8388608,
            one > 0,
    ;
    assert(abs(t) * one >= 0) by (nonlinear_arith)
        requires
            abs(t) >= 0,
            one > 0,
    ;
    assert(way * one >= 0) by (nonlinear_arith)
        requires
            way >= 0,
            one > 0,
    ;
}

/// A number of at most `n`, over a sampling period.
proof fn lemma_over_period(x: Binary32, dt: Binary32, n: int)
    requires
        x.finite(),
        dt.finite(),
        !dt.negative(),
        dt.value() <= one_unit() <= 65536 * dt.value(),
        1 <= n <= 0x200_0000_0000,
        abs(x.value()) <= n * one_unit(),
    ensures
        x.quotient(dt).finite(),
        near(x.value() * one_unit(), x.quotient(dt).value(), dt.value()),
        abs(x.quotient(dt).value()) <= 131072 * n * one_unit(),
{
    let one = one_unit() as int;
    let t = dt.value();
    let xs = abs(x.value());
    lemma_sizes();
    assert(t > 0);
    assert(x.size() == xs);
    assert(dt.size() == t);
    assert(xs * one <= (65536 * n * one) * t) by (nonlinear_arith)
        requires
            0 <= xs <= n * one,
            one <= 65536 * t,
            n > 0,
            one > 0,
    ;
    assert(65536 * n * one <= huge()) by (nonlinear_arith)
        requires
            n <= 0x200_0000_0000,
            huge() >= 0x1000_0000_0000_0000 * one,
            one > 0,
    ;
    assert((65536 * n * one) * t <= huge() * t) by (nonlinear_arith)
        requires
            65536 * n * one <= huge(),
            t > 0,
    ;
    lemma_quotient_finite(x, dt);
    lemma_quotient_error(x, dt);
    let q = abs(x.quotient(dt).value());
    lemma_near_bound(x.value() * one, x.quotient(dt).value(), t);
    lemma_abs_product(x.value(), one);
    if q > 131072 * n * one {
        assert(q * t >= (131072 * n * one) * t) by (nonlinear_arith)
            requires
                q > 131072 * n * one,
                t > 0,
        ;
        assert((131072 * n * one) * t == 2 * ((65536 * n * one) * t)) by (nonlinear_arith);
        assert((65536 * n * one) * t >= 65536 * t) by (nonlinear_arith)
            requires
                n >= 1,
                one >= 1,
                t > 0,
        ;
    }
}

/// A velocity of ordinary size, times a sampling period.
proof fn lemma_times_period(x: Binary32, dt: Binary32)
    requires
        x.finite(),
        dt.finite(),
        !dt.negative(),
        dt.value() <= one_unit(),
        abs(x.value()) <= 0x100_0000_0000 * one_unit(),
    ensures
        x.product(dt).finite(),
        abs(x.product(dt).value()) <= 0x200_0000_0000 * one_unit(),
{
    let one = one_unit() as int;
    let t = dt.value();
    let xs = abs(x.value());
    lemma_sizes();
    assert(x.size() == xs);
    assert(dt.size() == t);
    assert(xs * t <= 0x100_0000_0000 * (one * one)) by (nonlinear_arith)
        requires
            0 <= xs <= 0x100_0000_0000 * one,
            0 <= t <= one,
    ;
    assert(0x100_0000_0000 * (one * one) <= huge() * one) by (nonlinear_arith)
        requires
            huge() >= 0x1000_0000_0000_0000 * one,
            one > 0,
    ;
    lemma_product_finite(x, dt);
    lemma_product_error(x, dt);
    let m = abs(x.product(dt).value());
    lemma_near_bound(x.value() * t, x.product(dt).value(), one);
    assert(abs(x.value() * t) == xs * t) by {
        if t > 0 {
            lemma_abs_product(x.value(), t);
        } else {
            assert(x.value() * t == 0 && xs * t == 0) by (nonlinear_arith)
                requires
                    t == 0,
            ;
        }
    }
    if m > 0x200_0000_0000 * one {
        assert(m * one >= 0x200_0000_0000 * (one * one)) by (nonlinear_arith)
            requires
                m > 0x200_0000_0000 * one,
                one > 0,
        ;
        assert(one * one >= one) by (nonlinear_arith)
            requires
                one >= 1,
        ;
    }
}

/// A change of the velocity over a sampling period, times the period, is the change again,
/// up to rounding.
proof fn lemma_gained(change: Binary32, dt: Binary32)
    requires
        change.finite(),
        dt.finite(),
        !dt.negative(),
        dt.value() <= one_unit() <= 65536 * dt.value(),
        abs(change.value()) <= 0x200_0000_0000 * one_unit(),
    ensures
        change.quotient(dt).product(dt).finite(),
        abs(change.quotient(dt).product(dt).value() - change.value()) <= 0x10_0000 * one_unit(),
{
    let one = one_unit() as int;
    let t = dt.value();
    let c = change.value();
    let a = change.quotient(dt).value();
    lemma_sizes();
    lemma_over_period(change, dt, 0x200_0000_0000);
    lemma_near_bound(c * one, a, t);
    lemma_abs_product(c, one);
    lemma_abs_product(a, t);
    let square = one * one;
    assert(abs(c) * one <= 0x200_0000_0000 * square) by (nonlinear_arith)
        requires
            abs(c) <= 0x200_0000_0000 * one,
            one > 0,
            square == one * one,
    ;
    assert(square >= 1000000000 * one) by (nonlinear_arith)
        requires
            one > 1000000000,
            square == one * one,
    ;
    assert(abs(a) * t <= 0x400_0000_0000 * square);
    assert(change.quotient(dt).size() == abs(a));
    assert(dt.size() == t);
    assert(0x400_0000_0000 * square <= huge() * one) by (nonlinear_arith)
        requires
            huge() >= 0x1000_0000_0000_0000 * one,
            one > 0,
            square == one * one,
    ;
    lemma_product_finite(change.quotient(dt), dt);
    lemma_product_error(change.quotient(dt), dt);
    let m = change.quotient(dt).product(dt).value();
    lemma_near_bound(a * t, m, one);
    lemma_abs_product(m, one);
    lemma_abs_product(m - c, one);
    assert((m - c) * one == m * one - c * one) by (nonlinear_arith);
    assert((abs(a) + 8388608) * t == abs(a) * t + 8388608 * t) by (nonlinear_arith);
    assert((abs(m) + 8388608) * one == abs(m) * one + 8388608 * one) by (nonlinear_arith);
    let e = abs(m - c);
    if e > 0x10_0000 * one {
        assert(e * one >= 0x10_0000 * square) by (nonlinear_arith)
            requires
                e > 0x10_0000 * one,
                one > 0,
                square == one * one,
        ;
    }
}

/// The commanded position never leaves the geometric limits.
pub proof fn law_position_within_limits(
    l: JerkLimiter,
    i: int,
    target: Binary32,
    limits: Seq<(Binary32, Binary32)>,
)
    requires
        0 <= i < limits.len(),
        limits[i].0.not_over(limits[i].1),
        !l.tick(i, target).position.nan(),
    ensures
        limits[i].0.not_over(l.commanded(i, target, limits)),
        l.commanded(i, target, limits).not_over(limits[i].1),
{
}

} // verus!
