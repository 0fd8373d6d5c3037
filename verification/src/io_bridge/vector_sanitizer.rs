//! Interception of commands that no drive must ever receive.

use crate::io_bridge::command_vector::{CommandVector, MAX_JOINTS};
use crate::io_bridge::wire::{repeated, shorter};
use crate::numeric::binary32::{number_zero, Binary32};
use vstd::prelude::*;

verus! {

/// Replaces what is no finite number by the last safe value of the joint, and cuts
/// every value to the physical limits of its joint.
pub struct VectorSanitizer {
    pub last_safe: [Binary32; MAX_JOINTS],
}

/// What becomes of the command `v` for joint `i`, whose last safe value is `safe`.
pub open spec fn sanitized(
    v: Binary32,
    safe: Binary32,
    limits: Seq<(Binary32, Binary32)>,
    i: int,
) -> Binary32 {
    let kept = if v.finite() {
        v
    } else {
        safe
    };
    if i < limits.len() {
        kept.clamped(limits[i].0, limits[i].1)
    } else {
        kept
    }
}

/// The limits of the first `n` joints are intervals.
pub open spec fn limits_ok(limits: Seq<(Binary32, Binary32)>, n: nat) -> bool {
    forall|i: int|
        0 <= i < n && i < limits.len() ==> (#[trigger] limits[i]).0.not_over(limits[i].1)
}

/// Whether the limits of the first `n` joints are intervals.
pub fn are_intervals(limits: &[(Binary32, Binary32)], n: usize) -> (r: bool)
    ensures
        r == limits_ok(limits@, n as nat),
{
    let mut i: usize = 0;
    while i < n && i < limits.len()
        invariant
            i <= limits@.len(),
            i <= n,
            limits_ok(limits@, i as nat),
        decreases n - i,
    {
        let (min, max) = limits[i];
        if !min.at_most(max) {
            assert(!limits@[i as int].0.not_over(limits@[i as int].1));
            return false;
        }
        i = i + 1;
    }
    true
}

impl VectorSanitizer {
    /// Every joint starts at the safe value 0.
    pub fn new() -> (s: VectorSanitizer)
        ensures
            s.last_safe@ == Seq::new(MAX_JOINTS as nat, |i: int| number_zero()),
    {
        VectorSanitizer { last_safe: repeated(Binary32::zero()) }
    }

    /// Cleans the command in place; each cleaned value is the safe value of its
    /// joint from then on.
    pub fn sanitize_and_clamp(
        &mut self,
        command: &mut CommandVector,
        limits: &[(Binary32, Binary32)],
    )
        requires
            limits_ok(limits@, shorter(old(command).len as nat, MAX_JOINTS as nat)),
        ensures
            final(command).len == old(command).len,
            forall|i: int|
                0 <= i < MAX_JOINTS && i < old(command).len ==> #[trigger] final(command).entries()[i]
                    == sanitized(
                    old(command).entries()[i],
                    old(self).last_safe@[i],
                    limits@,
                    i,
                ),
            forall|i: int|
                0 <= i < MAX_JOINTS && i < old(command).len ==> #[trigger] final(self).last_safe@[i]
                    == final(command).entries()[i],
            forall|i: int|
                old(command).len <= i < MAX_JOINTS ==> #[trigger] final(command).entries()[i]
                    == old(command).entries()[i],
            forall|i: int|
                old(command).len <= i < MAX_JOINTS ==> #[trigger] final(self).last_safe@[i]
                    == old(self).last_safe@[i],
    {
        let n: usize = if command.len < MAX_JOINTS {
            command.len
        } else {
            MAX_JOINTS
        };
        let mut i: usize = 0;
        while i < n
            invariant
                i <= n <= MAX_JOINTS,
                n == shorter(old(command).len as nat, MAX_JOINTS as nat),
                limits_ok(limits@, n as nat),
                command.len == old(command).len,
                forall|j: int|
                    0 <= j < i ==> #[trigger] command.target_actuators@[j] == sanitized(
                        old(command).entries()[j],
                        old(self).last_safe@[j],
                        limits@,
                        j,
                    ),
                forall|j: int|
                    0 <= j < i ==> #[trigger] self.last_safe@[j] == command.entries()[j],
                forall|j: int|
                    i <= j < MAX_JOINTS ==> #[trigger] command.target_actuators@[j]
                        == old(command).entries()[j],
                forall|j: int|
                    i <= j < MAX_JOINTS ==> #[trigger] self.last_safe@[j]
                        == old(self).last_safe@[j],
            decreases n - i,
        {
            let mut v: Binary32 = command.target_actuators[i];
            if v.is_nan() || v.is_infinite() {
                v = self.last_safe[i];
            }
            if i < limits.len() {
                let (min, max) = limits[i];
                assert(limits@[i as int].0.not_over(limits@[i as int].1));
                v = v.clamp(min, max);
            }
            command.target_actuators[i] = v;
            self.last_safe[i] = v;
            i = i + 1;
        }
    }
}

impl Default for VectorSanitizer {
    fn default() -> (s: VectorSanitizer)
        ensures
            s.last_safe@ == Seq::new(MAX_JOINTS as nat, |i: int| number_zero()),
    {
        VectorSanitizer::new()
    }
}

/// While every safe value is finite, what reaches a drive is finite whatever was
/// commanded, as long as the limits are.
pub proof fn law_sanitized_is_finite(
    v: Binary32,
    safe: Binary32,
    limits: Seq<(Binary32, Binary32)>,
    i: int,
)
    requires
        safe.finite(),
        0 <= i < limits.len() ==> limits[i].0.finite() && limits[i].1.finite(),
        0 <= i,
    ensures
        sanitized(v, safe, limits, i).finite(),
{
}

/// What reaches a drive whose joint has limits lies within them, whatever was
/// commanded.
pub proof fn law_sanitized_within_limits(
    v: Binary32,
    safe: Binary32,
    limits: Seq<(Binary32, Binary32)>,
    i: int,
)
    requires
        safe.finite(),
        0 <= i < limits.len(),
        limits[i].0.not_over(limits[i].1),
    ensures
        limits[i].0.not_over(sanitized(v, safe, limits, i)),
        sanitized(v, safe, limits, i).not_over(limits[i].1),
{
}

/// A finite command within the limits passes unchanged, and an illegal one gives
/// the last safe value again, where that lies within the limits.
pub proof fn law_sanitized_keeps_or_restores(
    v: Binary32,
    safe: Binary32,
    limits: Seq<(Binary32, Binary32)>,
    i: int,
)
    requires
        0 <= i,
        i < limits.len() ==> limits[i].0.not_over(limits[i].1),
    ensures
        v.finite() && (i < limits.len() ==> limits[i].0.not_over(v) && v.not_over(limits[i].1))
            ==> sanitized(v, safe, limits, i) == v,
        !v.finite() && (i < limits.len() ==> limits[i].0.not_over(safe) && safe.not_over(
            limits[i].1,
        )) ==> sanitized(v, safe, limits, i) == safe,
{
}

/// Cleaning a clean command changes nothing.
pub proof fn law_sanitizing_twice(
    v: Binary32,
    safe: Binary32,
    limits: Seq<(Binary32, Binary32)>,
    i: int,
)
    requires
        0 <= i,
        i < limits.len() ==> limits[i].0.not_over(limits[i].1),
    ensures
        ({
            let once = sanitized(v, safe, limits, i);
            sanitized(once, once, limits, i) == once
        }),
{
}

/// A command beyond a limit of its joint is cut to that limit, not to the other one.
pub proof fn law_sanitized_cuts_at_the_limit(
    v: Binary32,
    safe: Binary32,
    limits: Seq<(Binary32, Binary32)>,
    i: int,
)
    requires
        v.finite(),
        0 <= i < limits.len(),
        limits[i].0.not_over(limits[i].1),
    ensures
        v.below(limits[i].0) ==> sanitized(v, safe, limits, i) == limits[i].0,
        limits[i].1.below(v) ==> sanitized(v, safe, limits, i) == limits[i].1,
{
}

} // verus!
