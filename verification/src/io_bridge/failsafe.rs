//! Safety guard for an abnormal state.

use crate::io_bridge::command_vector::{CommandVector, MAX_JOINTS};
use crate::io_bridge::state_vector::StateVector;
use crate::io_bridge::wire::{copy_numbers, repeated, shorter};
use crate::numeric::binary32::{number_zero, Binary32};
use crate::system::clock::{micros_of, nanos_since};
use std::time::Instant;
use vstd::prelude::*;
use vstd::slice::*;

verus! {

/// When a radio blackout or a corrupted sensor takes away the view of the
/// hardware, the guard commands the last valid state again with every tick: joint
/// positions and the pressure of the gripper.
pub struct FailsafeGuard {
    pub engaged: bool,
    pub pressure_slot: usize,
    pub max_grip_n: Binary32,
    pub last_good: [Binary32; MAX_JOINTS],
    pub last_good_pressure_n: Binary32,
    pub blackout_frames: u64,
    pub interventions: u64,
    pub last_response_us: u64,
}

impl FailsafeGuard {
    /// What the guard commands for entry `i` of a command with `n` entries.
    pub open spec fn held(self, i: int, n: nat) -> Binary32 {
        if i == self.pressure_slot && self.pressure_slot < n {
            self.last_good_pressure_n
        } else {
            self.last_good@[i]
        }
    }

    /// The guard watches the pressure in entry `pressure_slot`; it starts disarmed,
    /// with the nominal pressure cut to the interval from 0 to `max_grip_n`.
    pub fn new(pressure_slot: usize, nominal_grip_n: Binary32, max_grip_n: Binary32) -> (g:
        FailsafeGuard)
        requires
            number_zero().not_over(max_grip_n),
        ensures
            !g.engaged,
            g.pressure_slot == pressure_slot,
            g.max_grip_n == max_grip_n,
            g.last_good@ == Seq::new(MAX_JOINTS as nat, |i: int| number_zero()),
            g.last_good_pressure_n == nominal_grip_n.clamped(number_zero(), max_grip_n),
            g.blackout_frames == 0,
            g.interventions == 0,
            g.last_response_us == 0,
    {
        let nominal: Binary32 = nominal_grip_n.clamp(Binary32::zero(), max_grip_n);
        FailsafeGuard {
            engaged: false,
            pressure_slot,
            max_grip_n,
            last_good: repeated(Binary32::zero()),
            last_good_pressure_n: nominal,
            blackout_frames: 0,
            interventions: 0,
            last_response_us: 0,
        }
    }

    pub fn is_engaged(&self) -> (r: bool)
        ensures
            r == self.engaged,
    {
        self.engaged
    }

    /// Frames lost since the start.
    pub fn blackout_frames(&self) -> (r: u64)
        ensures
            r == self.blackout_frames,
    {
        self.blackout_frames
    }

    /// Commands replaced since the start.
    pub fn interventions(&self) -> (r: u64)
        ensures
            r == self.interventions,
    {
        self.interventions
    }

    /// Time that the last call of `enforce` took, in microseconds.
    pub fn last_response_us(&self) -> (r: u64)
        ensures
            r == self.last_response_us,
    {
        self.last_response_us
    }

    /// Grip pressure that the guard holds.
    pub fn held_grip_n(&self) -> (r: Binary32)
        ensures
            r == self.last_good_pressure_n,
    {
        self.last_good_pressure_n
    }

    /// Takes the state received as the safe reference.
    pub fn snapshot_healthy(&mut self, state: &StateVector)
        requires
            old(self).pressure_slot < shorter(state.len as nat, MAX_JOINTS as nat)
                ==> number_zero().not_over(old(self).max_grip_n),
        ensures
            final(self).engaged == old(self).engaged,
            final(self).pressure_slot == old(self).pressure_slot,
            final(self).max_grip_n == old(self).max_grip_n,
            final(self).blackout_frames == old(self).blackout_frames,
            final(self).interventions == old(self).interventions,
            final(self).last_response_us == old(self).last_response_us,
            forall|i: int|
                0 <= i < MAX_JOINTS ==> #[trigger] final(self).last_good@[i] == if i < state.len {
                    state.entries()[i]
                } else {
                    old(self).last_good@[i]
                },
            final(self).last_good_pressure_n == if old(self).pressure_slot < shorter(
                state.len as nat,
                MAX_JOINTS as nat,
            ) {
                state.entries()[old(self).pressure_slot as int].clamped(
                    number_zero(),
                    old(self).max_grip_n,
                )
            } else {
                old(self).last_good_pressure_n
            },
    {
        let n: usize = if state.len < MAX_JOINTS {
            state.len
        } else {
            MAX_JOINTS
        };
        let values: &[Binary32] = slice_subrange(state.values.as_slice(), 0, n);
        copy_numbers(&mut self.last_good, values);
        if self.pressure_slot < n {
            self.last_good_pressure_n =
            state.values[self.pressure_slot].clamp(Binary32::zero(), self.max_grip_n);
        }
    }

    /// Records a lost frame and arms the guard.
    pub fn on_blackout(&mut self)
        requires
            old(self).blackout_frames < u64::MAX,
        ensures
            *final(self) == (FailsafeGuard {
                engaged: true,
                blackout_frames: (old(self).blackout_frames + 1) as u64,
                ..*old(self)
            }),
    {
        self.engaged = true;
        self.blackout_frames = self.blackout_frames + 1;
    }

    /// Disarms the guard.
    pub fn disengage(&mut self)
        ensures
            *final(self) == (FailsafeGuard { engaged: false, ..*old(self) }),
    {
        self.engaged = false;
    }

    /// If the guard is armed, puts the safe reference in place of the command.
    pub fn hold(&mut self, command: &mut CommandVector)
        requires
            old(self).engaged ==> old(self).interventions < u64::MAX,
        ensures
            final(command).len == old(command).len,
            *final(self) == (FailsafeGuard {
                interventions: if old(self).engaged {
                    (old(self).interventions + 1) as u64
                } else {
                    old(self).interventions
                },
                ..*old(self)
            }),
            !old(self).engaged ==> *final(command) == *old(command),
            forall|i: int|
                old(self).engaged && 0 <= i < MAX_JOINTS ==> #[trigger] final(command).entries()[i]
                    == if i < old(command).len {
                    old(self).held(i, shorter(old(command).len as nat, MAX_JOINTS as nat))
                } else {
                    old(command).entries()[i]
                },
    {
        if self.engaged {
            let n: usize = if command.len < MAX_JOINTS {
                command.len
            } else {
                MAX_JOINTS
            };
            let values: &[Binary32] = slice_subrange(self.last_good.as_slice(), 0, n);
            copy_numbers(&mut command.target_actuators, values);
            if self.pressure_slot < n {
                command.target_actuators[self.pressure_slot] = self.last_good_pressure_n;
            }
            self.interventions = self.interventions + 1;
        }
    }

    /// If the guard is armed, puts the safe reference in place of the command.
    /// Returns the reaction time in microseconds.
    pub fn enforce(&mut self, command: &mut CommandVector) -> (micros: u64)
        requires
            old(self).engaged ==> old(self).interventions < u64::MAX,
        ensures
            final(command).len == old(command).len,
            *final(self) == (FailsafeGuard {
                interventions: if old(self).engaged {
                    (old(self).interventions + 1) as u64
                } else {
                    old(self).interventions
                },
                last_response_us: micros,
                ..*old(self)
            }),
            !old(self).engaged ==> *final(command) == *old(command),
            forall|i: int|
                old(self).engaged && 0 <= i < MAX_JOINTS ==> #[trigger] final(command).entries()[i]
                    == if i < old(command).len {
                    old(self).held(i, shorter(old(command).len as nat, MAX_JOINTS as nat))
                } else {
                    old(command).entries()[i]
                },
    {
        let start: Instant = Instant::now();
        self.hold(command);
        self.last_response_us = micros_of(nanos_since(&start));
        self.last_response_us
    }
}

/// A guard that took a snapshot of a state with a pressure within the interval
/// from 0 to the maximum commands exactly that state.
pub proof fn law_snapshot_is_held(g: FailsafeGuard, state: StateVector, i: int)
    requires
        0 <= i < state.len <= MAX_JOINTS,
        forall|j: int| 0 <= j < state.len ==> #[trigger] g.last_good@[j] == state.entries()[j],
        g.pressure_slot < state.len ==> g.last_good_pressure_n
            == state.entries()[g.pressure_slot as int].clamped(number_zero(), g.max_grip_n),
        g.pressure_slot < state.len ==> number_zero().not_over(
            state.entries()[g.pressure_slot as int],
        ) && state.entries()[g.pressure_slot as int].not_over(g.max_grip_n),
    ensures
        g.held(i, state.len as nat) == state.entries()[i],
{
    assert(g.last_good@[i] == state.entries()[i]);
}

/// The pressure that the guard holds never exceeds the maximum, whatever was
/// measured.
pub proof fn law_held_pressure_bounded(measured: Binary32, max_grip_n: Binary32)
    requires
        number_zero().not_over(max_grip_n),
        !measured.nan(),
    ensures
        number_zero().not_over(measured.clamped(number_zero(), max_grip_n)),
        measured.clamped(number_zero(), max_grip_n).not_over(max_grip_n),
{
}

/// Whatever positions the guard holds, what it commands to the gripper is the pressure that it
/// holds, within the interval from 0 to the maximum; the other entries are the positions.
pub proof fn law_gripper_is_held_within_bounds(g: FailsafeGuard, n: nat, i: int)
    requires
        0 <= i < n <= MAX_JOINTS,
        number_zero().not_over(g.last_good_pressure_n),
        g.last_good_pressure_n.not_over(g.max_grip_n),
    ensures
        i == g.pressure_slot ==> number_zero().not_over(g.held(i, n)) && g.held(i, n).not_over(
            g.max_grip_n,
        ),
        i != g.pressure_slot ==> g.held(i, n) == g.last_good@[i],
{
}

} // verus!
