//! Radio blackout, jitter and a corrupted sensor, injected into a simulated mobile
//! manipulator.
//!
//! The test runs for ten frames. Most of them are lost; one comes late; in one the
//! pressure sensor of the gripper is corrupted. What happens in a frame, and the
//! verdict, are decided here.

use crate::diagnostics::frequency_enforcer::{
    interval_of, jitter_of, FrequencyEnforcer, JitterReport,
};
use crate::io_bridge::command_vector::{CommandVector, MAX_JOINTS};
use crate::io_bridge::failsafe::FailsafeGuard;
use crate::io_bridge::hal_loader::HardwareConfig;
use crate::io_bridge::state_vector::StateVector;
use crate::io_bridge::vector_sanitizer::{
    are_intervals, limits_ok, sanitized, VectorSanitizer,
};
use crate::io_bridge::wire::repeated;
use crate::network_hook::message::{
    payload_bytes, state_payload, telemetry_topic, telemetry_topic_of, Message, Sent,
};
use crate::numeric::binary32::{number_zero, Binary32};
use crate::system::clock::{micros_of, nanos_since};
use crate::text::{joined, push_joined, texts};
use std::time::Instant;
use vstd::prelude::*;
use vstd::slice::*;
use vstd::string::*;

verus! {

/// Frames of the test.
pub const FRAMES: usize = 10;

/// Period of the control loop.
pub const NOMINAL_INTERVAL_US: u64 = 10_000;

/// The frame that comes late.
pub const JITTER_FRAME: usize = 5;

/// The time that this frame takes.
pub const JITTER_INTERVAL_US: u64 = 18_000;

/// Tolerance of the period, in percent.
pub const JITTER_TOLERANCE_PCT: u64 = 15;

/// The frame in which the pressure sensor is corrupted.
pub const CORRUPT_FRAME: usize = 8;

/// What the corrupted sensor measures: 120.5 N.
pub const CORRUPT_GRIP_BITS: u32 = 0x42f1_0000;

/// Reaction time that the guard must keep.
pub const FAILSAFE_DEADLINE_US: u64 = 2000;

/// Angle of the second joint while the arm holds the box: -1.5708 rad.
pub const LIFT_BITS: u32 = 0xbfc9_0ff9;

/// Angle of the third joint: 1.5708 rad.
pub const ELBOW_BITS: u32 = 0x3fc9_0ff9;

/// Registers of the machine: six joints of the arm, the gripper and four wheels.
pub const HELD_REGISTERS: usize = 11;

/// The frames that get through: the first, the one with the corrupted sensor, and the
/// last.
pub open spec fn survives(frame: usize) -> bool {
    frame == 1 || frame == 8 || frame == 10
}

/// Whether a frame gets through the radio blackout.
pub fn frame_survives_radio(frame: usize) -> (r: bool)
    ensures
        r == survives(frame),
{
    frame == 1 || frame == 8 || frame == 10
}

/// How long to wait in a frame, in microseconds.
pub fn frame_wait_us(frame: usize) -> (us: u64)
    ensures
        us == if frame == JITTER_FRAME {
            JITTER_INTERVAL_US
        } else {
            NOMINAL_INTERVAL_US
        },
{
    if frame == JITTER_FRAME {
        JITTER_INTERVAL_US
    } else {
        NOMINAL_INTERVAL_US
    }
}

/// Tolerance of the period, in microseconds.
pub fn tolerance_us() -> (us: u64)
    ensures
        us == 1_500,
{
    NOMINAL_INTERVAL_US * JITTER_TOLERANCE_PCT / 100
}

/// The names of the registers: those of the joints, with the gripper's pressure put in
/// at its slot.
pub open spec fn register_names(config: HardwareConfig) -> Seq<Seq<char>> {
    let joints = Seq::new(config.joints@.len(), |i: int| config.joints@[i].name@);
    match config.gripper {
        None => joints,
        Some(g) => joints.insert(g.pressure_slot as int, "grip_pressure"@),
    }
}

/// The names of the registers.
pub fn build_register_names(config: &HardwareConfig) -> (v: Vec<String>)
    requires
        config.gripper is Some ==> config.gripper->0.pressure_slot <= config.joints@.len(),
    ensures
        v@.len() == register_names(*config).len(),
        forall|i: int| 0 <= i < v@.len() ==> (#[trigger] v@[i])@ == register_names(*config)[i],
{
    let mut v: Vec<String> = Vec::new();
    let mut i: usize = 0;
    while i < config.joints.len()
        invariant
            i <= config.joints@.len(),
            v@.len() == i,
            forall|j: int| 0 <= j < i ==> (#[trigger] v@[j])@ == config.joints@[j].name@,
        decreases config.joints@.len() - i,
    {
        v.push(config.joints[i].name.clone());
        i = i + 1;
    }
    match &config.gripper {
        None => {},
        Some(g) => {
            v.insert(g.pressure_slot, "grip_pressure".to_string());
        },
    }
    v
}

/// How a frame kept its period.
#[derive(Debug, Clone, Copy)]
pub enum FrameTiming {
    /// Outside the tolerance.
    Jitter(JitterReport),
    /// Late, but within the tolerance.
    Drift { late_us: u64 },
    OnTime,
}

/// What became of a frame that got through.
#[derive(Debug)]
pub struct FrameOutcome {
    /// The pressure as measured.
    pub raw_pressure: Binary32,
    /// The pressure after sanitizing.
    pub clean_pressure: Binary32,
    /// The measured pressure exceeded the physical limit.
    pub anomaly: bool,
    /// The state became the reference of the guard.
    pub healthy: bool,
    /// Time that sanitizing took.
    pub sanitize_us: u64,
    /// What is put on the bus.
    pub message: Message,
}

/// What became of a frame.
#[derive(Debug)]
pub enum FrameResult {
    /// It was lost, and the guard reacted in this time.
    Lost { response_us: u64 },
    /// It got through.
    Passed(FrameOutcome),
}

/// A reason for the verdict that the test failed.
#[derive(Debug, Clone, Copy, PartialEq, Eq, Structural)]
pub enum Failure {
    RoundTrip,
    Deadline,
    NoIntervention,
    NoAnomaly,
}

impl Failure {
    pub open spec fn reason(self) -> Seq<char> {
        match self {
            Failure::RoundTrip => "Zenoh round-trip failed"@,
            Failure::Deadline => "failsafe beyond the 2 ms deadline"@,
            Failure::NoIntervention => "no failsafe intervention recorded"@,
            Failure::NoAnomaly => "no anomaly sanitized"@,
        }
    }

    pub fn label(&self) -> (s: &'static str)
        ensures
            s@ == self.reason(),
    {
        match self {
            Failure::RoundTrip => "Zenoh round-trip failed",
            Failure::Deadline => "failsafe beyond the 2 ms deadline",
            Failure::NoIntervention => "no failsafe intervention recorded",
            Failure::NoAnomaly => "no anomaly sanitized",
        }
    }
}

/// The reasons as text.
pub open spec fn reasons(failures: Seq<Failure>) -> Seq<Seq<char>> {
    Seq::new(failures.len(), |i: int| failures[i].reason())
}

/// State of the test.
pub struct ChaosRun {
    pub hardware_id: String,
    pub limits: Vec<(Binary32, Binary32)>,
    pub pressure_slot: usize,
    pub nominal_grip_n: Binary32,
    pub max_grip_n: Binary32,
    pub enforcer: FrequencyEnforcer,
    pub sanitizer: VectorSanitizer,
    pub failsafe: FailsafeGuard,
    pub state: StateVector,
    pub values: [Binary32; MAX_JOINTS],
    pub worst_failsafe_us: u64,
    pub worst_sanitize_us: u64,
    pub lost_frames: u64,
    pub sanitized_anomalies: u64,
    pub published_bytes: u64,
    pub published_frames: u64,
    pub roundtrip_ok: bool,
}

/// The larger of two durations.
pub open spec fn worse(a: u64, b: u64) -> u64 {
    if a > b {
        a
    } else {
        b
    }
}

impl ChaosRun {
    /// Prepares the test for the machine that the configuration describes; the machine
    /// needs a gripper.
    pub fn new(config: &HardwareConfig) -> (r: Result<ChaosRun, String>)
        requires
            config.gripper is Some ==> number_zero().not_over(config.gripper->0.max_pressure_n),
        ensures
            r is Ok <==> config.gripper is Some,
            match r {
                Err(e) => e@
                    == "HAL JSON without `gripper` section: impossible to inject the pressure anomaly"@,
                Ok(run) => {
                    let g = config.gripper->0;
                    &&& run.hardware_id@ == config.robot_name@
                    &&& run.limits@ == config.registers()
                    &&& run.pressure_slot == g.pressure_slot
                    &&& run.nominal_grip_n == g.nominal_grip_n
                    &&& run.max_grip_n == g.max_pressure_n
                    &&& run.enforcer.hardware_id@ == config.robot_name@
                    &&& run.enforcer.expected_interval_us == interval_of(config.expected_hz)
                    &&& run.enforcer.max_jitter_us == config.max_jitter_us
                    &&& run.sanitizer.last_safe@ == Seq::new(
                        MAX_JOINTS as nat,
                        |i: int| number_zero(),
                    )
                    &&& !run.failsafe.engaged
                    &&& run.failsafe.pressure_slot == g.pressure_slot
                    &&& run.failsafe.max_grip_n == g.max_pressure_n
                    &&& run.failsafe.last_good@ == Seq::new(
                        MAX_JOINTS as nat,
                        |i: int| number_zero(),
                    )
                    &&& run.failsafe.last_good_pressure_n == g.nominal_grip_n.clamped(
                        number_zero(),
                        g.max_pressure_n,
                    )
                    &&& run.failsafe.blackout_frames == 0
                    &&& run.failsafe.interventions == 0
                    &&& run.failsafe.last_response_us == 0
                    &&& run.state.hardware_id@ == config.robot_name@
                    &&& run.state.len == 0
                    &&& run.state.entries() == Seq::new(MAX_JOINTS as nat, |i: int| number_zero())
                    &&& run.values@ == Seq::new(MAX_JOINTS as nat, |i: int| number_zero())
                    &&& run.worst_failsafe_us == 0
                    &&& run.worst_sanitize_us == 0
                    &&& run.lost_frames == 0
                    &&& run.sanitized_anomalies == 0
                    &&& run.published_bytes == 0
                    &&& run.published_frames == 0
                    &&& !run.roundtrip_ok
                },
            },
    {
        match &config.gripper {
            None => Err(
                "HAL JSON without `gripper` section: impossible to inject the pressure anomaly".to_string(),
            ),
            Some(g) => {
                let none: [Binary32; 0] = [];
                let state: StateVector = StateVector::new(&config.robot_name, &none);
                assert(state.entries() =~= Seq::new(MAX_JOINTS as nat, |i: int| number_zero()));
                Ok(
                    ChaosRun {
                        hardware_id: config.robot_name.clone(),
                        limits: config.register_limits(),
                        pressure_slot: g.pressure_slot,
                        nominal_grip_n: g.nominal_grip_n,
                        max_grip_n: g.max_pressure_n,
                        enforcer: FrequencyEnforcer::new(
                            &config.robot_name,
                            config.expected_hz,
                            config.max_jitter_us,
                        ),
                        sanitizer: VectorSanitizer::new(),
                        failsafe: FailsafeGuard::new(
                            g.pressure_slot,
                            g.nominal_grip_n,
                            g.max_pressure_n,
                        ),
                        state,
                        values: repeated(Binary32::zero()),
                        worst_failsafe_us: 0,
                        worst_sanitize_us: 0,
                        lost_frames: 0,
                        sanitized_anomalies: 0,
                        published_bytes: 0,
                        published_frames: 0,
                        roundtrip_ok: false,
                    },
                )
            },
        }
    }

    /// The machine can be simulated: its registers fit into a vector, the pressure is
    /// one of them, and every limit is an interval.
    pub open spec fn wf(self) -> bool {
        &&& self.limits@.len() <= MAX_JOINTS
        &&& self.pressure_slot < self.limits@.len()
        &&& limits_ok(self.limits@, self.limits@.len())
        &&& number_zero().not_over(self.max_grip_n)
        &&& self.failsafe.pressure_slot == self.pressure_slot
        &&& self.failsafe.max_grip_n == self.max_grip_n
    }

    /// Whether the machine can be simulated.
    pub fn is_simulable(&self) -> (r: bool)
        ensures
            r == self.wf(),
    {
        self.limits.len() <= MAX_JOINTS && self.pressure_slot < self.limits.len()
            && are_intervals(self.limits.as_slice(), self.limits.len())
            && Binary32::zero().at_most(self.max_grip_n) && self.failsafe.pressure_slot
            == self.pressure_slot && self.failsafe.max_grip_n.to_bits() == self.max_grip_n.to_bits()
    }

    /// The counters can still count.
    pub open spec fn countable(self) -> bool {
        &&& self.lost_frames < u64::MAX
        &&& self.sanitized_anomalies < u64::MAX
        &&& self.published_bytes < u64::MAX - 128
        &&& self.published_frames < u64::MAX
        &&& self.failsafe.blackout_frames < u64::MAX
        &&& self.failsafe.interventions < u64::MAX
    }

    pub open spec fn timing(self, elapsed_us: u64) -> FrameTiming {
        match jitter_of(
            self.enforcer.expected_interval_us,
            self.enforcer.max_jitter_us,
            elapsed_us,
        ) {
            Some(report) => FrameTiming::Jitter(report),
            None => if elapsed_us > NOMINAL_INTERVAL_US {
                FrameTiming::Drift { late_us: (elapsed_us - NOMINAL_INTERVAL_US) as u64 }
            } else {
                FrameTiming::OnTime
            },
        }
    }

    /// Compares the time that a frame took with the period.
    pub fn assess(&self, elapsed_us: u64) -> (t: FrameTiming)
        ensures
            t == self.timing(elapsed_us),
    {
        match self.enforcer.analyze_interval(elapsed_us) {
            Some(report) => FrameTiming::Jitter(report),
            None => if elapsed_us > NOMINAL_INTERVAL_US {
                FrameTiming::Drift { late_us: elapsed_us - NOMINAL_INTERVAL_US }
            } else {
                FrameTiming::OnTime
            },
        }
    }

    /// The test after a lost frame, to which the guard reacted in `response_us`: the guard
    /// is armed.
    pub open spec fn lost(self, response_us: u64) -> ChaosRun {
        ChaosRun {
            lost_frames: (self.lost_frames + 1) as u64,
            worst_failsafe_us: worse(response_us, self.worst_failsafe_us),
            failsafe: FailsafeGuard {
                engaged: true,
                blackout_frames: (self.failsafe.blackout_frames + 1) as u64,
                interventions: (self.failsafe.interventions + 1) as u64,
                last_response_us: response_us,
                ..self.failsafe
            },
            ..self
        }
    }

    /// A frame is lost: the guard is armed and holds the robot. Returns its reaction
    /// time in microseconds.
    pub fn lose_frame(&mut self) -> (response_us: u64)
        requires
            old(self).countable(),
        ensures
            *final(self) == old(self).lost(response_us),
    {
        self.lost_frames = self.lost_frames + 1;
        self.failsafe.on_blackout();
        let mut held: CommandVector = CommandVector::zeros(HELD_REGISTERS);
        let response_us: u64 = self.failsafe.enforce(&mut held);
        if response_us > self.worst_failsafe_us {
            self.worst_failsafe_us = response_us;
        }
        response_us
    }

    /// The pressure that is measured in a frame.
    pub open spec fn measured(self, frame: usize) -> Binary32 {
        if frame == CORRUPT_FRAME {
            (Binary32 { bits: CORRUPT_GRIP_BITS })
        } else {
            self.nominal_grip_n
        }
    }

    /// Register `i` in a frame: the wheels stand still, the gripper measures, and the
    /// arm holds the box.
    pub open spec fn register(self, frame: usize, i: int) -> Binary32 {
        if 7 <= i < 11 {
            number_zero()
        } else if i == self.pressure_slot {
            self.measured(frame)
        } else if i == 1 {
            (Binary32 { bits: LIFT_BITS })
        } else if i == 2 {
            (Binary32 { bits: ELBOW_BITS })
        } else if i < 6 {
            number_zero()
        } else {
            self.values@[i]
        }
    }

    /// Register `i` after sanitizing.
    pub open spec fn clean_register(self, frame: usize, i: int) -> Binary32 {
        sanitized(self.register(frame, i), self.sanitizer.last_safe@[i], self.limits@, i)
    }

    /// The pressure after sanitizing.
    pub open spec fn clean(self, frame: usize) -> Binary32 {
        self.clean_register(frame, self.pressure_slot as int)
    }

    /// The state of the frame is a safe reference: the pressure is within the limit and
    /// was not changed by sanitizing.
    pub open spec fn healthy(self, frame: usize) -> bool {
        self.clean(frame).not_over(self.max_grip_n) && self.measured(frame).same_number(
            self.clean(frame),
        )
    }

    /// All registers after sanitizing.
    pub open spec fn clean_registers(self, frame: usize) -> Seq<Binary32> {
        Seq::new(self.limits@.len(), |i: int| self.clean_register(frame, i))
    }

    fn fill_registers(&mut self, raw: Binary32)
        requires
            old(self).pressure_slot < MAX_JOINTS,
        ensures
            forall|i: int|
                0 <= i < MAX_JOINTS ==> #[trigger] final(self).values@[i] == if 7 <= i < 11 {
                    number_zero()
                } else if i == old(self).pressure_slot {
                    raw
                } else if i == 1 {
                    (Binary32 { bits: LIFT_BITS })
                } else if i == 2 {
                    (Binary32 { bits: ELBOW_BITS })
                } else if i < 6 {
                    number_zero()
                } else {
                    old(self).values@[i]
                },
            *final(self) == (ChaosRun { values: final(self).values, ..*old(self) }),
    {
        self.values[0] = Binary32::zero();
        self.values[1] = Binary32 { bits: LIFT_BITS };
        self.values[2] = Binary32 { bits: ELBOW_BITS };
        self.values[3] = Binary32::zero();
        self.values[4] = Binary32::zero();
        self.values[5] = Binary32::zero();
        self.values[self.pressure_slot] = raw;
        self.values[7] = Binary32::zero();
        self.values[8] = Binary32::zero();
        self.values[9] = Binary32::zero();
        self.values[10] = Binary32::zero();
    }

    /// What a frame that gets through gives.
    pub open spec fn gives(self, frame: usize, r: FrameOutcome) -> bool {
        &&& r.raw_pressure == self.measured(frame)
        &&& r.clean_pressure == self.clean(frame)
        &&& r.anomaly == self.max_grip_n.below(self.measured(frame))
        &&& r.healthy == self.healthy(frame)
        &&& r.message@ == (Sent {
            topic: telemetry_topic_of(self.hardware_id@),
            payload: payload_bytes(self.clean_registers(frame), self.limits@.len()),
        })
    }

    /// How a frame that gets through changes the test.
    pub open spec fn passed(self, frame: usize, r: FrameOutcome, next: ChaosRun) -> bool {
        let n = self.limits@.len() as int;
        &&& next.hardware_id == self.hardware_id
        &&& next.limits == self.limits
        &&& next.pressure_slot == self.pressure_slot
        &&& next.nominal_grip_n == self.nominal_grip_n
        &&& next.max_grip_n == self.max_grip_n
        &&& next.enforcer == self.enforcer
        &&& forall|i: int|
            0 <= i < MAX_JOINTS ==> #[trigger] next.values@[i] == self.register(frame, i)
        &&& forall|i: int|
            0 <= i < MAX_JOINTS ==> #[trigger] next.sanitizer.last_safe@[i] == if i < n {
                self.clean_register(frame, i)
            } else {
                self.sanitizer.last_safe@[i]
            }
        &&& next.state.hardware_id == self.state.hardware_id
        &&& next.state@ == self.clean_registers(frame)
        &&& next.failsafe.engaged == self.failsafe.engaged
        &&& next.failsafe.pressure_slot == self.failsafe.pressure_slot
        &&& next.failsafe.max_grip_n == self.failsafe.max_grip_n
        &&& next.failsafe.blackout_frames == self.failsafe.blackout_frames
        &&& next.failsafe.interventions == self.failsafe.interventions
        &&& next.failsafe.last_response_us == self.failsafe.last_response_us
        &&& next.failsafe.last_good_pressure_n == if r.healthy {
            r.clean_pressure.clamped(number_zero(), self.max_grip_n)
        } else {
            self.failsafe.last_good_pressure_n
        }
        &&& forall|i: int|
            0 <= i < MAX_JOINTS ==> #[trigger] next.failsafe.last_good@[i] == if r.healthy && i
                < n {
                self.clean_register(frame, i)
            } else {
                self.failsafe.last_good@[i]
            }
        &&& next.worst_failsafe_us == self.worst_failsafe_us
        &&& next.worst_sanitize_us == worse(r.sanitize_us, self.worst_sanitize_us)
        &&& next.lost_frames == self.lost_frames
        &&& next.sanitized_anomalies == self.sanitized_anomalies + if r.anomaly {
            1int
        } else {
            0int
        }
        &&& next.published_bytes == self.published_bytes + 4 * n
        &&& next.published_frames == self.published_frames + 1
        &&& next.roundtrip_ok == self.roundtrip_ok
    }

    /// A frame gets through: the registers are sanitized, a healthy state becomes the
    /// reference of the guard, and the state is put on the bus.
    pub fn pass_frame(&mut self, frame: usize) -> (r: FrameOutcome)
        requires
            old(self).wf(),
            old(self).countable(),
        ensures
            old(self).gives(frame, r),
            old(self).passed(frame, r, *final(self)),
            final(self).wf(),
    {
        let ghost before = *self;
        let raw: Binary32 = if frame == CORRUPT_FRAME {
            Binary32 { bits: CORRUPT_GRIP_BITS }
        } else {
            self.nominal_grip_n
        };
        self.fill_registers(raw);
        let n: usize = self.limits.len();
        let first: &[Binary32] = slice_subrange(self.values.as_slice(), 0, n);
        let mut command: CommandVector = CommandVector::from_slice(first);
        assert forall|i: int| 0 <= i < n implies #[trigger] command.entries()[i] == before.register(
            frame,
            i,
        ) by {
            assert(first@[i] == self.values@[i]);
        }
        let ghost dirty = command;
        let start: Instant = Instant::now();
        self.sanitizer.sanitize_and_clamp(&mut command, self.limits.as_slice());
        let sanitize_us: u64 = micros_of(nanos_since(&start));
        if sanitize_us > self.worst_sanitize_us {
            self.worst_sanitize_us = sanitize_us;
        }
        proof {
            assert forall|i: int| 0 <= i < n implies #[trigger] command.entries()[i]
                == before.clean_register(frame, i) by {
                assert(dirty.entries()[i] == before.register(frame, i));
            }
            assert(command.entries() == command.target_actuators@);
            assert(command@ =~= before.clean_registers(frame));
            assert forall|i: int| 0 <= i < n implies #[trigger] self.sanitizer.last_safe@[i]
                == before.clean_register(frame, i) by {
                assert(command.entries()[i] == before.clean_register(frame, i));
            }
        }
        let clean: Binary32 = command.target_actuators[self.pressure_slot];
        assert(clean == command.entries()[self.pressure_slot as int]);
        let anomaly: bool = self.max_grip_n.less_than(raw);
        if anomaly {
            self.sanitized_anomalies = self.sanitized_anomalies + 1;
        }
        let healthy: bool = clean.at_most(self.max_grip_n) && raw.equals(clean);
        self.state.set_values(command.as_slice());
        proof {
            assert(self.state@ =~= command@);
            assert forall|i: int| 0 <= i < n implies #[trigger] self.state.entries()[i]
                == before.clean_register(frame, i) by {
                assert(command@[i] == before.clean_register(frame, i));
            }
        }
        if healthy {
            self.failsafe.snapshot_healthy(&self.state);
            assert forall|i: int| 0 <= i < n implies #[trigger] self.failsafe.last_good@[i]
                == before.clean_register(frame, i) by {
                assert(self.state.entries()[i] == before.clean_register(frame, i));
            }
            assert(self.state.entries()[self.pressure_slot as int] == clean);
        }
        let payload: Vec<u8> = state_payload(&self.state);
        proof {
            assert(self.state.entries().take(n as int) =~= before.clean_registers(frame).take(
                n as int,
            ));
        }
        let message: Message = Message { topic: telemetry_topic(&self.hardware_id), payload };
        self.published_bytes = self.published_bytes + 4 * n as u64;
        self.published_frames = self.published_frames + 1;
        FrameOutcome {
            raw_pressure: raw,
            clean_pressure: clean,
            anomaly,
            healthy,
            sanitize_us,
            message,
        }
    }

    /// Runs a frame, which is lost or gets through.
    pub fn run_frame(&mut self, frame: usize) -> (r: FrameResult)
        requires
            old(self).wf(),
            old(self).countable(),
        ensures
            final(self).wf(),
            counted(*old(self), frame, *final(self)),
            r is Passed <==> survives(frame),
            match r {
                FrameResult::Lost { response_us } => *final(self) == old(self).lost(response_us),
                FrameResult::Passed(outcome) => old(self).gives(frame, outcome) && old(self).passed(
                    frame,
                    outcome,
                    *final(self),
                ),
            },
    {
        if frame_survives_radio(frame) {
            FrameResult::Passed(self.pass_frame(frame))
        } else {
            FrameResult::Lost { response_us: self.lose_frame() }
        }
    }

    /// The state came back from the bus, or not; in either case telemetry is stable
    /// again, and an armed guard is disarmed. Returns whether it was armed.
    pub fn close_frame(&mut self, came_back: bool) -> (disarmed: bool)
        ensures
            disarmed == old(self).failsafe.engaged,
            *final(self) == (ChaosRun {
                roundtrip_ok: old(self).roundtrip_ok || came_back,
                failsafe: FailsafeGuard { engaged: false, ..old(self).failsafe },
                ..*old(self)
            }),
            forall|before: ChaosRun, frame: usize|
                counted(before, frame, *old(self)) ==> #[trigger] counted(
                    before,
                    frame,
                    *final(self),
                ),
    {
        if came_back {
            self.roundtrip_ok = true;
        }
        let engaged: bool = self.failsafe.is_engaged();
        if engaged {
            self.failsafe.disengage();
        }
        engaged
    }

    /// The reasons against passing the test, in order.
    pub open spec fn failures(self) -> Seq<Failure> {
        let a = if !self.roundtrip_ok {
            seq![Failure::RoundTrip]
        } else {
            Seq::empty()
        };
        let b = if self.worst_failsafe_us >= FAILSAFE_DEADLINE_US {
            seq![Failure::Deadline]
        } else {
            Seq::empty()
        };
        let c = if self.failsafe.interventions == 0 {
            seq![Failure::NoIntervention]
        } else {
            Seq::empty()
        };
        let d = if self.sanitized_anomalies == 0 {
            seq![Failure::NoAnomaly]
        } else {
            Seq::empty()
        };
        a + b + c + d
    }

    /// Whether the machine stood the test, and if not, the reasons.
    pub fn verdict(&self) -> (r: Result<(), String>)
        ensures
            r is Ok <==> self.roundtrip_ok && self.worst_failsafe_us < FAILSAFE_DEADLINE_US
                && self.failsafe.interventions > 0 && self.sanitized_anomalies > 0,
            r is Err ==> r->Err_0@ == "TEST FAILED: "@ + joined(
                reasons(self.failures()),
                ", "@,
            ),
    {
        let mut f: Vec<Failure> = Vec::new();
        if !self.roundtrip_ok {
            f.push(Failure::RoundTrip);
        }
        if self.worst_failsafe_us >= FAILSAFE_DEADLINE_US {
            f.push(Failure::Deadline);
        }
        if self.failsafe.interventions == 0 {
            f.push(Failure::NoIntervention);
        }
        if self.sanitized_anomalies == 0 {
            f.push(Failure::NoAnomaly);
        }
        assert(f@ =~= self.failures());
        if f.len() == 0 {
            return Ok(());
        }
        let labels: Vec<String> = labels_of(&f);
        let mut text: String = "TEST FAILED: ".to_string();
        push_joined(&mut text, &labels, ", ");
        Err(text)
    }
}

fn labels_of(failures: &Vec<Failure>) -> (v: Vec<String>)
    ensures
        texts(v@) == reasons(failures@),
{
    let mut v: Vec<String> = Vec::new();
    let mut i: usize = 0;
    while i < failures.len()
        invariant
            i <= failures@.len(),
            v@.len() == i,
            forall|j: int| 0 <= j < i ==> (#[trigger] v@[j])@ == failures@[j].reason(),
        decreases failures@.len() - i,
    {
        v.push(failures[i].label().to_string());
        i = i + 1;
    }
    assert(texts(v@) =~= reasons(failures@));
    v
}

/// A frame whose pressure exceeds the limit never becomes the reference of the guard.
pub proof fn law_corrupted_frame_is_no_reference(run: ChaosRun, frame: usize)
    requires
        run.wf(),
        run.max_grip_n.below(run.measured(frame)),
    ensures
        !run.healthy(frame),
{
}

/// Whatever else a frame does, it is either counted as lost, with one intervention of
/// the guard, or as published, with an anomaly if the pressure exceeds the limit.
pub open spec fn counted(before: ChaosRun, frame: usize, after: ChaosRun) -> bool {
    &&& after.nominal_grip_n == before.nominal_grip_n
    &&& after.max_grip_n == before.max_grip_n
    &&& if survives(frame) {
        &&& after.lost_frames == before.lost_frames
        &&& after.failsafe.interventions == before.failsafe.interventions
        &&& after.published_frames == before.published_frames + 1
        &&& after.sanitized_anomalies == before.sanitized_anomalies + if before.max_grip_n.below(
            before.measured(frame),
        ) {
            1int
        } else {
            0int
        }
    } else {
        &&& after.lost_frames == before.lost_frames + 1
        &&& after.failsafe.interventions == before.failsafe.interventions + 1
        &&& after.published_frames == before.published_frames
        &&& after.sanitized_anomalies == before.sanitized_anomalies
    }
}

/// Frame `frame` leads from one of the states to the next.
pub open spec fn frame_counted(states: Seq<ChaosRun>, frame: usize) -> bool {
    counted(states[frame - 1], frame, states[frame as int])
}

/// Over the whole test seven frames are lost and three published. For a machine whose
/// nominal pressure is within the limit and the corrupted one beyond it, exactly one
/// anomaly is found, so that the verdict rests on the bus and on the deadline alone.
pub proof fn law_whole_run(states: Seq<ChaosRun>)
    requires
        states.len() == FRAMES + 1,
        states[0].lost_frames == 0,
        states[0].published_frames == 0,
        states[0].sanitized_anomalies == 0,
        states[0].failsafe.interventions == 0,
        !states[0].max_grip_n.below(states[0].nominal_grip_n),
        states[0].max_grip_n.below(Binary32 { bits: CORRUPT_GRIP_BITS }),
        forall|frame: usize|
            1 <= frame <= FRAMES ==> #[trigger] frame_counted(states, frame),
    ensures
        states[FRAMES as int].lost_frames == 7,
        states[FRAMES as int].failsafe.interventions == 7,
        states[FRAMES as int].published_frames == 3,
        states[FRAMES as int].sanitized_anomalies == 1,
        states[FRAMES as int].failures() == (if !states[FRAMES as int].roundtrip_ok {
            seq![Failure::RoundTrip]
        } else {
            Seq::empty()
        }) + (if states[FRAMES as int].worst_failsafe_us >= FAILSAFE_DEADLINE_US {
            seq![Failure::Deadline]
        } else {
            Seq::empty()
        }),
{
    assert(frame_counted(states, 1));
    assert(frame_counted(states, 2));
    assert(frame_counted(states, 3));
    assert(frame_counted(states, 4));
    assert(frame_counted(states, 5));
    assert(frame_counted(states, 6));
    assert(frame_counted(states, 7));
    assert(frame_counted(states, 8));
    assert(frame_counted(states, 9));
    assert(frame_counted(states, 10));
    assert(states[10].failures() =~= (if !states[10].roundtrip_ok {
        seq![Failure::RoundTrip]
    } else {
        Seq::empty()
    }) + (if states[10].worst_failsafe_us >= FAILSAFE_DEADLINE_US {
        seq![Failure::Deadline]
    } else {
        Seq::empty()
    }));
}

/// A frame that takes as long as the late one is reported as jitter, at the period and
/// the tolerance of the test.
pub proof fn law_late_frame_is_reported(run: ChaosRun, elapsed_us: u64)
    requires
        run.enforcer.expected_interval_us == NOMINAL_INTERVAL_US,
        run.enforcer.max_jitter_us == NOMINAL_INTERVAL_US * JITTER_TOLERANCE_PCT / 100,
        elapsed_us >= JITTER_INTERVAL_US,
    ensures
        run.timing(elapsed_us) is Jitter,
{
}

/// The test is passed exactly if the bus works, the guard reacted in time, it intervened, and
/// an anomaly was found; each reason is given exactly if it holds.
pub proof fn law_verdict(run: ChaosRun)
    ensures
        ({
            let f = run.failures();
            &&& f.contains(Failure::RoundTrip) <==> !run.roundtrip_ok
            &&& f.contains(Failure::Deadline) <==> run.worst_failsafe_us >= FAILSAFE_DEADLINE_US
            &&& f.contains(Failure::NoIntervention) <==> run.failsafe.interventions == 0
            &&& f.contains(Failure::NoAnomaly) <==> run.sanitized_anomalies == 0
            &&& f.no_duplicates()
        }),
{
    let f = run.failures();
    let a = if !run.roundtrip_ok { 1int } else { 0 };
    let b = a + if run.worst_failsafe_us >= FAILSAFE_DEADLINE_US { 1int } else { 0 };
    let c = b + if run.failsafe.interventions == 0 { 1int } else { 0 };
    if !run.roundtrip_ok {
        assert(f[0] == Failure::RoundTrip);
    }
    if run.worst_failsafe_us >= FAILSAFE_DEADLINE_US {
        assert(f[a] == Failure::Deadline);
    }
    if run.failsafe.interventions == 0 {
        assert(f[b] == Failure::NoIntervention);
    }
    if run.sanitized_anomalies == 0 {
        assert(f[c] == Failure::NoAnomaly);
    }
}

/// A lost frame is counted, arms the guard, and raises the worst reaction time to at least its
/// own; the reference of the guard stays.
pub proof fn law_lost_frame_arms_the_guard(run: ChaosRun, response_us: u64)
    requires
        run.countable(),
    ensures
        ({
            let next = run.lost(response_us);
            &&& next.failsafe.engaged
            &&& next.lost_frames == run.lost_frames + 1
            &&& next.failsafe.blackout_frames == run.failsafe.blackout_frames + 1
            &&& next.failsafe.interventions == run.failsafe.interventions + 1
            &&& next.failsafe.last_good == run.failsafe.last_good
            &&& next.failsafe.last_good_pressure_n == run.failsafe.last_good_pressure_n
            &&& next.worst_failsafe_us >= response_us
            &&& next.worst_failsafe_us >= run.worst_failsafe_us
            &&& next.worst_failsafe_us == response_us || next.worst_failsafe_us
                == run.worst_failsafe_us
            &&& next.published_frames == run.published_frames
        }),
{
}

/// A frame that is not reported drifts by what it is late, or is on time.
pub proof fn law_drift_is_lateness(run: ChaosRun, elapsed_us: u64)
    ensures
        match run.timing(elapsed_us) {
            FrameTiming::Jitter(r) => r.measured_us == elapsed_us,
            FrameTiming::Drift { late_us } => late_us > 0 && elapsed_us == NOMINAL_INTERVAL_US
                + late_us,
            FrameTiming::OnTime => elapsed_us <= NOMINAL_INTERVAL_US,
        },
{
}

/// In a frame the four wheels stand still, the gripper reports the measured pressure, and every
/// frame but the corrupted one measures the nominal pressure.
pub proof fn law_frame_registers(run: ChaosRun, frame: usize, i: int)
    requires
        0 <= i < MAX_JOINTS,
    ensures
        7 <= i <= 10 ==> run.register(frame, i) == number_zero(),
        i == run.pressure_slot && !(7 <= i <= 10) ==> run.register(frame, i) == run.measured(frame),
        frame != 8 ==> run.measured(frame) == run.nominal_grip_n,
        run.measured(8) == (Binary32 { bits: CORRUPT_GRIP_BITS }),
        i > 10 && i != run.pressure_slot ==> run.register(frame, i) == run.values@[i],
{
}

/// The names of the registers are those of the joints in their order; that of the pressure
/// stands at its slot, and what comes behind it moves up by one.
pub proof fn law_register_names(config: HardwareConfig, i: int)
    requires
        0 <= i < config.joints@.len(),
    ensures
        config.gripper is None ==> register_names(config)[i] == config.joints@[i].name@,
        config.gripper matches Some(g) ==> g.pressure_slot <= config.joints@.len() ==> {
            &&& register_names(config).len() == config.joints@.len() + 1
            &&& register_names(config)[g.pressure_slot as int] == "grip_pressure"@
            &&& i < g.pressure_slot ==> register_names(config)[i] == config.joints@[i].name@
            &&& i >= g.pressure_slot ==> register_names(config)[i + 1] == config.joints@[i].name@
        },
{
}

} // verus!
