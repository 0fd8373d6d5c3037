//! The control loop at 100 Hz and the watch on its period.

use crate::io_bridge::command_vector::{CommandVector, MAX_JOINTS};
use crate::io_bridge::vector_sanitizer::{
    law_sanitized_is_finite, law_sanitized_within_limits, law_sanitizing_twice, limits_ok,
    sanitized, VectorSanitizer,
};
use crate::io_bridge::watchdog_timer::Heartbeat;
use crate::io_bridge::wire::{decoded_all, shorter};
use crate::network_hook::message::{
    command_payload, command_topic, command_topic_of, law_payload_reads_back, payload_bytes,
    Message, Sent,
};
use crate::numeric::binary32::{number_zero, Binary32};
use crate::numeric::binary64::{whole_double, Binary64};
use crate::numeric::double_accuracy::{double_unit, law_double_quotient_is_near, near_double};
use crate::numeric::rounding::lemma_magnitude_compose;
use crate::system::clock::now_ms;
use vstd::arithmetic::div_mod::*;
use vstd::arithmetic::power2::*;
use vstd::prelude::*;

verus! {

/// Core of the control loop.
pub const RT_CONTROL_CORE: usize = 1;

/// Core of the skill runtime.
pub const WASM_RUNTIME_CORE: usize = 2;

/// The number 1000.
pub const THOUSAND_BITS: u64 = 0x408f_4000_0000_0000;

/// The number 1000000.
pub const MILLION_BITS: u64 = 0x412e_8480_0000_0000;

/// By how much a frame missed its period.
#[derive(Debug, Clone, Copy)]
pub struct JitterReport {
    pub expected_us: u64,
    pub measured_us: u64,
    pub diff_us: u64,
}

impl JitterReport {
    /// Deviation from the period, in percent.
    pub fn deviation_pct(&self) -> (p: u64)
        requires
            self.expected_us != 0 ==> self.diff_us * 100 <= u64::MAX,
        ensures
            p == if self.expected_us == 0 {
                0
            } else {
                (self.diff_us * 100) as int / self.expected_us as int
            },
    {
        if self.expected_us == 0 {
            0
        } else {
            self.diff_us * 100 / self.expected_us
        }
    }

    /// Deviation from the period, in milliseconds.
    pub fn jitter_ms(&self) -> (ms: Binary64)
        ensures
            ms == whole_double(self.diff_us).quotient(Binary64 { bits: THOUSAND_BITS }),
    {
        Binary64::from_whole(self.diff_us).divided_by(Binary64 { bits: THOUSAND_BITS })
    }
}

/// Distance of two durations.
pub open spec fn distance(a: u64, b: u64) -> int {
    if a > b {
        a - b
    } else {
        b - a
    }
}

/// What is reported of a frame that took `elapsed_us`: its distance from the period, if
/// that exceeds the tolerance.
pub open spec fn jitter_of(expected_interval_us: u64, max_jitter_us: u64, elapsed_us: u64)
    -> Option<JitterReport> {
    let diff = distance(elapsed_us, expected_interval_us);
    if diff > max_jitter_us {
        Some(
            JitterReport {
                expected_us: expected_interval_us,
                measured_us: elapsed_us,
                diff_us: diff as u64,
            },
        )
    } else {
        None
    }
}

/// Compares a frame with the period.
pub fn compute_jitter(expected_interval_us: u64, max_jitter_us: u64, elapsed_us: u64) -> (r: Option<
    JitterReport,
>)
    ensures
        r == jitter_of(expected_interval_us, max_jitter_us, elapsed_us),
{
    let diff_us: u64 = if elapsed_us > expected_interval_us {
        elapsed_us - expected_interval_us
    } else {
        expected_interval_us - elapsed_us
    };
    if diff_us > max_jitter_us {
        Some(
            JitterReport {
                expected_us: expected_interval_us,
                measured_us: elapsed_us,
                diff_us,
            },
        )
    } else {
        None
    }
}

/// A frame is reported exactly if it lies outside the window around the period.
pub proof fn law_report_iff_outside_window(expected: u64, tolerance: u64, elapsed: u64)
    ensures
        jitter_of(expected, tolerance, elapsed) is Some <==> (elapsed < expected - tolerance
            || elapsed > expected + tolerance),
{
}

/// Period in microseconds of a frequency in Hz, cut to whole microseconds.
pub open spec fn interval_of(hz: Binary64) -> u64 {
    (Binary64 { bits: MILLION_BITS }).quotient(hz).truncated()
}

/// Watches the period of the telemetry of one robot.
#[derive(Debug)]
pub struct FrequencyEnforcer {
    pub hardware_id: String,
    pub expected_interval_us: u64,
    pub max_jitter_us: u64,
}

impl FrequencyEnforcer {
    pub fn new(hardware_id: &str, expected_hz: Binary64, max_jitter_us: u64) -> (e:
        FrequencyEnforcer)
        ensures
            e.hardware_id@ == hardware_id@,
            e.expected_interval_us == interval_of(expected_hz),
            e.max_jitter_us == max_jitter_us,
    {
        let interval: Binary64 = (Binary64 { bits: MILLION_BITS }).divided_by(expected_hz);
        FrequencyEnforcer {
            hardware_id: hardware_id.to_string(),
            expected_interval_us: interval.to_whole(),
            max_jitter_us,
        }
    }

    /// Compares the time between two frames with the period. It never blocks: the
    /// caller decides what to do with the report.
    pub fn analyze_interval(&self, elapsed_us: u64) -> (r: Option<JitterReport>)
        ensures
            r == jitter_of(self.expected_interval_us, self.max_jitter_us, elapsed_us),
    {
        compute_jitter(self.expected_interval_us, self.max_jitter_us, elapsed_us)
    }

    /// What is reported when a frame comes in, `since_last_us` after the one before it;
    /// nothing for the first frame.
    pub fn observe(&self, since_last_us: Option<u64>) -> (r: Option<JitterReport>)
        ensures
            r == match since_last_us {
                None => None,
                Some(us) => jitter_of(self.expected_interval_us, self.max_jitter_us, us),
            },
    {
        match since_last_us {
            None => None,
            Some(us) => self.analyze_interval(us),
        }
    }
}

/// A register with one slot: the producer publishes the newest command, the consumer
/// takes it. A slower consumer gets the newest value; one that finds nothing reuses
/// the last valid command.
#[derive(Debug)]
pub struct LatestCommand {
    pub slot: Option<CommandVector>,
}

impl LatestCommand {
    /// The register after the command was published.
    pub open spec fn holding(self, cmd: CommandVector) -> LatestCommand {
        LatestCommand { slot: Some(cmd) }
    }

    /// The register after the command was taken.
    pub open spec fn emptied(self) -> LatestCommand {
        LatestCommand { slot: None }
    }

    pub fn new() -> (l: LatestCommand)
        ensures
            l.slot is None,
    {
        LatestCommand { slot: None }
    }

    /// Puts a command into the slot, in place of what was there.
    pub fn publish(&mut self, cmd: CommandVector)
        ensures
            *final(self) == old(self).holding(cmd),
    {
        self.slot = Some(cmd);
    }

    /// Takes the command out of the slot, or gives `fallback` if there is none.
    pub fn take_or(&mut self, fallback: CommandVector) -> (c: CommandVector)
        ensures
            c == match old(self).slot {
                Some(cmd) => cmd,
                None => fallback,
            },
            *final(self) == old(self).emptied(),
    {
        match self.take() {
            Some(cmd) => cmd,
            None => fallback,
        }
    }

    /// Takes the command out of the slot, if there is one.
    pub fn take(&mut self) -> (c: Option<CommandVector>)
        ensures
            c == old(self).slot,
            *final(self) == old(self).emptied(),
    {
        let c: Option<CommandVector> = self.slot;
        self.slot = None;
        c
    }
}

impl Default for LatestCommand {
    fn default() -> (l: LatestCommand)
        ensures
            l.slot is None,
    {
        LatestCommand::new()
    }
}

/// The command loop: with every tick it takes the newest command or reuses the last
/// valid one, makes it safe, beats the heart and publishes the command.
pub struct RealTimeControlLoop {
    pub hardware_id: String,
    pub sanitizer: VectorSanitizer,
    pub joint_count: usize,
    pub limits: Vec<(Binary32, Binary32)>,
    pub enforcer: FrequencyEnforcer,
    pub core: usize,
    /// The command of the last tick.
    pub last_valid: CommandVector,
}

/// The command of a tick with the command `cmd`.
pub open spec fn safe_entries(
    cmd: CommandVector,
    last_safe: Seq<Binary32>,
    limits: Seq<(Binary32, Binary32)>,
) -> Seq<Binary32> {
    Seq::new(
        MAX_JOINTS as nat,
        |i: int|
            if i < cmd.len {
                sanitized(cmd.entries()[i], last_safe[i], limits, i)
            } else {
                cmd.entries()[i]
            },
    )
}

impl RealTimeControlLoop {
    pub fn new(
        hardware_id: &str,
        joint_count: usize,
        limits: Vec<(Binary32, Binary32)>,
        expected_hz: Binary64,
        max_jitter_us: u64,
    ) -> (l: RealTimeControlLoop)
        ensures
            l.hardware_id@ == hardware_id@,
            l.sanitizer.last_safe@ == Seq::new(MAX_JOINTS as nat, |i: int| number_zero()),
            l.joint_count == joint_count,
            l.limits == limits,
            l.enforcer.hardware_id@ == hardware_id@,
            l.enforcer.expected_interval_us == interval_of(expected_hz),
            l.enforcer.max_jitter_us == max_jitter_us,
            l.core == RT_CONTROL_CORE,
            l.last_valid.len == shorter(joint_count as nat, MAX_JOINTS as nat),
            l.last_valid.entries() == Seq::new(MAX_JOINTS as nat, |i: int| number_zero()),
    {
        let last_valid: CommandVector = CommandVector::zeros(joint_count);
        assert(last_valid.entries() =~= Seq::new(MAX_JOINTS as nat, |i: int| number_zero()));
        RealTimeControlLoop {
            enforcer: FrequencyEnforcer::new(hardware_id, expected_hz, max_jitter_us),
            hardware_id: hardware_id.to_string(),
            sanitizer: VectorSanitizer::new(),
            joint_count,
            limits,
            core: RT_CONTROL_CORE,
            last_valid,
        }
    }

    /// Period of the loop in milliseconds, at least 1.
    pub fn period_ms(&self) -> (ms: u64)
        ensures
            ms == if self.enforcer.expected_interval_us < 1000 {
                1
            } else {
                self.enforcer.expected_interval_us / 1000
            },
    {
        let ms: u64 = self.enforcer.expected_interval_us / 1000;
        if ms < 1 {
            1
        } else {
            ms
        }
    }

    /// The command that the next tick starts from.
    pub open spec fn next_command(self, buffer: LatestCommand) -> CommandVector {
        match buffer.slot {
            Some(cmd) => cmd,
            None => self.last_valid,
        }
    }

    /// What the next tick publishes.
    pub open spec fn published(self, buffer: LatestCommand) -> Sent {
        let cmd = self.next_command(buffer);
        Sent {
            topic: command_topic_of(self.hardware_id@),
            payload: payload_bytes(
                safe_entries(cmd, self.sanitizer.last_safe@, self.limits@),
                cmd.len as nat,
            ),
        }
    }

    /// How a tick changes the loop.
    pub open spec fn ticked(self, buffer: LatestCommand, next: RealTimeControlLoop) -> bool {
        let cmd = self.next_command(buffer);
        let safe = safe_entries(cmd, self.sanitizer.last_safe@, self.limits@);
        &&& next.hardware_id == self.hardware_id
        &&& next.joint_count == self.joint_count
        &&& next.limits == self.limits
        &&& next.enforcer == self.enforcer
        &&& next.core == self.core
        &&& next.last_valid.len == cmd.len
        &&& next.last_valid.entries() == safe
        &&& forall|i: int|
            0 <= i < MAX_JOINTS ==> #[trigger] next.sanitizer.last_safe@[i] == if i < cmd.len {
                safe[i]
            } else {
                self.sanitizer.last_safe@[i]
            }
    }

    /// One tick: empties the slot, beats the heart and returns what is to be published.
    pub fn tick(&mut self, buffer: &mut LatestCommand, heartbeat: &mut Heartbeat) -> (m: Message)
        requires
            limits_ok(
                old(self).limits@,
                shorter(old(self).next_command(*old(buffer)).len as nat, MAX_JOINTS as nat),
            ),
        ensures
            m@ == old(self).published(*old(buffer)),
            old(self).ticked(*old(buffer), *final(self)),
            *final(buffer) == old(buffer).emptied(),
    {
        let now: u64 = now_ms();
        self.tick_at(buffer, heartbeat, now)
    }

    /// One tick at the time `now`, in milliseconds: empties the slot, beats the heart and
    /// returns what is to be published.
    pub fn tick_at(
        &mut self,
        buffer: &mut LatestCommand,
        heartbeat: &mut Heartbeat,
        now: u64,
    ) -> (m: Message)
        requires
            limits_ok(
                old(self).limits@,
                shorter(old(self).next_command(*old(buffer)).len as nat, MAX_JOINTS as nat),
            ),
        ensures
            m@ == old(self).published(*old(buffer)),
            old(self).ticked(*old(buffer), *final(self)),
            *final(buffer) == old(buffer).emptied(),
            final(heartbeat).last_ping_ms == now,
    {
        let ghost before = *self;
        let ghost slot = *buffer;
        let mut cmd: CommandVector = buffer.take_or(self.last_valid);
        let ghost taken = cmd;
        self.sanitizer.sanitize_and_clamp(&mut cmd, self.limits.as_slice());
        self.last_valid = cmd;
        proof {
            let safe = safe_entries(taken, before.sanitizer.last_safe@, before.limits@);
            assert(taken == before.next_command(slot));
            assert forall|i: int| 0 <= i < MAX_JOINTS implies #[trigger] cmd.entries()[i]
                == safe[i] by {}
            assert(cmd.entries() =~= safe);
            assert forall|i: int| 0 <= i < MAX_JOINTS
                implies #[trigger] self.sanitizer.last_safe@[i]
                == if i < taken.len {
                safe[i]
            } else {
                before.sanitizer.last_safe@[i]
            } by {
                assert(cmd.entries()[i] == safe[i]);
            }
        }
        heartbeat.ping_at(now);
        Message { topic: command_topic(&self.hardware_id), payload: command_payload(&cmd) }
    }
}

/// Whatever a skill commands, what the loop publishes for a joint with finite limits is a
/// finite number within them, and the loop keeps it as a safe value.
pub proof fn law_published_values_are_safe(
    a: RealTimeControlLoop,
    buffer: LatestCommand,
    b: RealTimeControlLoop,
    i: int,
)
    requires
        a.ticked(buffer, b),
        0 <= i < MAX_JOINTS,
        i < a.next_command(buffer).len,
        i < a.limits@.len(),
        a.limits@[i].0.finite(),
        a.limits@[i].1.finite(),
        a.limits@[i].0.not_over(a.limits@[i].1),
        a.sanitizer.last_safe@[i].finite(),
    ensures
        b.last_valid.entries()[i].finite(),
        a.limits@[i].0.not_over(b.last_valid.entries()[i]),
        b.last_valid.entries()[i].not_over(a.limits@[i].1),
        b.sanitizer.last_safe@[i].finite(),
{
    let cmd = a.next_command(buffer);
    let safe = a.sanitizer.last_safe@[i];
    law_sanitized_is_finite(cmd.entries()[i], safe, a.limits@, i);
    law_sanitized_within_limits(cmd.entries()[i], safe, a.limits@, i);
    assert(b.sanitizer.last_safe@[i] == safe_entries(
        cmd,
        a.sanitizer.last_safe@,
        a.limits@,
    )[i]);
}

/// The newest command wins, and it is taken once: of two commands published one after
/// the other the second is taken, and nothing after it.
pub proof fn law_newest_command_wins(l: LatestCommand, first: CommandVector, second: CommandVector)
    ensures
        l.holding(first).holding(second).slot == Some(second),
        l.holding(first).holding(second).emptied().slot is None,
{
}

/// A tick that finds no new command publishes the command of the tick before again.
pub proof fn law_late_producer_repeats_the_command(
    a: RealTimeControlLoop,
    first: LatestCommand,
    b: RealTimeControlLoop,
    empty: LatestCommand,
)
    requires
        limits_ok(
            a.limits@,
            shorter(a.next_command(first).len as nat, MAX_JOINTS as nat),
        ),
        a.ticked(first, b),
        empty.slot is None,
    ensures
        b.published(empty) == a.published(first),
{
    let cmd = a.next_command(first);
    let safe = safe_entries(cmd, a.sanitizer.last_safe@, a.limits@);
    let again = safe_entries(b.last_valid, b.sanitizer.last_safe@, b.limits@);
    assert forall|i: int| 0 <= i < MAX_JOINTS implies #[trigger] again[i] == safe[i] by {
        if i < cmd.len {
            assert(b.sanitizer.last_safe@[i] == safe[i]);
            if i < a.limits@.len() {
                assert(a.limits@[i].0.not_over(a.limits@[i].1));
            }
            law_sanitizing_twice(cmd.entries()[i], a.sanitizer.last_safe@[i], a.limits@, i);
        }
    }
    assert(again =~= safe);
}

/// A report holds the period, the time that was measured, and by how much that is off, on
/// either side of the period.
pub proof fn law_report_tells_the_deviation(expected: u64, tolerance: u64, elapsed: u64)
    ensures
        jitter_of(expected, tolerance, elapsed) matches Some(r) ==> {
            &&& r.expected_us == expected
            &&& r.measured_us == elapsed
            &&& elapsed >= expected ==> expected + r.diff_us == elapsed
            &&& elapsed < expected ==> elapsed + r.diff_us == expected
            &&& r.diff_us > tolerance
        },
{
}

/// The period in microseconds, times the frequency, is a million: the period is cut to whole
/// microseconds, so one more exceeds it. Both hold up to one part in `2^53`.
pub proof fn law_interval_is_inverse(hz: Binary64)
    requires
        hz.over_zero(),
        !hz.infinite(),
        interval_of(hz) < u64::MAX,
    ensures
        ({
            let n = interval_of(hz) as int;
            let h = hz.size() as int;
            let million = 1_000_000 * double_unit() as int;
            &&& 9007199254740991 * (n * h) <= 9007199254740992 * million + h
            &&& 9007199254740993 * ((n + 1) * h) >= 9007199254740992 * million - h
        }),
{
    let m = Binary64 { bits: MILLION_BITS };
    let unit = double_unit() as int;
    let h = hz.size() as int;
    let n = interval_of(hz) as int;
    lemma_million();
    law_double_quotient_is_near(m, hz);
    let q = m.quotient(hz).size() as int;
    lemma_fundamental_div_mod(q, unit);
    lemma_mod_division_less_than_divisor(q, unit);
    assert(unit * n <= q < unit * n + unit);
    lemma_inverse(n, h, q, unit);
}

/// The number of microseconds in a second.
pub proof fn lemma_million()
    ensures
        ({
            let m = Binary64 { bits: MILLION_BITS };
            &&& !m.nan()
            &&& !m.infinite()
            &&& !m.negative()
            &&& m.size() == 1_000_000 * double_unit()
        }),
        double_unit() >= 4503599627370496,
{
    lemma2_to64();
    lemma2_to64_rest();
    assert(pow2(52) == 4503599627370496);
    lemma_magnitude_compose(52, 1041, 8589934592000000);
    assert(1041 * 4503599627370496 + 8589934592000000 == MILLION_BITS as int);
    assert(pow2(33) == 8589934592);
    lemma_pow2_adds(33, 1041);
    lemma_pow2_strictly_increases(52, 1074);
    let u = pow2(1041) as int;
    assert(8589934592000000 * u == 1_000_000 * (8589934592 * u));
}

proof fn lemma_inverse(n: int, h: int, q: int, unit: int)
    requires
        n >= 0,
        h > 0,
        unit >= 4503599627370496,
        unit * n <= q < unit * n + unit,
        near_double((1_000_000 * unit) * unit, q, h),
    ensures
        9007199254740991 * (n * h) <= 9007199254740992 * (1_000_000 * unit) + h,
        9007199254740993 * ((n + 1) * h) >= 9007199254740992 * (1_000_000 * unit) - h,
{
    let million = 1_000_000 * unit;
    let exact = million * unit;
    let qh = q * h;
    assert((q + 4503599627370496) * h == qh + 4503599627370496 * h) by (nonlinear_arith)
        requires
            qh == q * h,
    ;
    assert(4503599627370496 * h <= h * unit) by (nonlinear_arith)
        requires
            unit >= 4503599627370496,
            h > 0,
    ;
    assert((n * h) * unit <= qh) by (nonlinear_arith)
        requires
            unit * n <= q,
            h > 0,
            qh == q * h,
    ;
    assert(((n + 1) * h) * unit >= qh) by (nonlinear_arith)
        requires
            q <= unit * n + unit,
            h > 0,
            qh == q * h,
    ;
    let low = n * h;
    let high = (n + 1) * h;
    assert(9007199254740991 * (low * unit) <= 9007199254740992 * (million * unit) + h * unit);
    assert(9007199254740993 * (high * unit) >= 9007199254740992 * (million * unit) - h * unit);
    assert(9007199254740991 * low <= 9007199254740992 * million + h) by (nonlinear_arith)
        requires
            9007199254740991 * (low * unit) <= 9007199254740992 * (million * unit) + h * unit,
            unit > 0,
    ;
    assert(9007199254740993 * high >= 9007199254740992 * million - h) by (nonlinear_arith)
        requires
            9007199254740993 * (high * unit) >= 9007199254740992 * (million * unit) - h * unit,
            unit > 0,
    ;
}

/// What is published reads as the command of each joint, made legal for that joint, in the
/// order of the joints.
pub proof fn law_published_command_is_in_order(
    l: RealTimeControlLoop,
    buffer: LatestCommand,
    i: int,
)
    requires
        0 <= i < l.next_command(buffer).len <= MAX_JOINTS,
    ensures
        ({
            let cmd = l.next_command(buffer);
            let sent = l.published(buffer);
            &&& sent.topic == command_topic_of(l.hardware_id@)
            &&& decoded_all(sent.payload).len() == cmd.len
            &&& decoded_all(sent.payload)[i] == sanitized(
                cmd.entries()[i],
                l.sanitizer.last_safe@[i],
                l.limits@,
                i,
            )
            &&& buffer.slot matches Some(c) ==> cmd == c
            &&& buffer.slot is None ==> cmd == l.last_valid
        }),
{
    let cmd = l.next_command(buffer);
    let safe = safe_entries(cmd, l.sanitizer.last_safe@, l.limits@);
    law_payload_reads_back(safe, cmd.len as nat);
}

} // verus!
