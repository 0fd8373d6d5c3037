//! The operator's dashboard.

use crate::diagnostics::frequency_enforcer::{
    distance, interval_of, lemma_million, MILLION_BITS, THOUSAND_BITS,
};
use crate::io_bridge::command_vector::MAX_JOINTS;
use crate::io_bridge::hardware_abstraction::status_fields;
use crate::io_bridge::wire::decoded_all;
use crate::json::{get_field, object_fields, parsed_object, read_object, JsonField, JsonValue};
use crate::network_hook::message::{
    law_payload_reads_back, payload_bytes, status_topic_of, telemetry_topic_of,
};
use crate::numeric::binary32::{
    law_position_orders_values, law_product_one, law_sum_monotone, law_zero_quotient, lemma_exact,
    lemma_quotient_defined, lemma_sum_defined, number_zero, Binary32, FRACTION_BITS, INFINITY_BITS,
    SMALLEST_EXPONENT,
};
use crate::numeric::binary64::{whole_double, Binary64};
use crate::numeric::double_accuracy::{double_unit, law_double_quotient_is_near, near_double};
use crate::numeric::mirror::lemma_zero_product;
use crate::numeric::rounding::{
    lemma_magnitude_compose, lemma_rounded_exists, lemma_rounded_monotone,
};
use crate::system::clock::{micros_of, nanos_between};
use crate::text::{
    chars_of, double_text, flush_left, flush_right, lemma_brackets, lemma_grows, number_text,
    occurs, push_double, push_flush_left, push_flush_right, push_number, same_text, signed_string,
    signed_text, spaces, texts,
};
use std::time::Instant;
use vstd::arithmetic::div_mod::*;
use vstd::arithmetic::power2::*;
use vstd::prelude::*;
use vstd::string::*;

verus! {

/// Characters of a joint's bar.
pub const BAR_WIDTH: usize = 16;

/// Warnings that are kept.
pub const MAX_WARNINGS: usize = 8;

/// The number π.
pub const PI_BITS: u32 = 0x4049_0fdb;

/// The number -π.
pub const MINUS_PI_BITS: u32 = 0xc049_0fdb;

/// The difference between 1 and the next larger number.
pub const EPSILON_BITS: u32 = 0x3400_0000;

/// The number 15: the last place of a bar.
pub const LAST_PLACE_BITS: u32 = 0x4170_0000;

/// The number 1.
pub const ONE_BITS: u32 = 0x3f80_0000;

/// A joint on the dashboard.
#[derive(Debug, Clone)]
pub struct JointView {
    pub name: String,
    pub value: Binary32,
    pub min: Binary32,
    pub max: Binary32,
}

/// What the dashboard shows.
#[derive(Debug)]
pub struct UiState {
    pub online: bool,
    pub transport: String,
    pub estop: bool,
    pub frames: u64,
    pub last_interval_us: Option<u64>,
    pub max_jitter_us: u64,
    pub last_frame_at: Option<Instant>,
    pub joints: Vec<JointView>,
    pub warnings: Vec<String>,
}

/// The warnings with a new one in front, cut to those that are kept.
pub open spec fn with_warning(warnings: Seq<Seq<char>>, msg: Seq<char>) -> Seq<Seq<char>> {
    let all = seq![msg] + warnings;
    if all.len() > MAX_WARNINGS {
        all.take(MAX_WARNINGS as int)
    } else {
        all
    }
}

/// Range of a joint for which none is given: from -π to π.
pub open spec fn range_of(limits: Seq<(Binary32, Binary32)>, i: int) -> (Binary32, Binary32) {
    if i < limits.len() {
        limits[i]
    } else {
        (Binary32 { bits: MINUS_PI_BITS }, Binary32 { bits: PI_BITS })
    }
}

/// The joints with new values, as far as there are any.
pub open spec fn revalued(joints: Seq<JointView>, values: Seq<Binary32>) -> Seq<JointView> {
    Seq::new(
        joints.len(),
        |i: int|
            if i < values.len() {
                JointView { value: values[i], ..joints[i] }
            } else {
                joints[i]
            },
    )
}

/// Whether an interval between two frames deserves a warning.
pub open spec fn anomalous(interval_us: u64, expected_us: u64) -> bool {
    expected_us != u64::MAX && distance(interval_us, expected_us) > expected_us * 5 / 2
}

/// The warning for an anomalous interval.
pub open spec fn jitter_text(interval_us: u64, expected_us: u64) -> Seq<char> {
    "Jitter anomalo: intervallo "@ + number_text(interval_us as nat) + " us (atteso ~"@
        + number_text(expected_us as nat) + " us)"@
}

impl UiState {
    pub fn new(joint_names: &Vec<String>, joint_limits: &Vec<(Binary32, Binary32)>) -> (s: UiState)
        ensures
            !s.online,
            s.transport@ == "OFFLINE"@,
            !s.estop,
            s.frames == 0,
            s.last_interval_us is None,
            s.max_jitter_us == 0,
            s.last_frame_at is None,
            s.joints@ == Seq::new(
                joint_names@.len(),
                |i: int|
                    JointView {
                        name: joint_names@[i],
                        value: number_zero(),
                        min: range_of(joint_limits@, i).0,
                        max: range_of(joint_limits@, i).1,
                    },
            ),
            s.warnings@.len() == 0,
    {
        let mut joints: Vec<JointView> = Vec::new();
        let mut i: usize = 0;
        while i < joint_names.len()
            invariant
                i <= joint_names@.len(),
                joints@ == Seq::new(
                    i as nat,
                    |j: int|
                        JointView {
                            name: joint_names@[j],
                            value: number_zero(),
                            min: range_of(joint_limits@, j).0,
                            max: range_of(joint_limits@, j).1,
                        },
                ),
            decreases joint_names@.len() - i,
        {
            let (min, max) = if i < joint_limits.len() {
                joint_limits[i]
            } else {
                (Binary32 { bits: MINUS_PI_BITS }, Binary32 { bits: PI_BITS })
            };
            joints.push(
                JointView { name: joint_names[i].clone(), value: Binary32::zero(), min, max },
            );
            i = i + 1;
        }
        UiState {
            online: false,
            transport: "OFFLINE".to_string(),
            estop: false,
            frames: 0,
            last_interval_us: None,
            max_jitter_us: 0,
            last_frame_at: None,
            joints,
            warnings: Vec::new(),
        }
    }

    /// Puts a warning in front of the others; the oldest are dropped.
    pub fn push_warning(&mut self, msg: String)
        ensures
            texts(final(self).warnings@) == with_warning(texts(old(self).warnings@), msg@),
            final(self).online == old(self).online,
            final(self).transport == old(self).transport,
            final(self).estop == old(self).estop,
            final(self).frames == old(self).frames,
            final(self).last_interval_us == old(self).last_interval_us,
            final(self).max_jitter_us == old(self).max_jitter_us,
            final(self).last_frame_at == old(self).last_frame_at,
            final(self).joints == old(self).joints,
    {
        let ghost before = self.warnings@;
        self.warnings.insert(0, msg);
        assert(self.warnings@ =~= seq![msg] + before);
        self.warnings.truncate(MAX_WARNINGS);
        assert(texts(self.warnings@) =~= with_warning(texts(before), msg@));
    }

    /// Replaces the values of the joints, as far as there are new ones.
    fn set_joints(&mut self, values: &Vec<Binary32>)
        ensures
            final(self).joints@ == revalued(old(self).joints@, values@),
            final(self).online == old(self).online,
            final(self).transport == old(self).transport,
            final(self).estop == old(self).estop,
            final(self).frames == old(self).frames,
            final(self).last_interval_us == old(self).last_interval_us,
            final(self).max_jitter_us == old(self).max_jitter_us,
            final(self).last_frame_at == old(self).last_frame_at,
            final(self).warnings == old(self).warnings,
    {
        let ghost before = self.joints@;
        let mut i: usize = 0;
        while i < self.joints.len() && i < values.len()
            invariant
                i <= self.joints@.len() == before.len(),
                i <= values@.len(),
                forall|j: int|
                    0 <= j < i ==> #[trigger] self.joints@[j] == (JointView {
                        value: values@[j],
                        ..before[j]
                    }),
                forall|j: int| i <= j < before.len() ==> #[trigger] self.joints@[j] == before[j],
                self.online == old(self).online,
                self.transport == old(self).transport,
                self.estop == old(self).estop,
                self.frames == old(self).frames,
                self.last_interval_us == old(self).last_interval_us,
                self.max_jitter_us == old(self).max_jitter_us,
                self.last_frame_at == old(self).last_frame_at,
                self.warnings == old(self).warnings,
            decreases self.joints@.len() - i,
        {
            self.joints[i].value = values[i];
            i = i + 1;
        }
        assert(self.joints@ =~= revalued(before, values@));
    }

    /// How the dashboard changes with an interval between two frames. Frames that come
    /// in bursts, less than 500 µs apart, say nothing of the period.
    pub open spec fn timed(self, next: UiState, interval_us: u64, expected_us: u64) -> bool {
        if interval_us < 500 {
            &&& next.last_interval_us == self.last_interval_us
            &&& next.max_jitter_us == self.max_jitter_us
            &&& next.warnings == self.warnings
        } else {
            &&& next.last_interval_us == Some(interval_us)
            &&& next.max_jitter_us == if interval_us > self.max_jitter_us {
                interval_us
            } else {
                self.max_jitter_us
            }
            &&& texts(next.warnings@) == if anomalous(interval_us, expected_us) {
                with_warning(texts(self.warnings@), jitter_text(interval_us, expected_us))
            } else {
                texts(self.warnings@)
            }
        }
    }

    /// Takes note of an interval between two frames.
    pub fn note_interval(&mut self, interval_us: u64, expected_us: u64)
        requires
            expected_us == u64::MAX || expected_us * 5 <= u64::MAX,
        ensures
            old(self).timed(*final(self), interval_us, expected_us),
            final(self).online == old(self).online,
            final(self).transport == old(self).transport,
            final(self).estop == old(self).estop,
            final(self).frames == old(self).frames,
            final(self).last_frame_at == old(self).last_frame_at,
            final(self).joints == old(self).joints,
    {
        if interval_us >= 500 {
            self.last_interval_us = Some(interval_us);
            if interval_us > self.max_jitter_us {
                self.max_jitter_us = interval_us;
            }
            let diff_us: u64 = if interval_us > expected_us {
                interval_us - expected_us
            } else {
                expected_us - interval_us
            };
            if expected_us != u64::MAX && diff_us > expected_us * 5 / 2 {
                let mut msg: String = "Jitter anomalo: intervallo ".to_string();
                push_number(&mut msg, interval_us);
                msg.append(" us (atteso ~");
                push_number(&mut msg, expected_us);
                msg.append(" us)");
                assert(msg@ =~= jitter_text(interval_us, expected_us));
                self.push_warning(msg);
            }
        }
    }

    /// How the dashboard changes with telemetry. The interval is the time since the
    /// telemetry before it.
    pub open spec fn received(self, next: UiState, payload: Seq<u8>, expected_us: u64) -> bool {
        &&& next.online == self.online
        &&& next.transport == self.transport
        &&& next.estop == self.estop
        &&& next.frames == self.frames + 1
        &&& next.last_frame_at is Some
        &&& next.joints@ == revalued(self.joints@, decoded_all(payload))
        &&& match self.last_frame_at {
            None => {
                &&& next.last_interval_us == self.last_interval_us
                &&& next.max_jitter_us == self.max_jitter_us
                &&& next.warnings == self.warnings
            },
            Some(_) => exists|us: u64| #[trigger] self.timed(next, us, expected_us),
        }
    }

    /// Takes telemetry in, which came just now.
    pub fn apply_telemetry(&mut self, payload: &[u8], expected_us: u64)
        requires
            expected_us == u64::MAX || expected_us * 5 <= u64::MAX,
            old(self).frames < u64::MAX,
        ensures
            old(self).received(*final(self), payload@, expected_us),
    {
        let values: Vec<Binary32> = numbers(payload);
        self.set_joints(&values);
        let now: Instant = Instant::now();
        let mut us: u64 = 0;
        match self.last_frame_at {
            None => {},
            Some(last) => {
                us = micros_of(nanos_between(&now, &last));
                self.note_interval(us, expected_us);
            },
        }
        self.last_frame_at = Some(now);
        self.frames = self.frames + 1;
        assert(old(self).last_frame_at is Some ==> old(self).timed(*self, us, expected_us));
    }

    /// What a status report changes: the truth value of a field, or else what it was.
    pub open spec fn flag_or(
        fields: Map<Seq<char>, JsonValue>,
        key: Seq<char>,
        otherwise: bool,
    ) -> bool {
        if fields.dom().contains(key) {
            match fields[key] {
                JsonValue::Flag(b) => b,
                _ => otherwise,
            }
        } else {
            otherwise
        }
    }

    /// The text of a field, or else what it was.
    pub open spec fn text_or(
        fields: Map<Seq<char>, JsonValue>,
        key: Seq<char>,
        otherwise: Seq<char>,
    ) -> Seq<char> {
        if fields.dom().contains(key) {
            match fields[key] {
                JsonValue::Text(s) => s,
                _ => otherwise,
            }
        } else {
            otherwise
        }
    }

    /// The number of a field, where it is larger than what it was.
    pub open spec fn larger_count(
        fields: Map<Seq<char>, JsonValue>,
        key: Seq<char>,
        otherwise: u64,
    ) -> u64 {
        if fields.dom().contains(key) {
            match fields[key] {
                JsonValue::Count(n) => if n > otherwise {
                    n
                } else {
                    otherwise
                },
                _ => otherwise,
            }
        } else {
            otherwise
        }
    }

    /// How the dashboard changes with a status report.
    pub open spec fn reported(self, next: UiState, fields: Map<Seq<char>, JsonValue>) -> bool {
        &&& next.online == Self::flag_or(fields, "online"@, self.online)
        &&& next.transport@ == Self::text_or(fields, "transport"@, self.transport@)
        &&& next.estop == Self::flag_or(fields, "estop"@, self.estop)
        &&& next.frames == Self::larger_count(fields, "frames"@, self.frames)
        &&& next.last_interval_us == self.last_interval_us
        &&& next.max_jitter_us == self.max_jitter_us
        &&& next.last_frame_at == self.last_frame_at
        &&& next.joints == self.joints
        &&& next.warnings == self.warnings
    }

    /// Takes a status report in.
    fn apply_fields(&mut self, object: &serde_json::Map<String, serde_json::Value>)
        ensures
            old(self).reported(*final(self), object_fields(*object)),
    {
        match get_field(object, "online") {
            Some(JsonField::Flag(b)) => {
                self.online = b;
            },
            _ => {},
        }
        match get_field(object, "transport") {
            Some(JsonField::Text(s)) => {
                self.transport = s;
            },
            _ => {},
        }
        match get_field(object, "estop") {
            Some(JsonField::Flag(b)) => {
                self.estop = b;
            },
            _ => {},
        }
        match get_field(object, "frames") {
            Some(JsonField::Count(n)) => {
                if n > self.frames {
                    self.frames = n;
                }
            },
            _ => {},
        }
    }

    /// Takes the payload of a status report in; one that is no JSON object changes
    /// nothing.
    pub fn apply_status(&mut self, payload: &[u8])
        ensures
            match parsed_object(payload@) {
                None => *final(self) == *old(self),
                Some(fields) => old(self).reported(*final(self), fields),
            },
    {
        match read_object(payload) {
            None => {},
            Some(object) => {
                self.apply_fields(&object);
            },
        }
    }

    /// Shows the values of a simulated robot, `elapsed_us` after those before.
    pub fn show_simulated(&mut self, values: &Vec<Binary32>, elapsed_us: u64)
        requires
            old(self).frames < u64::MAX,
        ensures
            final(self).online,
            final(self).transport@ == "CHAOS-SIM"@,
            final(self).estop == old(self).estop,
            final(self).frames == old(self).frames + 1,
            final(self).last_interval_us == Some(elapsed_us),
            final(self).max_jitter_us == if elapsed_us > old(self).max_jitter_us {
                elapsed_us
            } else {
                old(self).max_jitter_us
            },
            final(self).last_frame_at is Some,
            final(self).joints@ == revalued(old(self).joints@, values@),
            final(self).warnings == old(self).warnings,
    {
        self.online = true;
        self.transport = "CHAOS-SIM".to_string();
        self.frames = self.frames + 1;
        self.last_interval_us = Some(elapsed_us);
        if elapsed_us > self.max_jitter_us {
            self.max_jitter_us = elapsed_us;
        }
        self.last_frame_at = Some(Instant::now());
        self.set_joints(values);
    }
}

/// The numbers that a payload holds.
fn numbers(payload: &[u8]) -> (v: Vec<Binary32>)
    ensures
        v@ == decoded_all(payload@),
{
    let mut v: Vec<Binary32> = Vec::new();
    let total: usize = payload.len();
    let n: usize = total / 4;
    let mut i: usize = 0;
    while i < n
        invariant
            i <= n,
            total == payload@.len(),
            n == total / 4,
            v@ == decoded_all(payload@).take(i as int),
        decreases n - i,
    {
        let k: usize = 4 * i;
        assert(payload@.subrange(4 * i as int, 4 * i as int + 4) =~= seq![
            payload@[k as int],
            payload@[k + 1],
            payload@[k + 2],
            payload@[k + 3],
        ]);
        v.push(
            Binary32::from_le_bytes(payload[k], payload[k + 1], payload[k + 2], payload[k + 3]),
        );
        i = i + 1;
        assert(v@ =~= decoded_all(payload@).take(i as int));
    }
    assert(v@ =~= decoded_all(payload@));
    v
}

/// What stands behind the last slash.
pub open spec fn tail_of(topic: Seq<char>) -> Seq<char>
    decreases topic.len(),
{
    if topic.len() == 0 || topic.last() == '/' {
        Seq::empty()
    } else {
        tail_of(topic.drop_last()).push(topic.last())
    }
}

/// Whether a topic ends in the robot's name.
pub fn tail_matches(topic: &str, robot_name: &str) -> (r: bool)
    ensures
        r == (tail_of(topic@) == robot_name@),
{
    let chars: Vec<char> = chars_of(topic);
    let mut tail: Vec<char> = Vec::new();
    let mut i: usize = 0;
    assert(chars@.take(0) =~= Seq::<char>::empty());
    while i < chars.len()
        invariant
            i <= chars@.len(),
            chars@ == topic@,
            tail@ == tail_of(chars@.take(i as int)),
        decreases chars@.len() - i,
    {
        proof {
            assert(chars@.take(i + 1).drop_last() =~= chars@.take(i as int));
            assert(chars@.take(i + 1).last() == chars@[i as int]);
        }
        if chars[i] == '/' {
            tail = Vec::new();
        } else {
            tail.push(chars[i]);
        }
        i = i + 1;
    }
    assert(chars@.take(i as int) =~= chars@);
    same_text(&tail, robot_name)
}

/// `n` cells, with a mark in the cell `place`.
pub open spec fn cells(n: nat, place: nat) -> Seq<char> {
    Seq::new(
        n,
        |i: int|
            if i == place {
                'X'
            } else {
                '-'
            },
    )
}

/// The bar of a joint: a mark at the joint's place between its limits.
pub open spec fn bar_text(joint: JointView) -> Seq<char> {
    let span = joint.max.difference(joint.min);
    if span.not_over(Binary32 { bits: EPSILON_BITS }) {
        "[]"@
    } else {
        let place = joint.value.difference(joint.min).quotient(span).clamped(
            number_zero(),
            Binary32 { bits: ONE_BITS },
        ).product(Binary32 { bits: LAST_PLACE_BITS }).nearest_index();
        seq!['['] + cells(BAR_WIDTH as nat, place) + seq![']']
    }
}

/// The bar of a joint.
pub fn joint_bar(joint: &JointView) -> (s: String)
    ensures
        s@ == bar_text(*joint),
{
    let span: Binary32 = joint.max.minus(joint.min);
    if span.at_most(Binary32 { bits: EPSILON_BITS }) {
        return "[]".to_string();
    }
    let pos: Binary32 = joint.value.minus(joint.min).divided_by(span).clamp(
        Binary32::zero(),
        Binary32 { bits: ONE_BITS },
    );
    let place: usize = pos.times(Binary32 { bits: LAST_PLACE_BITS }).to_index();
    let mut s: String = String::new();
    s.push('[');
    let mut i: usize = 0;
    while i < BAR_WIDTH
        invariant
            i <= BAR_WIDTH,
            s@ == seq!['['] + cells(i as nat, place as nat),
        decreases BAR_WIDTH - i,
    {
        if i == place {
            s.push('X');
        } else {
            s.push('-');
        }
        i = i + 1;
        assert(s@ =~= seq!['['] + cells(i as nat, place as nat));
    }
    s.push(']');
    assert(s@ =~= bar_text(*joint));
    s
}

/// The line of a joint.
pub open spec fn joint_line(joint: JointView) -> Seq<char> {
    " "@ + flush_left(joint.name@, 14) + " "@ + flush_right(signed_text(joint.value, 3), 7)
        + " rad  "@ + bar_text(joint) + "\n"@
}

/// The lines of some joints.
pub open spec fn joint_lines(joints: Seq<JointView>) -> Seq<char>
    decreases joints.len(),
{
    if joints.len() == 0 {
        Seq::empty()
    } else {
        joint_lines(joints.drop_last()) + joint_line(joints.last())
    }
}

/// The lines of some warnings.
pub open spec fn warning_lines(warnings: Seq<Seq<char>>) -> Seq<char>
    decreases warnings.len(),
{
    if warnings.len() == 0 {
        Seq::empty()
    } else {
        warning_lines(warnings.drop_last()) + " [WARN] "@ + warnings.last() + "\n"@
    }
}

/// The first three warnings.
pub open spec fn shown(warnings: Seq<Seq<char>>) -> Seq<Seq<char>> {
    if warnings.len() > 3 {
        warnings.take(3)
    } else {
        warnings
    }
}

/// Colour and name of the state of the fieldbus.
pub open spec fn bus_text(estop: bool, online: bool) -> Seq<char> {
    if estop {
        "\x1b[1;31m"@ + "ESTOP"@
    } else if online {
        "\x1b[1;32m"@ + "ONLINE"@
    } else {
        "\x1b[1;33m"@ + "OFFLINE"@
    }
}

/// A duration in milliseconds.
pub open spec fn millis(us: u64) -> Binary64 {
    whole_double(us).quotient(Binary64 { bits: THOUSAND_BITS })
}

/// Frequency and interval of the telemetry.
pub open spec fn rate_of(interval_us: Option<u64>) -> (Binary64, Binary64) {
    match interval_us {
        Some(us) => (
            (Binary64 { bits: MILLION_BITS }).quotient(whole_double(us)),
            millis(us),
        ),
        None => (Binary64 { bits: 0 }, Binary64 { bits: 0 }),
    }
}

/// The dashboard of one robot.
#[derive(Debug, Clone)]
pub struct TerminalUi {
    pub robot_name: String,
    pub expected_hz: Binary64,
    pub joint_names: Vec<String>,
    pub joint_limits: Vec<(Binary32, Binary32)>,
}

impl TerminalUi {
    pub fn new(
        robot_name: &str,
        expected_hz: Binary64,
        joint_names: Vec<String>,
        joint_limits: Vec<(Binary32, Binary32)>,
    ) -> (ui: TerminalUi)
        ensures
            ui.robot_name@ == robot_name@,
            ui.expected_hz == expected_hz,
            ui.joint_names == joint_names,
            ui.joint_limits == joint_limits,
    {
        TerminalUi {
            robot_name: robot_name.to_string(),
            expected_hz,
            joint_names,
            joint_limits,
        }
    }

    /// The period that telemetry should keep, in microseconds; the largest number where
    /// no frequency is given.
    pub open spec fn expected_us(self) -> u64 {
        if self.expected_hz.over_zero() {
            (Binary64 { bits: MILLION_BITS }).quotient(self.expected_hz).truncated()
        } else {
            u64::MAX
        }
    }

    pub fn expected_interval_us(&self) -> (us: u64)
        ensures
            us == self.expected_us(),
    {
        if self.expected_hz.is_positive() {
            (Binary64 { bits: MILLION_BITS }).divided_by(self.expected_hz).to_whole()
        } else {
            u64::MAX
        }
    }

    /// Whether a telemetry message is taken in: it is for this robot, and made of whole
    /// numbers of four bytes.
    pub fn takes_telemetry(&self, topic: &str, payload: &[u8]) -> (r: bool)
        ensures
            r == (tail_of(topic@) == self.robot_name@ && payload@.len() % 4 == 0),
    {
        tail_matches(topic, &self.robot_name) && payload.len() % 4 == 0
    }

    /// Handles a telemetry message, which came just now.
    pub fn on_telemetry(&self, state: &mut UiState, topic: &str, payload: &[u8])
        requires
            self.expected_us() == u64::MAX || self.expected_us() * 5 <= u64::MAX,
            old(state).frames < u64::MAX,
        ensures
            tail_of(topic@) != self.robot_name@ || payload@.len() % 4 != 0 ==> *final(state)
                == *old(state),
            tail_of(topic@) == self.robot_name@ && payload@.len() % 4 == 0 ==> old(state).received(
                *final(state),
                payload@,
                self.expected_us(),
            ),
    {
        if self.takes_telemetry(topic, payload) {
            let expected_us: u64 = self.expected_interval_us();
            state.apply_telemetry(payload, expected_us);
        }
    }

    /// Handles a status message.
    pub fn on_status(&self, state: &mut UiState, topic: &str, payload: &[u8])
        ensures
            tail_of(topic@) != self.robot_name@ ==> *final(state) == *old(state),
            tail_of(topic@) == self.robot_name@ ==> match parsed_object(payload@) {
                None => *final(state) == *old(state),
                Some(fields) => old(state).reported(*final(state), fields),
            },
    {
        if tail_matches(topic, &self.robot_name) {
            state.apply_status(payload);
        }
    }

    /// The title and the robot's name.
    pub open spec fn title(self) -> Seq<char> {
        "\x1b[2J\x1b[H"@ + "====================================================\n"@
            + "      SONNY - OPERATING SYSTEM DASHBOARD\n"@
            + "====================================================\n"@ + " HARDWARE NODE:    "@
            + self.robot_name@ + "\n"@
    }

    /// The line of the fieldbus.
    pub open spec fn bus_line(self, state: UiState) -> Seq<char> {
        " FIELD BUS:        "@ + bus_text(state.estop, state.online) + "\x1b[0m"@ + "  ["@
            + state.transport@ + "]\n"@
    }

    /// The line of the telemetry's frequency.
    pub open spec fn rate_line(self, state: UiState) -> Seq<char> {
        let rate = rate_of(state.last_interval_us);
        " TELEMETRY RATE:   "@ + double_text(rate.0, 1) + " Hz (atteso "@ + double_text(
            self.expected_hz,
            1,
        ) + ") | intervallo "@ + double_text(rate.1, 2) + " ms | jitter max "@ + double_text(
            millis(state.max_jitter_us),
            2,
        ) + " ms\n"@
    }

    /// The line that counts the frames, and a rule.
    pub open spec fn frames_line(self, state: UiState) -> Seq<char> {
        " FRAMES RICEVUTI:  "@ + number_text(state.frames as nat) + "\n"@
            + "----------------------------------------------------\n"@
    }

    /// The upper part of the screen.
    pub open spec fn head(self, state: UiState) -> Seq<char> {
        self.title() + self.bus_line(state) + self.rate_line(state) + self.frames_line(state)
    }

    /// The lower part of the screen.
    pub open spec fn foot(self, state: UiState) -> Seq<char> {
        "----------------------------------------------------\n"@ + " COMANDI:   alpha/cmd/"@
            + self.robot_name@ + "        (f32 LE x DOF)\n"@ + " ESTOP:     alpha/cmd/"@
            + self.robot_name@ + "/estop (1 = attivo)\n"@
            + "====================================================\n"@ + warning_lines(
            shown(texts(state.warnings@)),
        ) + if state.warnings@.len() == 0 {
            " NESSUN ALLARME\n"@
        } else {
            Seq::empty()
        } + "====================================================\n\n"@
    }

    /// The whole screen.
    pub open spec fn screen(self, state: UiState) -> Seq<char> {
        self.head(state) + if state.joints@.len() == 0 {
            " (nessuna telemetria ricevuta ancora)\n"@
        } else {
            Seq::empty()
        } + joint_lines(state.joints@) + self.foot(state)
    }

    fn push_title(&self, out: &mut String)
        ensures
            final(out)@ == old(out)@ + self.title(),
    {
        out.append("\x1b[2J\x1b[H");
        out.append("====================================================\n");
        out.append("      SONNY - OPERATING SYSTEM DASHBOARD\n");
        out.append("====================================================\n");
        out.append(" HARDWARE NODE:    ");
        out.append(&self.robot_name);
        out.append("\n");
        assert(out@ =~= old(out)@ + self.title());
    }

    fn push_bus_line(&self, out: &mut String, state: &UiState)
        ensures
            final(out)@ == old(out)@ + self.bus_line(*state),
    {
        out.append(" FIELD BUS:        ");
        if state.estop {
            out.append("\x1b[1;31m");
            out.append("ESTOP");
        } else if state.online {
            out.append("\x1b[1;32m");
            out.append("ONLINE");
        } else {
            out.append("\x1b[1;33m");
            out.append("OFFLINE");
        }
        out.append("\x1b[0m");
        out.append("  [");
        out.append(&state.transport);
        out.append("]\n");
        assert(out@ =~= old(out)@ + self.bus_line(*state));
    }

    fn push_rate_line(&self, out: &mut String, state: &UiState)
        ensures
            final(out)@ == old(out)@ + self.rate_line(*state),
    {
        let thousand: Binary64 = Binary64 { bits: THOUSAND_BITS };
        let (hz, interval_ms) = match state.last_interval_us {
            Some(us) => {
                let d: Binary64 = Binary64::from_whole(us);
                ((Binary64 { bits: MILLION_BITS }).divided_by(d), d.divided_by(thousand))
            },
            None => (Binary64 { bits: 0 }, Binary64 { bits: 0 }),
        };
        let jitter_ms: Binary64 = Binary64::from_whole(state.max_jitter_us).divided_by(thousand);
        out.append(" TELEMETRY RATE:   ");
        push_double(out, hz, 1);
        out.append(" Hz (atteso ");
        push_double(out, self.expected_hz, 1);
        out.append(") | intervallo ");
        push_double(out, interval_ms, 2);
        out.append(" ms | jitter max ");
        push_double(out, jitter_ms, 2);
        out.append(" ms\n");
        assert(out@ =~= old(out)@ + self.rate_line(*state));
    }

    fn push_head(&self, out: &mut String, state: &UiState)
        ensures
            final(out)@ == old(out)@ + self.head(*state),
    {
        self.push_title(out);
        self.push_bus_line(out, state);
        self.push_rate_line(out, state);
        out.append(" FRAMES RICEVUTI:  ");
        push_number(out, state.frames);
        out.append("\n");
        out.append("----------------------------------------------------\n");
        assert(out@ =~= old(out)@ + self.head(*state));
    }

    fn push_foot(&self, out: &mut String, state: &UiState)
        ensures
            final(out)@ == old(out)@ + self.foot(*state),
    {
        out.append("----------------------------------------------------\n");
        out.append(" COMANDI:   alpha/cmd/");
        out.append(&self.robot_name);
        out.append("        (f32 LE x DOF)\n");
        out.append(" ESTOP:     alpha/cmd/");
        out.append(&self.robot_name);
        out.append("/estop (1 = attivo)\n");
        out.append("====================================================\n");
        push_warnings(out, &state.warnings);
        if state.warnings.len() == 0 {
            out.append(" NESSUN ALLARME\n");
        }
        out.append("====================================================\n\n");
        assert(out@ =~= old(out)@ + self.foot(*state));
    }

    /// The whole screen.
    pub fn render(&self, state: &UiState) -> (s: String)
        ensures
            s@ == self.screen(*state),
    {
        let mut s: String = String::new();
        self.push_head(&mut s, state);
        if state.joints.len() == 0 {
            s.append(" (nessuna telemetria ricevuta ancora)\n");
        }
        push_joints(&mut s, &state.joints);
        self.push_foot(&mut s, state);
        assert(s@ =~= self.screen(*state));
        s
    }
}

fn push_joint(out: &mut String, joint: &JointView)
    ensures
        final(out)@ == old(out)@ + joint_line(*joint),
{
    out.append(" ");
    push_flush_left(out, &joint.name, 14);
    out.append(" ");
    push_flush_right(out, &signed_string(joint.value, 3), 7);
    out.append(" rad  ");
    out.append(&joint_bar(joint));
    out.append("\n");
    assert(out@ =~= old(out)@ + joint_line(*joint));
}

fn push_joints(out: &mut String, joints: &Vec<JointView>)
    ensures
        final(out)@ == old(out)@ + joint_lines(joints@),
{
    let mut i: usize = 0;
    assert(out@ =~= old(out)@ + joint_lines(joints@.take(0)));
    while i < joints.len()
        invariant
            i <= joints@.len(),
            out@ == old(out)@ + joint_lines(joints@.take(i as int)),
        decreases joints@.len() - i,
    {
        proof {
            assert(joints@.take(i + 1).drop_last() =~= joints@.take(i as int));
            assert(joints@.take(i + 1).last() == joints@[i as int]);
        }
        push_joint(out, &joints[i]);
        i = i + 1;
        assert(out@ =~= old(out)@ + joint_lines(joints@.take(i as int)));
    }
    assert(joints@.take(i as int) =~= joints@);
}

fn push_warnings(out: &mut String, warnings: &Vec<String>)
    ensures
        final(out)@ == old(out)@ + warning_lines(shown(texts(warnings@))),
{
    let n: usize = if warnings.len() < 3 {
        warnings.len()
    } else {
        3
    };
    let ghost all = shown(texts(warnings@));
    let mut i: usize = 0;
    assert(out@ =~= old(out)@ + warning_lines(all.take(0)));
    while i < n
        invariant
            i <= n <= warnings@.len(),
            all == shown(texts(warnings@)),
            n == all.len(),
            out@ == old(out)@ + warning_lines(all.take(i as int)),
        decreases n - i,
    {
        proof {
            assert(all.take(i + 1).drop_last() =~= all.take(i as int));
            assert(all.take(i + 1).last() == warnings@[i as int]@);
        }
        out.append(" [WARN] ");
        out.append(&warnings[i]);
        out.append("\n");
        i = i + 1;
        assert(out@ =~= old(out)@ + warning_lines(all.take(i as int)));
    }
    assert(all.take(i as int) =~= all);
}

/// The dashboard shows what a status report says; of the frames, it shows the larger
/// number.
pub proof fn law_status_is_shown(
    state: UiState,
    next: UiState,
    transport: Seq<char>,
    brand: Seq<char>,
    protocol: Seq<char>,
    online: bool,
    frames: u64,
    estop: bool,
)
    requires
        state.reported(next, status_fields(transport, brand, protocol, online, frames, estop)),
    ensures
        next.online == online,
        next.transport@ == transport,
        next.estop == estop,
        next.frames == if frames > state.frames {
            frames
        } else {
            state.frames
        },
{
    reveal_strlit("online");
    reveal_strlit("transport");
    reveal_strlit("brand");
    reveal_strlit("protocol");
    reveal_strlit("frames");
    reveal_strlit("estop");
    assert("online"@.len() == 6 && "online"@[0] == 'o');
    assert("transport"@.len() == 9);
    assert("brand"@.len() == 5 && "brand"@[0] == 'b');
    assert("protocol"@.len() == 8);
    assert("frames"@.len() == 6 && "frames"@[0] == 'f');
    assert("estop"@.len() == 5 && "estop"@[0] == 'e');
}

/// A joint for which there is a value shows it, under its own name.
proof fn lemma_revalued(joints: Seq<JointView>, values: Seq<Binary32>, i: int)
    requires
        0 <= i < joints.len(),
        i < values.len(),
    ensures
        revalued(joints, values)[i].value == values[i],
        revalued(joints, values)[i].name == joints[i].name,
{
}

/// The numbers of a payload are those that it was made of.
proof fn lemma_payload_numbers(values: Seq<Binary32>)
    requires
        values.len() <= MAX_JOINTS,
    ensures
        decoded_all(payload_bytes(values, values.len())) == values,
{
    law_payload_reads_back(values, values.len());
    assert(values.take(values.len() as int) =~= values);
}

/// The dashboard shows the values that the telemetry carries.
#[verifier::spinoff_prover]
pub proof fn law_telemetry_is_shown(
    state: UiState,
    next: UiState,
    values: Seq<Binary32>,
    expected_us: u64,
    i: int,
)
    requires
        values.len() <= MAX_JOINTS,
        state.received(next, payload_bytes(values, values.len()), expected_us),
        0 <= i < state.joints@.len(),
        i < values.len(),
    ensures
        next.joints@[i].value == values[i],
        next.joints@[i].name == state.joints@[i].name,
{
    let payload = payload_bytes(values, values.len());
    lemma_payload_numbers(values);
    assert(next.joints@ == revalued(state.joints@, decoded_all(payload)));
    lemma_revalued(state.joints@, values, i);
}

/// No more warnings are kept than there is room for, and the newest comes first.
pub proof fn law_warnings_bounded(warnings: Seq<Seq<char>>, msg: Seq<char>)
    requires
        warnings.len() <= MAX_WARNINGS,
    ensures
        with_warning(warnings, msg).len() <= MAX_WARNINGS,
        with_warning(warnings, msg)[0] == msg,
        forall|i: int|
            0 <= i < warnings.len() && i + 1 < MAX_WARNINGS ==> #[trigger] with_warning(
                warnings,
                msg,
            )[i + 1] == warnings[i],
{
}

/// An interval is anomalous exactly if it is more than three and a half periods long. A short
/// one never is, nor any where no period is known.
pub proof fn law_long_interval_is_anomalous(interval_us: u64, expected_us: u64)
    ensures
        anomalous(interval_us, expected_us) <==> expected_us != u64::MAX && 2 * interval_us > 7
            * expected_us,
{
}

/// What stands behind the last slash of a topic of telemetry or status is the name of the
/// robot.
pub proof fn law_tail_names_the_robot(id: Seq<char>)
    requires
        forall|i: int| 0 <= i < id.len() ==> #[trigger] id[i] != '/',
    ensures
        tail_of(telemetry_topic_of(id)) == id,
        tail_of(status_topic_of(id)) == id,
{
    reveal_strlit("alpha/telemetry/");
    reveal_strlit("alpha/status/");
    reveal_strlit("");
    assert("alpha/telemetry/"@.last() == '/');
    assert("alpha/status/"@.last() == '/');
    lemma_tail("alpha/telemetry/"@, id);
    lemma_tail("alpha/status/"@, id);
    assert(telemetry_topic_of(id) =~= "alpha/telemetry/"@ + id);
    assert(status_topic_of(id) =~= "alpha/status/"@ + id);
}

proof fn lemma_tail(prefix: Seq<char>, id: Seq<char>)
    requires
        prefix.len() > 0,
        prefix.last() == '/',
        forall|i: int| 0 <= i < id.len() ==> #[trigger] id[i] != '/',
    ensures
        tail_of(prefix + id) == id,
    decreases id.len(),
{
    let s = prefix + id;
    if id.len() == 0 {
        assert(s =~= prefix);
    } else {
        assert(s.last() == id.last());
        assert(id.last() == id[id.len() - 1]);
        assert(s.drop_last() =~= prefix + id.drop_last());
        lemma_tail(prefix, id.drop_last());
        assert(id.drop_last().push(id.last()) =~= id);
    }
}

/// The line of each joint stands among the lines, and holds the name, the value and the bar of
/// that joint.
pub proof fn law_each_joint_has_its_line(joints: Seq<JointView>, i: int)
    requires
        0 <= i < joints.len(),
    ensures
        occurs(joint_lines(joints), joint_line(joints[i])),
        occurs(joint_line(joints[i]), joints[i].name@),
        occurs(joint_line(joints[i]), signed_text(joints[i].value, 3)),
        occurs(joint_line(joints[i]), bar_text(joints[i])),
    decreases joints.len(),
{
    let front = joint_lines(joints.drop_last());
    if i < joints.len() - 1 {
        law_each_joint_has_its_line(joints.drop_last(), i);
    }
    lemma_grows(front, joint_line(joints.last()), joint_line(joints[i]));
    lemma_joint_line(joints[i]);
}

proof fn lemma_joint_line(j: JointView)
    ensures
        occurs(joint_line(j), j.name@),
        occurs(joint_line(j), signed_text(j.value, 3)),
        occurs(joint_line(j), bar_text(j)),
{
    let name = flush_left(j.name@, 14);
    let text = signed_text(j.value, 3);
    let value = flush_right(text, 7);
    let bar = bar_text(j);
    let (a, b, c, d) = (
        " "@ + name,
        " "@ + name + " "@,
        " "@ + name + " "@ + value,
        " "@ + name + " "@ + value + " rad  "@,
    );
    lemma_grows(j.name@, spaces(14 - j.name@.len()), j.name@);
    lemma_grows(" "@, name, j.name@);
    lemma_grows(a, " "@, j.name@);
    lemma_grows(b, value, j.name@);
    lemma_grows(c, " rad  "@, j.name@);
    lemma_grows(d, bar, j.name@);
    lemma_grows(d + bar, "\n"@, j.name@);
    lemma_grows(spaces(7 - text.len()), text, text);
    lemma_grows(b, value, text);
    lemma_grows(c, " rad  "@, text);
    lemma_grows(d, bar, text);
    lemma_grows(d + bar, "\n"@, text);
    lemma_grows(d, bar, bar);
    lemma_grows(d + bar, "\n"@, bar);
}

/// The screen shows every joint, and behind their labels the name of the robot, the state of
/// the fieldbus, the transport and the number of frames; and it shows the newest warnings.
pub proof fn law_screen_shows_the_state(ui: TerminalUi, state: UiState)
    ensures
        ({
            let s = ui.screen(state);
            &&& occurs(s, joint_lines(state.joints@))
            &&& occurs(s, " HARDWARE NODE:    "@ + ui.robot_name@ + "\n"@)
            &&& occurs(s, " FIELD BUS:        "@ + bus_text(state.estop, state.online))
            &&& occurs(s, "  ["@ + state.transport@ + "]\n"@)
            &&& occurs(s, " FRAMES RICEVUTI:  "@ + number_text(state.frames as nat) + "\n"@)
            &&& occurs(s, warning_lines(shown(texts(state.warnings@))))
        }),
{
    let node = " HARDWARE NODE:    "@ + ui.robot_name@ + "\n"@;
    let bus = " FIELD BUS:        "@ + bus_text(state.estop, state.online);
    let transport = "  ["@ + state.transport@ + "]\n"@;
    let frames = " FRAMES RICEVUTI:  "@ + number_text(state.frames as nat) + "\n"@;
    let lines = joint_lines(state.joints@);
    let warnings = warning_lines(shown(texts(state.warnings@)));
    lemma_title(ui);
    lemma_bus_line(ui, state);
    lemma_grows(frames, "----------------------------------------------------\n"@, frames);
    lemma_head_shows(ui, state, node);
    lemma_head_shows(ui, state, bus);
    lemma_head_shows(ui, state, transport);
    lemma_head_shows(ui, state, frames);
    lemma_screen_parts(ui, state, node);
    lemma_screen_parts(ui, state, bus);
    lemma_screen_parts(ui, state, transport);
    lemma_screen_parts(ui, state, frames);
    lemma_grows(lines, lines, lines);
    lemma_screen_parts(ui, state, lines);
    lemma_foot_shows(ui, state);
    lemma_screen_parts(ui, state, warnings);
}

proof fn lemma_title(ui: TerminalUi)
    ensures
        occurs(ui.title(), " HARDWARE NODE:    "@ + ui.robot_name@ + "\n"@),
{
    let rule = "====================================================\n"@;
    let above = "\x1b[2J\x1b[H"@ + rule + "      SONNY - OPERATING SYSTEM DASHBOARD\n"@ + rule;
    let node = " HARDWARE NODE:    "@ + ui.robot_name@ + "\n"@;
    lemma_brackets(above, " HARDWARE NODE:    "@, ui.robot_name@, "\n"@);
    lemma_grows(above, node, node);
}

proof fn lemma_bus_line(ui: TerminalUi, state: UiState)
    ensures
        occurs(
            ui.bus_line(state),
            " FIELD BUS:        "@ + bus_text(state.estop, state.online),
        ),
        occurs(ui.bus_line(state), "  ["@ + state.transport@ + "]\n"@),
{
    let bus = " FIELD BUS:        "@ + bus_text(state.estop, state.online);
    let transport = "  ["@ + state.transport@ + "]\n"@;
    let front = bus + "\x1b[0m"@;
    lemma_brackets(front, "  ["@, state.transport@, "]\n"@);
    lemma_grows(bus, "\x1b[0m"@, bus);
    lemma_grows(front, transport, bus);
    lemma_grows(front, transport, transport);
}

/// What stands in a part of the upper part stands in it.
proof fn lemma_head_shows(ui: TerminalUi, state: UiState, w: Seq<char>)
    requires
        occurs(ui.title(), w) || occurs(ui.bus_line(state), w) || occurs(ui.frames_line(state), w),
    ensures
        occurs(ui.head(state), w),
{
    let (a, b, c, d) = (
        ui.title(),
        ui.bus_line(state),
        ui.rate_line(state),
        ui.frames_line(state),
    );
    lemma_grows(a, b, w);
    lemma_grows(a + b, c, w);
    lemma_grows(a + b + c, d, w);
}

/// What stands in a part of the screen stands on the screen.
proof fn lemma_screen_parts(ui: TerminalUi, state: UiState, w: Seq<char>)
    requires
        occurs(ui.head(state), w) || occurs(joint_lines(state.joints@), w) || occurs(
            ui.foot(state),
            w,
        ),
    ensures
        occurs(ui.screen(state), w),
{
    let none = if state.joints@.len() == 0 {
        " (nessuna telemetria ricevuta ancora)\n"@
    } else {
        Seq::empty()
    };
    let lines = joint_lines(state.joints@);
    lemma_grows(ui.head(state), none, w);
    lemma_grows(ui.head(state) + none, lines, w);
    lemma_grows(ui.head(state) + none + lines, ui.foot(state), w);
}

proof fn lemma_foot_shows(ui: TerminalUi, state: UiState)
    ensures
        occurs(ui.foot(state), warning_lines(shown(texts(state.warnings@)))),
{
    let warnings = warning_lines(shown(texts(state.warnings@)));
    let topics = "----------------------------------------------------\n"@
        + " COMANDI:   alpha/cmd/"@ + ui.robot_name@ + "        (f32 LE x DOF)\n"@
        + " ESTOP:     alpha/cmd/"@ + ui.robot_name@ + "/estop (1 = attivo)\n"@
        + "====================================================\n"@;
    let quiet = if state.warnings@.len() == 0 {
        " NESSUN ALLARME\n"@
    } else {
        Seq::empty()
    };
    let last = "====================================================\n\n"@;
    lemma_grows(topics, warnings, warnings);
    lemma_grows(topics + warnings, quiet, warnings);
    lemma_grows(topics + warnings + quiet, last, warnings);
}

/// The bar of a joint has its mark in the first place where the joint is at its lower limit or
/// below, in the last place where it is at its upper limit or above, and no other mark.
pub proof fn law_bar_ends(joint: JointView)
    requires
        joint.value.finite(),
        joint.min.finite(),
        joint.max.finite(),
        joint.max.difference(joint.min).finite(),
        (Binary32 { bits: EPSILON_BITS }).below(joint.max.difference(joint.min)),
    ensures
        bar_text(joint).len() == 18,
        bar_text(joint)[0] == '[',
        bar_text(joint)[17] == ']',
        joint.value.not_over(joint.min) ==> forall|i: int|
            1 <= i <= 16 ==> #[trigger] bar_text(joint)[i] == if i == 1 {
                'X'
            } else {
                '-'
            },
        joint.max.not_over(joint.value) ==> forall|i: int|
            1 <= i <= 16 ==> #[trigger] bar_text(joint)[i] == if i == 16 {
                'X'
            } else {
                '-'
            },
{
    let span = joint.max.difference(joint.min);
    let gone = joint.value.difference(joint.min);
    let below = joint.min.opposite();
    let zero = number_zero();
    let one = Binary32 { bits: ONE_BITS };
    let last = Binary32 { bits: LAST_PLACE_BITS };
    let share = gone.quotient(span).clamped(zero, one);
    lemma_sum_defined(joint.value, below);
    lemma_sum_defined(joint.min, below);
    lemma_quotient_defined(gone, span);
    if joint.value.not_over(joint.min) {
        law_sum_monotone(joint.value, joint.min, below);
        lemma_self_difference(joint.min);
        lemma_quotient_of_negative(gone, span);
        assert(share.is_zero());
        lemma_first_place(share);
    }
    if joint.max.not_over(joint.value) {
        law_sum_monotone(joint.max, joint.value, below);
        lemma_quotient_of_larger(gone, span);
        assert(share == one);
        lemma_last_place();
    }
}

proof fn lemma_self_difference(x: Binary32)
    requires
        x.finite(),
    ensures
        x.difference(x).is_zero(),
{
    assert(x.opposite().value() == -x.value());
}

/// A number that is not over zero, divided by a positive one.
proof fn lemma_quotient_of_negative(x: Binary32, y: Binary32)
    requires
        !x.nan(),
        y.finite(),
        number_zero().below(y),
        x.not_over(number_zero()),
    ensures
        x.quotient(y).not_over(number_zero()),
{
    lemma_quotient_defined(x, y);
    lemma_rounded_exists(
        FRACTION_BITS as nat,
        INFINITY_BITS as nat,
        x.size() * pow2(SMALLEST_EXPONENT as nat),
        y.size(),
    );
    if x.is_zero() {
        law_zero_quotient(x, y);
    }
}

/// A number divided by a positive one that is not larger.
proof fn lemma_quotient_of_larger(x: Binary32, y: Binary32)
    requires
        !x.nan(),
        y.finite(),
        number_zero().below(y),
        y.not_over(x),
    ensures
        (Binary32 { bits: ONE_BITS }).not_over(x.quotient(y)),
{
    let f = FRACTION_BITS as nat;
    let inf = INFINITY_BITS as nat;
    let unit = pow2(SMALLEST_EXPONENT as nat);
    lemma_quotient_defined(x, y);
    if x.finite() {
        law_position_orders_values(y, x);
        law_position_orders_values(number_zero(), y);
        assert(number_zero().value() == 0) by {
            law_position_orders_values(number_zero(), number_zero().opposite());
        }
        lemma2_to64();
        assert(pow2(23) == 8388608);
        lemma_magnitude_compose(23, 126, 8388608);
        lemma_pow2_adds(23, 126);
        assert(126 * 8388608 + 8388608 == ONE_BITS as int);
        lemma_exact(ONE_BITS as nat, y.size());
        assert(unit * y.size() == y.size() * unit) by (nonlinear_arith);
        assert(y.size() * unit <= x.size() * unit) by (nonlinear_arith)
            requires
                y.size() <= x.size(),
        ;
        lemma_rounded_monotone(f, inf, y.size() * unit, x.size() * unit, y.size());
        lemma_rounded_exists(f, inf, x.size() * unit, y.size());
    }
}

proof fn lemma_first_place(share: Binary32)
    requires
        share.is_zero(),
    ensures
        share.product(Binary32 { bits: LAST_PLACE_BITS }).nearest_index() == 0,
{
    let last = Binary32 { bits: LAST_PLACE_BITS };
    lemma_zero_product(share, last);
    let p = share.product(last);
    law_position_orders_values(p, number_zero());
    law_position_orders_values(number_zero(), number_zero().opposite());
    assert(p.size() == 0);
    lemma_pow2_pos(149);
    lemma_pow2_unfold(150);
    lemma_basic_div(pow2(149) as int, pow2(150) as int);
}

proof fn lemma_last_place()
    ensures
        (Binary32 { bits: ONE_BITS }).product(Binary32 { bits: LAST_PLACE_BITS }).nearest_index()
            == 15,
{
    let last = Binary32 { bits: LAST_PLACE_BITS };
    law_product_one(last);
    lemma2_to64();
    assert(pow2(23) == 8388608);
    lemma_magnitude_compose(23, 129, 15728640);
    assert(129 * 8388608 + 15728640 == LAST_PLACE_BITS as int);
    assert(pow2(20) == 1048576);
    lemma_pow2_adds(20, 129);
    lemma_pow2_unfold(150);
    lemma_pow2_pos(149);
    let u = pow2(149) as int;
    assert(last.size() == 15 * u);
    lemma_fundamental_div_mod_converse(2 * last.size() + u, 2 * u, 15, u);
}

/// The period that telemetry should keep is that of the frequency that is expected.
pub proof fn law_expected_period(ui: TerminalUi)
    ensures
        ui.expected_hz.over_zero() ==> ui.expected_us() == interval_of(ui.expected_hz),
        !ui.expected_hz.over_zero() ==> forall|us: u64| !#[trigger] anomalous(us, ui.expected_us()),
{
}

/// The rate that is shown is the inverse of the interval, and the interval is shown in
/// milliseconds, both up to rounding.
pub proof fn law_rate_of_interval(us: u64)
    requires
        us > 0,
        whole_double(us).over_zero(),
        !whole_double(us).infinite(),
    ensures
        ({
            let unit = double_unit() as int;
            let (hz, ms) = rate_of(Some(us));
            let size = whole_double(us).size() as int;
            &&& !hz.infinite() ==> near_double(1_000_000 * unit * unit, hz.size() as int, size)
            &&& !ms.infinite() ==> near_double(size * unit, ms.size() as int, 1_000 * unit)
        }),
{
    lemma_million();
    lemma_thousand();
    law_double_quotient_is_near(Binary64 { bits: MILLION_BITS }, whole_double(us));
    law_double_quotient_is_near(whole_double(us), Binary64 { bits: THOUSAND_BITS });
}

proof fn lemma_thousand()
    ensures
        (Binary64 { bits: THOUSAND_BITS }).over_zero(),
        !(Binary64 { bits: THOUSAND_BITS }).infinite(),
        (Binary64 { bits: THOUSAND_BITS }).size() == 1_000 * double_unit(),
{
    lemma2_to64();
    lemma2_to64_rest();
    assert(pow2(52) == 4503599627370496);
    lemma_magnitude_compose(52, 1031, 8796093022208000);
    assert(1031 * 4503599627370496 + 8796093022208000 == THOUSAND_BITS as int);
    assert(pow2(43) == 8796093022208);
    lemma_pow2_adds(43, 1031);
    let u = pow2(1031) as int;
    assert(8796093022208000 * u == 1_000 * (8796093022208 * u));
}

/// An interval between frames is shown, and the longest of all is kept; frames in bursts leave
/// both as they are.
pub proof fn law_intervals_are_tracked(state: UiState, next: UiState, us: u64, expected_us: u64)
    requires
        state.timed(next, us, expected_us),
    ensures
        next.max_jitter_us >= state.max_jitter_us,
        us >= 500 ==> next.last_interval_us == Some(us) && next.max_jitter_us >= us,
        next.max_jitter_us == state.max_jitter_us || next.max_jitter_us == us,
        us < 500 ==> next.last_interval_us == state.last_interval_us && next.max_jitter_us
            == state.max_jitter_us,
        us >= 500 && expected_us != u64::MAX && 2 * us > 7 * expected_us ==> texts(
            next.warnings@,
        )[0] == jitter_text(us, expected_us),
{
}

/// A joint for which no range is given is shown between -π and π.
pub proof fn law_default_range(limits: Seq<(Binary32, Binary32)>, i: int)
    requires
        0 <= i,
    ensures
        i < limits.len() ==> range_of(limits, i) == limits[i],
        i >= limits.len() ==> {
            let (min, max) = range_of(limits, i);
            let one = pow2(149) as int;
            &&& min == max.opposite()
            &&& 3141592 * one < 1000000 * max.value() < 3141593 * one
        },
{
    let pi = Binary32 { bits: PI_BITS };
    lemma2_to64();
    assert(pow2(23) == 8388608);
    lemma_magnitude_compose(23, 127, 13176795);
    assert(127 * 8388608 + 13176795 == PI_BITS as int);
    assert(pow2(22) == 4194304);
    lemma_pow2_adds(22, 127);
    lemma_pow2_pos(127);
    let u = pow2(127) as int;
    assert(pi.value() == 13176795 * u);
    assert(pi.opposite() == (Binary32 { bits: MINUS_PI_BITS }));
}

/// The state of the fieldbus is told in one word: an emergency stop before anything else, and
/// then whether the robot is there.
pub proof fn law_bus_state_is_told(estop: bool, online: bool)
    ensures
        ({
            let t = bus_text(estop, online);
            &&& t.skip(7) == "ESTOP"@ <==> estop
            &&& t.skip(7) == "ONLINE"@ <==> !estop && online
            &&& t.skip(7) == "OFFLINE"@ <==> !estop && !online
        }),
{
    reveal_strlit("ESTOP");
    reveal_strlit("ONLINE");
    reveal_strlit("OFFLINE");
    reveal_strlit("\x1b[1;31m");
    reveal_strlit("\x1b[1;32m");
    reveal_strlit("\x1b[1;33m");
    let t = bus_text(estop, online);
    assert(estop ==> t.skip(7) =~= "ESTOP"@);
    assert(!estop && online ==> t.skip(7) =~= "ONLINE"@);
    assert(!estop && !online ==> t.skip(7) =~= "OFFLINE"@);
    assert("ESTOP"@.len() == 5 && "ONLINE"@.len() == 6 && "OFFLINE"@.len() == 7);
}

} // verus!
