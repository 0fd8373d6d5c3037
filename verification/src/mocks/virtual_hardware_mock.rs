//! A robot that exists in software only.

use crate::io_bridge::command_vector::{CommandVector, MAX_JOINTS};
use crate::io_bridge::fieldbus::FieldbusConfig;
use crate::io_bridge::fieldbus_loop::{command_values, engages};
use crate::io_bridge::wire::{decoded_all, repeated, shorter};
use crate::json::{
    insert_field, new_object, no_fields, object_text, parsed_object, write_object, JsonField,
    JsonValue,
};
use crate::network_hook::message::{
    law_payload_reads_back, numbers_payload, payload_bytes, status_topic, status_topic_of,
    telemetry_topic, telemetry_topic_of, Message, Sent,
};
use crate::numeric::accuracy::{
    abs, lemma_abs_product, lemma_difference_error, lemma_product_error, lemma_sum_error, one_unit,
};
use crate::numeric::binary32::{number_zero, Binary32};
use crate::numeric::rounding::lemma_magnitude_compose;
use crate::text::bytes_of;
use vstd::arithmetic::power2::*;
use vstd::prelude::*;
use vstd::utf8::encode_utf8;

verus! {

/// How fast a joint approaches its target: by a fifth of the distance in each tick.
pub const APPROACH_BITS: u32 = 0x3e4c_cccd;

/// A robot: simulated, unless a fieldbus is given.
pub struct VirtualHardwareMock {
    pub hardware_id: String,
    pub joint_count: usize,
    pub fieldbus: Option<FieldbusConfig>,
}

impl VirtualHardwareMock {
    pub fn new(hardware_id: &str, joint_count: usize) -> (m: VirtualHardwareMock)
        ensures
            m.hardware_id@ == hardware_id@,
            m.joint_count == joint_count,
            m.fieldbus is None,
    {
        VirtualHardwareMock { hardware_id: hardware_id.to_string(), joint_count, fieldbus: None }
    }

    pub fn with_fieldbus(self, config: FieldbusConfig) -> (m: VirtualHardwareMock)
        ensures
            m.hardware_id == self.hardware_id,
            m.joint_count == self.joint_count,
            m.fieldbus == Some(config),
    {
        VirtualHardwareMock {
            hardware_id: self.hardware_id,
            joint_count: self.joint_count,
            fieldbus: Some(config),
        }
    }

    /// The simulation of this robot.
    pub fn simulation(&self) -> (s: SimulatedHardware)
        ensures
            s.hardware_id@ == self.hardware_id@,
            s.joint_count == self.joint_count,
            s.targets@ == rest_position(),
            s.current@ == rest_position(),
            s.values@ == rest_position(),
            !s.command_received,
            !s.estop,
            s.frames == 0,
    {
        SimulatedHardware {
            hardware_id: self.hardware_id.clone(),
            joint_count: self.joint_count,
            targets: repeated(Binary32::zero()),
            current: repeated(Binary32::zero()),
            values: repeated(Binary32::zero()),
            command_received: false,
            estop: false,
            frames: 0,
        }
    }
}

/// Every joint at zero.
pub open spec fn rest_position() -> Seq<Binary32> {
    Seq::new(MAX_JOINTS as nat, |i: int| number_zero())
}

/// State of a simulated robot.
pub struct SimulatedHardware {
    pub hardware_id: String,
    pub joint_count: usize,
    pub targets: [Binary32; MAX_JOINTS],
    pub current: [Binary32; MAX_JOINTS],
    pub values: [Binary32; MAX_JOINTS],
    pub command_received: bool,
    pub estop: bool,
    pub frames: u64,
}

/// The fields of a status report.
pub open spec fn simulated_fields(frames: u64, estop: bool) -> Map<Seq<char>, JsonValue> {
    no_fields().insert("online"@, JsonValue::Flag(true)).insert(
        "transport"@,
        JsonValue::Text("SIMULATED"@),
    ).insert("frames"@, JsonValue::Count(frames)).insert("estop"@, JsonValue::Flag(estop))
}

impl SimulatedHardware {
    /// Joints that move.
    pub open spec fn active(self) -> nat {
        shorter(self.joint_count as nat, MAX_JOINTS as nat)
    }

    /// Where joint `j` stands after a tick: nearer to its target, once a command came,
    /// and before that on the given wave.
    pub open spec fn moved(self, j: int, waves: Seq<Binary32>) -> Binary32 {
        if self.command_received {
            self.current@[j].sum(
                self.targets@[j].difference(self.current@[j]).product(
                    Binary32 { bits: APPROACH_BITS },
                ),
            )
        } else {
            waves[j]
        }
    }

    /// What joint `j` reports after a tick: zero during an emergency stop.
    pub open spec fn reported(self, j: int, waves: Seq<Binary32>) -> Binary32 {
        if self.estop {
            number_zero()
        } else {
            self.moved(j, waves)
        }
    }

    /// The telemetry of a tick.
    pub open spec fn telemetry(self, waves: Seq<Binary32>) -> Sent {
        Sent {
            topic: telemetry_topic_of(self.hardware_id@),
            payload: payload_bytes(
                Seq::new(self.active(), |j: int| self.reported(j, waves)),
                self.active(),
            ),
        }
    }

    /// The status report.
    pub open spec fn status(self) -> Sent {
        Sent {
            topic: status_topic_of(self.hardware_id@),
            payload: encode_utf8(object_text(simulated_fields(self.frames, self.estop))),
        }
    }

    /// The status report. Reading its payload gives the fields back.
    pub fn status_message(&self) -> (m: Message)
        ensures
            m@ == self.status(),
            parsed_object(m.payload@) == Some(simulated_fields(self.frames, self.estop)),
    {
        let mut object: serde_json::Map<String, serde_json::Value> = new_object();
        insert_field(&mut object, "online", JsonField::Flag(true));
        insert_field(&mut object, "transport", JsonField::Text("SIMULATED".to_string()));
        insert_field(&mut object, "frames", JsonField::Count(self.frames));
        insert_field(&mut object, "estop", JsonField::Flag(self.estop));
        let text: String = write_object(object);
        Message { topic: status_topic(&self.hardware_id), payload: bytes_of(&text) }
    }

    /// One tick: moves the joints and returns the telemetry, and with every hundredth
    /// tick a status report.
    pub fn tick(&mut self, waves: &[Binary32]) -> (r: (Message, Option<Message>))
        requires
            !old(self).command_received ==> waves@.len() >= old(self).active(),
            old(self).frames < u64::MAX,
        ensures
            r.0@ == old(self).telemetry(waves@),
            r.1 is Some <==> final(self).frames % 100 == 0,
            r.1 is Some ==> (r.1->0)@ == final(self).status(),
            final(self).frames == old(self).frames + 1,
            final(self).hardware_id == old(self).hardware_id,
            final(self).joint_count == old(self).joint_count,
            final(self).command_received == old(self).command_received,
            final(self).estop == old(self).estop,
            final(self).targets == old(self).targets,
            forall|j: int|
                0 <= j < MAX_JOINTS ==> #[trigger] final(self).current@[j] == if j < old(
                    self).active() && old(self).command_received {
                    old(self).moved(j, waves@)
                } else {
                    old(self).current@[j]
                },
            forall|j: int|
                0 <= j < MAX_JOINTS ==> #[trigger] final(self).values@[j] == if j < old(
                    self).active() {
                    old(self).reported(j, waves@)
                } else {
                    old(self).values@[j]
                },
    {
        let ghost before = *self;
        let active: usize = if self.joint_count < MAX_JOINTS {
            self.joint_count
        } else {
            MAX_JOINTS
        };
        let mut j: usize = 0;
        while j < active
            invariant
                j <= active <= MAX_JOINTS,
                active == before.active(),
                !before.command_received ==> waves@.len() >= active,
                self.frames == before.frames,
                self.hardware_id == before.hardware_id,
                self.joint_count == before.joint_count,
                self.command_received == before.command_received,
                self.estop == before.estop,
                self.targets == before.targets,
                forall|k: int|
                    0 <= k < MAX_JOINTS ==> #[trigger] self.current@[k] == if k < j
                        && before.command_received {
                        before.moved(k, waves@)
                    } else {
                        before.current@[k]
                    },
                forall|k: int|
                    0 <= k < MAX_JOINTS ==> #[trigger] self.values@[k] == if k < j {
                        before.reported(k, waves@)
                    } else {
                        before.values@[k]
                    },
            decreases active - j,
        {
            let val: Binary32 = if self.command_received {
                let step: Binary32 = self.targets[j].minus(self.current[j]).times(
                    Binary32 { bits: APPROACH_BITS },
                );
                let c: Binary32 = self.current[j].plus(step);
                self.current[j] = c;
                c
            } else {
                waves[j]
            };
            self.values[j] = if self.estop {
                Binary32::zero()
            } else {
                val
            };
            j = j + 1;
        }
        let payload: Vec<u8> = numbers_payload(&self.values, active);
        proof {
            let want = Seq::new(before.active(), |j: int| before.reported(j, waves@));
            assert(self.values@.take(active as int) =~= want.take(active as int));
        }
        let telemetry: Message = Message { topic: telemetry_topic(&self.hardware_id), payload };
        self.frames = self.frames + 1;
        if self.frames % 100 == 0 {
            let status: Message = self.status_message();
            (telemetry, Some(status))
        } else {
            (telemetry, None)
        }
    }

    /// Whether a command is taken: not during an emergency stop, and only whole numbers.
    pub open spec fn takes(self, payload: Seq<u8>) -> bool {
        !self.estop && payload.len() % 4 == 0
    }

    /// Handles a command: its values become the targets. Returns whether it was taken.
    pub fn on_command(&mut self, payload: &[u8]) -> (taken: bool)
        ensures
            taken == old(self).takes(payload@),
            !taken ==> *final(self) == *old(self),
            taken ==> final(self).command_received,
            final(self).hardware_id == old(self).hardware_id,
            final(self).joint_count == old(self).joint_count,
            final(self).current == old(self).current,
            final(self).values == old(self).values,
            final(self).estop == old(self).estop,
            final(self).frames == old(self).frames,
            forall|j: int|
                taken && 0 <= j < MAX_JOINTS ==> #[trigger] final(self).targets@[j] == if j
                    < command_values(payload@).len() {
                    command_values(payload@)[j]
                } else {
                    old(self).targets@[j]
                },
    {
        if self.estop || payload.len() % 4 != 0 {
            return false;
        }
        let command: CommandVector = CommandVector::from_bytes(payload);
        assert(command@ =~= command_values(payload@));
        self.command_received = true;
        let values: &[Binary32] = command.as_slice();
        crate::io_bridge::wire::copy_numbers(&mut self.targets, values);
        true
    }

    /// Handles an emergency stop. When it is engaged or released, the joints go back to
    /// zero and a status report is returned.
    pub fn on_estop(&mut self, payload: &[u8]) -> (r: Option<Message>)
        ensures
            r is Some <==> engages(payload@) != old(self).estop,
            r is None ==> *final(self) == *old(self),
            r is Some ==> {
                &&& (r->0)@ == final(self).status()
                &&& final(self).targets@ == rest_position()
                &&& final(self).current@ == rest_position()
            },
            final(self).estop == engages(payload@),
            final(self).hardware_id == old(self).hardware_id,
            final(self).joint_count == old(self).joint_count,
            final(self).values == old(self).values,
            final(self).command_received == old(self).command_received,
            final(self).frames == old(self).frames,
    {
        let active: bool = payload.len() > 0 && payload[0] != 0;
        if active == self.estop {
            return None;
        }
        self.estop = active;
        self.targets = repeated(Binary32::zero());
        self.current = repeated(Binary32::zero());
        Some(self.status_message())
    }
}

/// During an emergency stop every joint reports zero.
pub proof fn law_stopped_robot_reports_zero(s: SimulatedHardware, waves: Seq<Binary32>)
    requires
        s.estop,
    ensures
        s.telemetry(waves).payload == payload_bytes(
            Seq::new(s.active(), |j: int| number_zero()),
            s.active(),
        ),
{
    assert(Seq::new(s.active(), |j: int| s.reported(j, waves)) =~= Seq::new(
        s.active(),
        |j: int| number_zero(),
    ));
}

/// Reading the telemetry gives what each joint reports, in the order of the joints: zero
/// during an emergency stop, the wave before the first command, and else where it moved to.
pub proof fn law_telemetry_reads_back(s: SimulatedHardware, waves: Seq<Binary32>, j: int)
    requires
        0 <= j < s.active(),
    ensures
        ({
            let r = decoded_all(s.telemetry(waves).payload);
            &&& r.len() == s.active()
            &&& s.estop ==> r[j] == number_zero()
            &&& !s.estop && !s.command_received ==> r[j] == waves[j]
            &&& !s.estop && s.command_received ==> r[j] == s.moved(j, waves)
        }),
{
    let entries = Seq::new(s.active(), |j: int| s.reported(j, waves));
    law_payload_reads_back(entries, s.active());
    assert(entries.take(s.active() as int) =~= entries);
}

/// A joint under a command moves by a fifth of the way to its target, up to rounding.
pub proof fn law_joint_moves_by_a_fifth(s: SimulatedHardware, waves: Seq<Binary32>, j: int)
    requires
        0 <= j < MAX_JOINTS,
        s.command_received,
        s.moved(j, waves).finite(),
    ensures
        ({
            let way = s.targets@[j].value() - s.current@[j].value();
            let moved = s.moved(j, waves).value() - s.current@[j].value();
            16777216 * abs(5 * moved - way) <= 5 * abs(s.moved(j, waves).value()) + 8 * abs(way)
                + 134217728
        }),
{
    let fifth = Binary32 { bits: APPROACH_BITS };
    let c = s.current@[j];
    let dist = s.targets@[j].difference(c);
    let step = dist.product(fifth);
    lemma2_to64();
    assert(pow2(23) == 8388608);
    lemma_magnitude_compose(23, 123, 13421773);
    assert(123 * 8388608 + 13421773 == APPROACH_BITS as int);
    assert(pow2(26) == 67108864);
    lemma_pow2_adds(26, 123);
    lemma_pow2_pos(123);
    let u = pow2(123) as int;
    assert(fifth.value() == 13421773 * u);
    lemma_sum_error(c, step);
    lemma_product_error(dist, fifth);
    lemma_difference_error(s.targets@[j], c);
    let d = dist.value();
    let m = step.value();
    assert(d * fifth.value() - m * one_unit() == (13421773 * d - 67108864 * m) * u)
        by (nonlinear_arith)
        requires
            fifth.value() == 13421773 * u,
            one_unit() == 67108864 * u,
    ;
    lemma_abs_product(13421773 * d - 67108864 * m, u);
    let off = abs(13421773 * d - 67108864 * m);
    assert((abs(m) + 8388608) * one_unit() == (67108864 * (abs(m) + 8388608)) * u)
        by (nonlinear_arith)
        requires
            one_unit() == 67108864 * u,
    ;
    assert(16777216 * off <= 67108864 * (abs(m) + 8388608)) by (nonlinear_arith)
        requires
            16777216 * (off * u) <= (67108864 * (abs(m) + 8388608)) * u,
            u > 0,
    ;
}

} // verus!
