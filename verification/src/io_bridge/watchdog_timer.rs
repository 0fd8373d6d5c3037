//! The hard watchdog.
//!
//! It watches the heartbeat of the control module. If no beat comes within the safety
//! window, it commands zero to every drive and latches the emergency stop, until the
//! heart beats again.

use crate::io_bridge::command_vector::{CommandVector, MAX_JOINTS};
use crate::io_bridge::wire::{decoded_all, shorter};
use crate::json::{
    insert_field, new_object, no_fields, object_text, parsed_object, write_object, JsonField,
    JsonValue,
};
use crate::network_hook::message::{
    command_payload, command_topic, command_topic_of, estop_topic, estop_topic_of, watchdog_topic,
    watchdog_topic_of, Message, Sent,
};
use crate::numeric::binary32::{law_bytes_round_trip, number_zero};
use crate::system::clock::{cut, low_bits, now_ms};
use crate::text::bytes_of;
use vstd::prelude::*;
use vstd::utf8::encode_utf8;

verus! {

/// Window within which the control module must beat.
pub const DEFAULT_HEARTBEAT_TIMEOUT_MS: u64 = 10;

/// How often the beat is looked at.
pub const DEFAULT_CHECK_INTERVAL_MS: u64 = 1;

/// How often zero is commanded again while the watchdog is tripped.
pub const DEFAULT_REASSERT_INTERVAL_MS: u64 = 10;

/// The time of the last beat.
#[derive(Debug)]
pub struct Heartbeat {
    pub last_ping_ms: u64,
}

impl Heartbeat {
    /// The heart starts as if it had just beaten: `new_at` the present time, of which
    /// nothing is claimed.
    pub fn new() -> Heartbeat {
        let now: u64 = now_ms();
        Heartbeat::new_at(now)
    }

    /// A heart that has just beaten at the time `now`.
    pub fn new_at(now: u64) -> (h: Heartbeat)
        ensures
            h.last_ping_ms == now,
    {
        Heartbeat { last_ping_ms: now }
    }

    /// Beats at the present time: `ping_at` that time, of which nothing is claimed.
    pub fn ping(&mut self) {
        let now: u64 = now_ms();
        self.ping_at(now);
    }

    /// Beats at the time `now`.
    pub fn ping_at(&mut self, now: u64)
        ensures
            final(self).last_ping_ms == now,
    {
        self.last_ping_ms = now;
    }

    /// Age of the last beat at the time `now`; 0 if the beat lies ahead.
    pub open spec fn age(self, now: u64) -> u64 {
        if now > self.last_ping_ms {
            (now - self.last_ping_ms) as u64
        } else {
            0
        }
    }

    /// Age of the last beat in milliseconds, at the present time. Nothing is claimed of
    /// that time.
    pub fn age_ms(&self) -> (age: u64)
        ensures
            exists|now: u64| age == #[trigger] self.age(now),
    {
        let now: u64 = now_ms();
        self.age_at(now)
    }

    /// Age of the last beat at the time `now`.
    pub fn age_at(&self, now: u64) -> (age: u64)
        ensures
            age == self.age(now),
    {
        if now > self.last_ping_ms {
            now - self.last_ping_ms
        } else {
            0
        }
    }
}

impl Default for Heartbeat {
    fn default() -> Heartbeat {
        Heartbeat::new()
    }
}

/// Parameters of the watchdog.
#[derive(Debug, Clone, Copy)]
pub struct WatchdogConfig {
    /// Longest accepted time between two beats.
    pub heartbeat_timeout_ms: u64,
    /// How often the beat is looked at.
    pub check_interval_ms: u64,
    /// How often zero is commanded again while the watchdog is tripped.
    pub reassert_interval_ms: u64,
}

impl Default for WatchdogConfig {
    fn default() -> (c: WatchdogConfig)
        ensures
            c.heartbeat_timeout_ms == DEFAULT_HEARTBEAT_TIMEOUT_MS,
            c.check_interval_ms == DEFAULT_CHECK_INTERVAL_MS,
            c.reassert_interval_ms == DEFAULT_REASSERT_INTERVAL_MS,
    {
        WatchdogConfig {
            heartbeat_timeout_ms: DEFAULT_HEARTBEAT_TIMEOUT_MS,
            check_interval_ms: DEFAULT_CHECK_INTERVAL_MS,
            reassert_interval_ms: DEFAULT_REASSERT_INTERVAL_MS,
        }
    }
}

/// What the watchdog decides when it looks at the beat.
#[derive(Debug, Clone, Copy, PartialEq, Eq, Structural)]
pub enum WatchdogAction {
    /// Nothing is to be done.
    Watch,
    /// The heart stopped: command zero, engage the emergency stop, report.
    Intervene,
    /// The heart is still silent: command zero again.
    Reassert,
    /// The heart beats again: release the emergency stop.
    Release,
    /// The watchdog was asked to end.
    Halt,
    /// The watchdog was asked to end while tripped: release the emergency stop first.
    ReleaseAndHalt,
}

/// The safety supervisor.
#[derive(Debug)]
pub struct HardWatchdog {
    pub hardware_id: String,
    pub joint_count: usize,
    pub config: WatchdogConfig,
    pub tripped: bool,
    pub trips: u64,
    pub stop: bool,
}

/// The fields of a status report.
pub open spec fn watchdog_fields(
    hardware_id: Seq<char>,
    tripped: bool,
    trips: u64,
    timeout_ms: u64,
) -> Map<Seq<char>, JsonValue> {
    no_fields().insert("hardware_id"@, JsonValue::Text(hardware_id)).insert(
        "tripped"@,
        JsonValue::Flag(tripped),
    ).insert("trips"@, JsonValue::Count(trips)).insert("timeout_ms"@, JsonValue::Count(timeout_ms))
}

impl HardWatchdog {
    pub fn new(hardware_id: &str, joint_count: usize, config: WatchdogConfig) -> (w: HardWatchdog)
        ensures
            w.hardware_id@ == hardware_id@,
            w.joint_count == joint_count,
            w.config == config,
            !w.tripped,
            w.trips == 0,
            !w.stop,
    {
        HardWatchdog {
            hardware_id: hardware_id.to_string(),
            joint_count,
            config,
            tripped: false,
            trips: 0,
            stop: false,
        }
    }

    /// Interventions since the start.
    pub fn trips(&self) -> (n: u64)
        ensures
            n == self.trips,
    {
        self.trips
    }

    /// Whether the drives are held at zero.
    pub fn is_tripped(&self) -> (r: bool)
        ensures
            r == self.tripped,
    {
        self.tripped
    }

    /// Asks the watchdog to end.
    pub fn shutdown(&mut self)
        ensures
            *final(self) == (HardWatchdog { stop: true, ..*old(self) }),
    {
        self.stop = true;
    }

    /// The decision, where the last beat is `age_ms` old and zero was commanded
    /// `since_force_ms` ago.
    pub open spec fn decision(self, age_ms: u64, since_force_ms: u128) -> WatchdogAction {
        if self.stop {
            if self.tripped {
                WatchdogAction::ReleaseAndHalt
            } else {
                WatchdogAction::Halt
            }
        } else if age_ms > self.config.heartbeat_timeout_ms {
            if !self.tripped {
                WatchdogAction::Intervene
            } else if since_force_ms >= self.config.reassert_interval_ms {
                WatchdogAction::Reassert
            } else {
                WatchdogAction::Watch
            }
        } else if self.tripped {
            WatchdogAction::Release
        } else {
            WatchdogAction::Watch
        }
    }

    /// The state after the decision: tripped exactly while the heart is silent.
    pub open spec fn decided(self, age_ms: u64) -> HardWatchdog {
        let silent = !self.stop && age_ms > self.config.heartbeat_timeout_ms;
        HardWatchdog {
            tripped: silent,
            trips: if silent && !self.tripped {
                low_bits((self.trips + 1) as nat) as u64
            } else {
                self.trips
            },
            ..self
        }
    }

    /// Looks at the beat: decides what is to be done.
    pub fn check(&mut self, age_ms: u64, since_force_ms: u128) -> (a: WatchdogAction)
        ensures
            a == old(self).decision(age_ms, since_force_ms),
            *final(self) == old(self).decided(age_ms),
    {
        if self.stop {
            if self.tripped {
                self.tripped = false;
                WatchdogAction::ReleaseAndHalt
            } else {
                WatchdogAction::Halt
            }
        } else if age_ms > self.config.heartbeat_timeout_ms {
            if !self.tripped {
                self.tripped = true;
                self.trips = cut(self.trips as u128 + 1);
                WatchdogAction::Intervene
            } else if since_force_ms >= self.config.reassert_interval_ms as u128 {
                WatchdogAction::Reassert
            } else {
                WatchdogAction::Watch
            }
        } else if self.tripped {
            self.tripped = false;
            WatchdogAction::Release
        } else {
            WatchdogAction::Watch
        }
    }

    /// The command of zero to every joint.
    pub open spec fn zeros(self) -> Sent {
        Sent {
            topic: command_topic_of(self.hardware_id@),
            payload: Seq::new(
                4 * shorter(self.joint_count as nat, MAX_JOINTS as nat),
                |i: int| 0u8,
            ),
        }
    }

    /// Engaging or releasing the emergency stop.
    pub open spec fn latch(self, engage: bool) -> Sent {
        Sent {
            topic: estop_topic_of(self.hardware_id@),
            payload: seq![
                if engage {
                    1u8
                } else {
                    0u8
                },
            ],
        }
    }

    /// The status report.
    pub open spec fn status(self) -> Sent {
        Sent {
            topic: watchdog_topic_of(self.hardware_id@),
            payload: encode_utf8(
                object_text(
                    watchdog_fields(
                        self.hardware_id@,
                        self.tripped,
                        self.trips,
                        self.config.heartbeat_timeout_ms,
                    ),
                ),
            ),
        }
    }

    /// What is put on the bus for a decision, in order.
    pub open spec fn orders(self, action: WatchdogAction) -> Seq<Sent> {
        match action {
            WatchdogAction::Watch | WatchdogAction::Halt => Seq::empty(),
            WatchdogAction::Intervene => seq![self.zeros(), self.latch(true), self.status()],
            WatchdogAction::Reassert => seq![self.zeros()],
            WatchdogAction::Release | WatchdogAction::ReleaseAndHalt => seq![self.latch(false)],
        }
    }

    fn zeros_message(&self) -> (m: Message)
        ensures
            m@ == self.zeros(),
    {
        let command: CommandVector = CommandVector::zeros(self.joint_count);
        let payload: Vec<u8> = command_payload(&command);
        assert(payload@ =~= self.zeros().payload);
        Message { topic: command_topic(&self.hardware_id), payload }
    }

    fn latch_message(&self, engage: bool) -> (m: Message)
        ensures
            m@ == self.latch(engage),
    {
        let mut payload: Vec<u8> = Vec::new();
        payload.push(
            if engage {
                1
            } else {
                0
            },
        );
        assert(payload@ =~= self.latch(engage).payload);
        Message { topic: estop_topic(&self.hardware_id), payload }
    }

    /// The status report. Reading its payload gives the fields back.
    pub fn status_message(&self) -> (m: Message)
        ensures
            m@ == self.status(),
            parsed_object(m.payload@) == Some(
                watchdog_fields(
                    self.hardware_id@,
                    self.tripped,
                    self.trips,
                    self.config.heartbeat_timeout_ms,
                ),
            ),
    {
        let mut object: serde_json::Map<String, serde_json::Value> = new_object();
        insert_field(&mut object, "hardware_id", JsonField::Text(self.hardware_id.clone()));
        insert_field(&mut object, "tripped", JsonField::Flag(self.tripped));
        insert_field(&mut object, "trips", JsonField::Count(self.trips));
        insert_field(
            &mut object,
            "timeout_ms",
            JsonField::Count(self.config.heartbeat_timeout_ms),
        );
        let text: String = write_object(object);
        Message { topic: watchdog_topic(&self.hardware_id), payload: bytes_of(&text) }
    }

    /// What is to be put on the bus for a decision, in order.
    pub fn messages(&self, action: WatchdogAction) -> (v: Vec<Message>)
        ensures
            v@.len() == self.orders(action).len(),
            forall|i: int| 0 <= i < v@.len() ==> (#[trigger] v@[i])@ == self.orders(action)[i],
    {
        let mut v: Vec<Message> = Vec::new();
        match action {
            WatchdogAction::Watch => {},
            WatchdogAction::Halt => {},
            WatchdogAction::Intervene => {
                v.push(self.zeros_message());
                v.push(self.latch_message(true));
                v.push(self.status_message());
            },
            WatchdogAction::Reassert => {
                v.push(self.zeros_message());
            },
            WatchdogAction::Release => {
                v.push(self.latch_message(false));
            },
            WatchdogAction::ReleaseAndHalt => {
                v.push(self.latch_message(false));
            },
        }
        v
    }
}

/// A silent heart always ends in drives at zero: the first look after the window
/// commands zero and engages the emergency stop.
pub proof fn law_silence_stops_the_robot(w: HardWatchdog, age_ms: u64, since_force_ms: u128)
    requires
        !w.stop,
        !w.tripped,
        age_ms > w.config.heartbeat_timeout_ms,
    ensures
        ({
            let next = w.decided(age_ms);
            let orders = next.orders(w.decision(age_ms, since_force_ms));
            &&& next.tripped
            &&& orders[0] == next.zeros()
            &&& orders[1] == next.latch(true)
        }),
{
}

/// A heart that beats within the window is left alone, and the emergency stop is
/// released if it was engaged.
pub proof fn law_beating_heart_is_left_alone(w: HardWatchdog, age_ms: u64, since_force_ms: u128)
    requires
        !w.stop,
        age_ms <= w.config.heartbeat_timeout_ms,
    ensures
        ({
            let next = w.decided(age_ms);
            let orders = next.orders(w.decision(age_ms, since_force_ms));
            &&& !next.tripped
            &&& next.trips == w.trips
            &&& w.tripped ==> orders == seq![next.latch(false)]
            &&& !w.tripped ==> orders.len() == 0
        }),
{
}

/// One silence is one intervention: as long as it lasts, the emergency stop is not
/// engaged again, and the interventions are not counted again.
pub proof fn law_one_silence_one_trip(w: HardWatchdog, age_ms: u64, since_force_ms: u128)
    requires
        !w.stop,
        w.tripped,
        age_ms > w.config.heartbeat_timeout_ms,
    ensures
        w.decided(age_ms) == w,
        w.decision(age_ms, since_force_ms) != WatchdogAction::Intervene,
{
}

/// The watchdog never ends with the emergency stop engaged by it.
pub proof fn law_halt_releases_the_latch(w: HardWatchdog, age_ms: u64, since_force_ms: u128)
    requires
        w.stop,
    ensures
        !w.decided(age_ms).tripped,
        w.tripped ==> w.decided(age_ms).orders(w.decision(age_ms, since_force_ms)) == seq![
            w.latch(false),
        ],
{
}

/// The command of the watchdog reads as zero for every joint, as far as a command goes.
pub proof fn law_zeros_reach_every_joint(w: HardWatchdog, j: int)
    requires
        0 <= j < w.joint_count,
        j < MAX_JOINTS,
    ensures
        j < decoded_all(w.zeros().payload).len(),
        decoded_all(w.zeros().payload)[j] == number_zero(),
        w.zeros().topic == command_topic_of(w.hardware_id@),
{
    let b = w.zeros().payload;
    let n = shorter(w.joint_count as nat, MAX_JOINTS as nat);
    assert(b.len() / 4 == n);
    let part = b.subrange(4 * j, 4 * j + 4);
    law_bytes_round_trip(number_zero());
    assert(part =~= number_zero().encoded());
}

/// While the heart stays silent, zero is commanded again as often as the interval says, and
/// nothing else is sent.
pub proof fn law_zero_is_reasserted(w: HardWatchdog, age_ms: u64, since_force_ms: u128)
    requires
        !w.stop,
        w.tripped,
        age_ms > w.config.heartbeat_timeout_ms,
    ensures
        ({
            let orders = w.orders(w.decision(age_ms, since_force_ms));
            &&& since_force_ms >= w.config.reassert_interval_ms ==> orders == seq![w.zeros()]
            &&& since_force_ms < w.config.reassert_interval_ms ==> orders.len() == 0
        }),
{
}

/// An intervention is counted once, is reported with its count, and names the robot.
pub proof fn law_intervention_is_reported(w: HardWatchdog, age_ms: u64, since_force_ms: u128)
    requires
        !w.stop,
        !w.tripped,
        age_ms > w.config.heartbeat_timeout_ms,
        w.trips < u64::MAX,
    ensures
        ({
            let next = w.decided(age_ms);
            let orders = next.orders(w.decision(age_ms, since_force_ms));
            &&& next.trips == w.trips + 1
            &&& orders.len() == 3
            &&& orders[1].topic == estop_topic_of(w.hardware_id@)
            &&& orders[1].payload.len() == 1
            &&& orders[1].payload[0] != 0
            &&& orders[2] == next.status()
            &&& orders[2].topic == watchdog_topic_of(w.hardware_id@)
        }),
{
}

/// The age of a beat is the time since then; a later beat is never older.
pub proof fn law_age_since_ping(a: Heartbeat, b: Heartbeat, now: u64)
    requires
        a.last_ping_ms <= b.last_ping_ms,
    ensures
        b.age(now) <= a.age(now),
        a.last_ping_ms <= now ==> a.last_ping_ms + a.age(now) == now,
        a.last_ping_ms >= now ==> a.age(now) == 0,
{
}

/// Each field of a status report holds what it is named after.
pub proof fn law_watchdog_fields(id: Seq<char>, tripped: bool, trips: u64, timeout_ms: u64)
    ensures
        ({
            let f = watchdog_fields(id, tripped, trips, timeout_ms);
            &&& f["hardware_id"@] == JsonValue::Text(id)
            &&& f["tripped"@] == JsonValue::Flag(tripped)
            &&& f["trips"@] == JsonValue::Count(trips)
            &&& f["timeout_ms"@] == JsonValue::Count(timeout_ms)
        }),
{
    reveal_strlit("hardware_id");
    reveal_strlit("tripped");
    reveal_strlit("trips");
    reveal_strlit("timeout_ms");
    assert("hardware_id"@.len() == 11);
    assert("tripped"@.len() == 7);
    assert("trips"@.len() == 5);
    assert("timeout_ms"@.len() == 10);
}

} // verus!
