//! The loop that serves a robot over its fieldbus, as a machine: every event gives the
//! actions to perform, in order.

use crate::io_bridge::adapters::laws::{
    law_fixed_round_trip, law_later_bytes_do_not_matter, law_message_is_consumed,
};
use crate::io_bridge::adapters::{zero_values, Adapter, BrandAdapter, Telemetry};
use crate::io_bridge::command_vector::{CommandVector, MAX_JOINTS};
use crate::io_bridge::fieldbus::{FieldbusConfig, FieldbusTransport};
use crate::io_bridge::hardware_abstraction::{HardwareAbstraction, COMMAND_BUF};
use crate::io_bridge::watchdog_timer::HardWatchdog;
use crate::io_bridge::wire::{decoded_all, shorter};
use crate::network_hook::message::{
    law_payload_reads_back, numbers_payload, payload_bytes, status_topic_of, telemetry_topic,
    telemetry_topic_of, Message, Sent,
};
use crate::numeric::binary32::{number_zero, Binary32};
use vstd::prelude::*;
use vstd::slice::*;

verus! {

/// What happens on the connections.
#[derive(Debug)]
pub enum LinkEvent {
    /// The fieldbus could not be opened.
    OpenFailed,
    /// The fieldbus was opened.
    Opened,
    /// Bytes came in; none if the other end closed the connection.
    Received(Vec<u8>),
    /// Reading failed.
    ReceiveFailed,
    /// A command came in.
    Command(Vec<u8>),
    /// No more commands will come.
    CommandsEnded,
    /// The emergency stop was engaged or released.
    Estop(Vec<u8>),
    /// No more emergency stops will come.
    EstopEnded,
}

/// What is to be done.
#[derive(Debug)]
pub enum LinkAction {
    /// Put telemetry on the bus; a failure is reported and passed over.
    Telemetry(Message),
    /// Put a status report on the bus; a failure ends the loop.
    Status(Message),
    /// Send bytes to the robot; a failure is reported and passed over.
    Send(Vec<u8>),
    /// Wait for the given milliseconds, and open the fieldbus again.
    Reopen(u64),
}

/// What a `LinkAction` says.
#[verifier::ext_equal]
pub enum Deed {
    Telemetry(Sent),
    Status(Sent),
    Send(Seq<u8>),
    Reopen(u64),
}

impl View for LinkAction {
    type V = Deed;

    open spec fn view(&self) -> Deed {
        match self {
            LinkAction::Telemetry(m) => Deed::Telemetry(m@),
            LinkAction::Status(m) => Deed::Status(m@),
            LinkAction::Send(b) => Deed::Send(b@),
            LinkAction::Reopen(ms) => Deed::Reopen(*ms),
        }
    }
}

/// What some actions say.
pub open spec fn deeds(actions: Seq<LinkAction>) -> Seq<Deed> {
    Seq::new(actions.len(), |i: int| actions[i]@)
}

/// The complete messages at the beginning of the bytes received.
pub open spec fn messages(a: Adapter, acc: Seq<u8>, joint_count: nat) -> Seq<Telemetry>
    decreases acc.len(),
{
    match a.telemetry(acc, joint_count) {
        None => Seq::empty(),
        Some(t) => if 0 < t.consumed <= acc.len() {
            seq![t] + messages(a, acc.skip(t.consumed as int), joint_count)
        } else {
            Seq::empty()
        },
    }
}

/// The bytes behind the complete messages.
pub open spec fn leftover(a: Adapter, acc: Seq<u8>, joint_count: nat) -> Seq<u8>
    decreases acc.len(),
{
    match a.telemetry(acc, joint_count) {
        None => acc,
        Some(t) => if 0 < t.consumed <= acc.len() {
            leftover(a, acc.skip(t.consumed as int), joint_count)
        } else {
            acc
        },
    }
}

/// Whether a payload engages the emergency stop.
pub open spec fn engages(payload: Seq<u8>) -> bool {
    payload.len() > 0 && payload[0] != 0
}

/// The numbers of a command payload, at most `MAX_JOINTS`.
pub open spec fn command_values(payload: Seq<u8>) -> Seq<Binary32> {
    decoded_all(payload).take(shorter(payload.len() / 4, MAX_JOINTS as nat) as int)
}

/// State of the loop.
pub struct FieldbusLoop {
    pub hardware: HardwareAbstraction,
    pub estop_active: bool,
    /// Messages received since the fieldbus was opened.
    pub frames: u64,
    /// Bytes received that do not make a complete message yet.
    pub acc: Vec<u8>,
}

impl FieldbusLoop {
    pub fn new(config: FieldbusConfig) -> (l: FieldbusLoop)
        ensures
            l.hardware.config == config,
            !l.estop_active,
            l.frames == 0,
            l.acc@.len() == 0,
            l.hardware.made_for(config),
    {
        FieldbusLoop {
            hardware: HardwareAbstraction::new(config),
            estop_active: false,
            frames: 0,
            acc: Vec::new(),
        }
    }

    pub open spec fn codec(self) -> Adapter {
        self.hardware.adapter
    }

    pub open spec fn joints(self) -> nat {
        self.hardware.config.joint_count as nat
    }

    /// The telemetry put on the bus for a message.
    pub open spec fn telemetry_deed(self, t: Telemetry) -> Deed {
        Deed::Telemetry(
            Sent {
                topic: telemetry_topic_of(self.hardware.config.hardware_id@),
                payload: payload_bytes(t.values, t.active),
            },
        )
    }

    /// The telemetry put on the bus for some messages.
    pub open spec fn telemetry_deeds(self, m: Seq<Telemetry>) -> Seq<Deed> {
        Seq::new(m.len(), |i: int| self.telemetry_deed(m[i]))
    }

    /// What is done when the connection is lost.
    pub open spec fn closing(self) -> Seq<Deed> {
        seq![
            Deed::Status(self.hardware.status(false, self.frames, self.estop_active)),
            Deed::Reopen(self.hardware.config.reconnect_delay_ms),
        ]
    }

    /// What is done for an event.
    pub open spec fn response(self, event: LinkEvent) -> Seq<Deed> {
        match event {
            LinkEvent::OpenFailed => {
                let estop = self.estop_active && !(self.hardware.config.transport is Serial);
                seq![
                    Deed::Status(self.hardware.status(false, 0, estop)),
                    Deed::Reopen(self.hardware.config.reconnect_delay_ms),
                ]
            },
            LinkEvent::Opened => seq![
                Deed::Status(self.hardware.status(true, 0, self.estop_active)),
            ],
            LinkEvent::Received(b) => if b@.len() == 0 {
                self.closing()
            } else {
                self.telemetry_deeds(messages(self.codec(), self.acc@ + b@, self.joints()))
            },
            LinkEvent::Command(b) => if self.estop_active || b@.len() == 0 {
                Seq::empty()
            } else {
                seq![
                    Deed::Send(
                        self.codec().encoding(
                            self.hardware.drive_values(command_values(b@)),
                            COMMAND_BUF as nat,
                        ),
                    ),
                ]
            },
            LinkEvent::Estop(b) => if engages(b@) == self.estop_active {
                Seq::empty()
            } else if engages(b@) {
                seq![
                    Deed::Send(
                        self.codec().encoding(zero_values(self.joints()), COMMAND_BUF as nat),
                    ),
                    Deed::Status(self.hardware.status(true, self.frames, true)),
                ]
            } else {
                seq![Deed::Status(self.hardware.status(true, self.frames, false))]
            },
            LinkEvent::ReceiveFailed | LinkEvent::CommandsEnded | LinkEvent::EstopEnded =>
                self.closing(),
        }
    }

    /// The event can be handled: a command finds limits that can be kept, and the
    /// messages can be counted.
    pub open spec fn accepts(self, event: LinkEvent) -> bool {
        match event {
            LinkEvent::Received(b) => b@.len() > 0 ==> self.frames + messages(
                self.codec(),
                self.acc@ + b@,
                self.joints(),
            ).len() <= u64::MAX,
            LinkEvent::Command(b) => !self.estop_active && b@.len() > 0 ==> self.hardware.ready(
                command_values(b@).len(),
            ),
            _ => true,
        }
    }

    /// How the state changes with an event.
    pub open spec fn follows(self, event: LinkEvent, next: FieldbusLoop) -> bool {
        match event {
            LinkEvent::Opened => {
                &&& next.hardware == self.hardware
                &&& next.estop_active == self.estop_active
                &&& next.frames == 0
                &&& next.acc@.len() == 0
            },
            LinkEvent::Received(b) => {
                &&& next.hardware == self.hardware
                &&& next.estop_active == self.estop_active
                &&& if b@.len() == 0 {
                    next.frames == self.frames && next.acc@ == self.acc@
                } else {
                    let all = self.acc@ + b@;
                    &&& next.frames == self.frames + messages(
                        self.codec(),
                        all,
                        self.joints(),
                    ).len()
                    &&& next.acc@ == leftover(self.codec(), all, self.joints())
                }
            },
            LinkEvent::Command(b) => {
                &&& next.estop_active == self.estop_active
                &&& next.frames == self.frames
                &&& next.acc@ == self.acc@
                &&& if self.estop_active || b@.len() == 0 {
                    next.hardware == self.hardware
                } else {
                    self.hardware.advanced(next.hardware, command_values(b@))
                }
            },
            LinkEvent::Estop(b) => {
                &&& next.hardware == self.hardware
                &&& next.estop_active == engages(b@)
                &&& next.frames == self.frames
                &&& next.acc@ == self.acc@
            },
            _ => next == self,
        }
    }

    /// Handles an event: changes the state and returns the actions to perform.
    pub fn step(&mut self, event: LinkEvent) -> (actions: Vec<LinkAction>)
        requires
            old(self).accepts(event),
        ensures
            deeds(actions@) == old(self).response(event),
            old(self).follows(event, *final(self)),
    {
        let ghost before = *self;
        let mut actions: Vec<LinkAction> = Vec::new();
        match event {
            LinkEvent::OpenFailed => {
                let serial: bool = match &self.hardware.config.transport {
                    FieldbusTransport::Serial { .. } => true,
                    _ => false,
                };
                let estop: bool = self.estop_active && !serial;
                let status: Message = self.hardware.status_message(false, 0, estop);
                actions.push(LinkAction::Status(status));
                actions.push(LinkAction::Reopen(self.hardware.config.reconnect_delay_ms));
            },
            LinkEvent::Opened => {
                self.acc = Vec::new();
                self.frames = 0;
                let status: Message = self.hardware.status_message(true, 0, self.estop_active);
                actions.push(LinkAction::Status(status));
            },
            LinkEvent::Received(b) => {
                if b.len() == 0 {
                    actions = self.close();
                } else {
                    extend(&mut self.acc, &b);
                    actions = self.drain_frames();
                }
            },
            LinkEvent::Command(b) => {
                if !self.estop_active && b.len() > 0 {
                    let command: CommandVector = CommandVector::from_bytes(b.as_slice());
                    assert(command@ =~= command_values(b@));
                    let safe: CommandVector = self.hardware.clamp_command(command);
                    actions.push(LinkAction::Send(self.encode(&safe)));
                }
            },
            LinkEvent::Estop(b) => {
                let active: bool = b.len() > 0 && b[0] != 0;
                if active != self.estop_active {
                    self.estop_active = active;
                    if active {
                        actions.push(LinkAction::Send(self.encode_stop()));
                    }
                    let status: Message = self.hardware.status_message(true, self.frames, active);
                    actions.push(LinkAction::Status(status));
                }
            },
            LinkEvent::ReceiveFailed => {
                actions = self.close();
            },
            LinkEvent::CommandsEnded => {
                actions = self.close();
            },
            LinkEvent::EstopEnded => {
                actions = self.close();
            },
        }
        assert(deeds(actions@) =~= before.response(event));
        actions
    }

    fn close(&self) -> (actions: Vec<LinkAction>)
        ensures
            deeds(actions@) == self.closing(),
    {
        let mut actions: Vec<LinkAction> = Vec::new();
        let status: Message = self.hardware.status_message(false, self.frames, self.estop_active);
        actions.push(LinkAction::Status(status));
        actions.push(LinkAction::Reopen(self.hardware.config.reconnect_delay_ms));
        assert(deeds(actions@) =~= self.closing());
        actions
    }

    /// Takes the complete messages out of the bytes received.
    fn drain_frames(&mut self) -> (actions: Vec<LinkAction>)
        requires
            old(self).frames + messages(
                old(self).codec(),
                old(self).acc@,
                old(self).joints(),
            ).len() <= u64::MAX,
        ensures
            deeds(actions@) == old(self).telemetry_deeds(
                messages(old(self).codec(), old(self).acc@, old(self).joints()),
            ),
            final(self).hardware == old(self).hardware,
            final(self).estop_active == old(self).estop_active,
            final(self).frames == old(self).frames + messages(
                old(self).codec(),
                old(self).acc@,
                old(self).joints(),
            ).len(),
            final(self).acc@ == leftover(old(self).codec(), old(self).acc@, old(self).joints()),
    {
        let ghost before = *self;
        let ghost all = messages(self.codec(), self.acc@, self.joints());
        let ghost mut done: Seq<Telemetry> = Seq::empty();
        let mut actions: Vec<LinkAction> = Vec::new();
        let mut start: usize = 0;
        proof {
            assert(self.acc@.skip(0) =~= self.acc@);
            assert(all =~= done + all);
            assert(deeds(actions@) =~= before.telemetry_deeds(done));
        }
        loop
            invariant
                self.hardware == before.hardware,
                self.estop_active == before.estop_active,
                self.acc == before.acc,
                start <= self.acc@.len(),
                self.frames == before.frames + done.len(),
                before.frames + all.len() <= u64::MAX,
                deeds(actions@) == before.telemetry_deeds(done),
                all == messages(before.codec(), before.acc@, before.joints()),
                all == done + messages(
                    before.codec(),
                    before.acc@.skip(start as int),
                    before.joints(),
                ),
                leftover(before.codec(), before.acc@, before.joints()) == leftover(
                    before.codec(),
                    before.acc@.skip(start as int),
                    before.joints(),
                ),
            ensures
                self.hardware == before.hardware,
                self.estop_active == before.estop_active,
                self.acc == before.acc,
                start <= self.acc@.len(),
                self.frames == before.frames + done.len(),
                deeds(actions@) == before.telemetry_deeds(done),
                all == done,
                leftover(before.codec(), before.acc@, before.joints()) == before.acc@.skip(
                    start as int,
                ),
            decreases self.acc@.len() - start,
        {
            let rest: &[u8] = slice_subrange(self.acc.as_slice(), start, self.acc.len());
            assert(rest@ =~= self.acc@.skip(start as int));
            match self.hardware.adapter.decode_telemetry(rest, self.hardware.config.joint_count) {
                None => {
                    proof {
                        assert(done + Seq::<Telemetry>::empty() =~= done);
                    }
                    break;
                },
                Some((consumed, values, n)) => {
                    let ghost t = Telemetry {
                        consumed: consumed as nat,
                        values: values@,
                        active: n as nat,
                    };
                    let ghost earlier = actions@;
                    let payload: Vec<u8> = numbers_payload(&values, n);
                    let topic: String = telemetry_topic(&self.hardware.config.hardware_id);
                    actions.push(LinkAction::Telemetry(Message { topic, payload }));
                    proof {
                        let tail = messages(
                            before.codec(),
                            before.acc@.skip(start + consumed),
                            before.joints(),
                        );
                        assert(rest@.skip(consumed as int) =~= before.acc@.skip(start + consumed));
                        assert(all =~= done.push(t) + tail);
                        assert(all.len() == done.len() + 1 + tail.len());
                        assert(actions@.last()@ == before.telemetry_deed(t));
                        assert forall|i: int| 0 <= i < earlier.len() implies #[trigger] deeds(
                            actions@,
                        )[i] == before.telemetry_deeds(done)[i] by {
                            assert(deeds(earlier)[i] == before.telemetry_deeds(done)[i]);
                        }
                        assert(earlier.len() == done.len()) by {
                            assert(deeds(earlier).len() == before.telemetry_deeds(done).len());
                        }
                        done = done.push(t);
                        assert(deeds(actions@) =~= before.telemetry_deeds(done));
                    }
                    self.frames = self.frames + 1;
                    start = start + consumed;
                },
            }
        }
        let rest: &[u8] = slice_subrange(self.acc.as_slice(), start, self.acc.len());
        let mut kept: Vec<u8> = Vec::new();
        extend_slice(&mut kept, rest);
        assert(kept@ =~= self.acc@.skip(start as int));
        self.acc = kept;
        actions
    }

    fn encode(&self, command: &CommandVector) -> (bytes: Vec<u8>)
        requires
            command.wf(),
        ensures
            bytes@ == self.codec().encoding(command@, COMMAND_BUF as nat),
    {
        let mut buf: [u8; 2048] = [0;2048];
        let n: usize = self.hardware.adapter.encode_command(command, &mut buf);
        let bytes: Vec<u8> = leading(&buf, n);
        assert(bytes@ =~= self.codec().encoding(command@, COMMAND_BUF as nat));
        bytes
    }

    fn encode_stop(&self) -> (bytes: Vec<u8>)
        ensures
            bytes@ == self.codec().encoding(zero_values(self.joints()), COMMAND_BUF as nat),
    {
        let mut buf: [u8; 2048] = [0;2048];
        let n: usize = self.hardware.adapter.encode_estop(
            self.hardware.config.joint_count,
            &mut buf,
        );
        let bytes: Vec<u8> = leading(&buf, n);
        assert(bytes@ =~= self.codec().encoding(zero_values(self.joints()), COMMAND_BUF as nat));
        bytes
    }
}

/// The first `n` bytes.
fn leading(b: &[u8; 2048], n: usize) -> (v: Vec<u8>)
    requires
        n <= 2048,
    ensures
        v@ == b@.take(n as int),
{
    let mut v: Vec<u8> = Vec::new();
    extend_slice(&mut v, slice_subrange(b.as_slice(), 0, n));
    assert(v@ =~= b@.take(n as int));
    v
}

fn extend_slice(v: &mut Vec<u8>, b: &[u8])
    ensures
        final(v)@ == old(v)@ + b@,
{
    let mut i: usize = 0;
    assert(v@ =~= old(v)@ + b@.take(0));
    while i < b.len()
        invariant
            i <= b@.len(),
            v@ == old(v)@ + b@.take(i as int),
        decreases b@.len() - i,
    {
        v.push(b[i]);
        i = i + 1;
        assert(v@ =~= old(v)@ + b@.take(i as int));
    }
    assert(b@.take(i as int) =~= b@);
}

fn extend(v: &mut Vec<u8>, b: &Vec<u8>)
    ensures
        final(v)@ == old(v)@ + b@,
{
    extend_slice(v, b.as_slice());
}

/// While the emergency stop is engaged, no command reaches the robot.
pub proof fn law_stopped_robot_gets_no_command(l: FieldbusLoop, event: LinkEvent, i: int)
    requires
        l.estop_active,
        !(event is Estop),
        0 <= i < l.response(event).len(),
    ensures
        !(l.response(event)[i] is Send),
{
}

/// A command that is put on the bus arrives with the values that it was made of.
pub proof fn law_published_command_arrives(values: Seq<Binary32>)
    requires
        values.len() <= MAX_JOINTS,
    ensures
        command_values(payload_bytes(values, values.len())) == values,
{
    law_payload_reads_back(values, values.len());
    assert(values.take(values.len() as int) =~= values);
}

/// The robot understands its watchdog: what the watchdog sends to latch the emergency
/// stop engages it, what it sends to release the latch does not, and its command is zero
/// for every joint.
pub proof fn law_watchdog_is_understood(w: HardWatchdog)
    ensures
        engages(w.latch(true).payload),
        !engages(w.latch(false).payload),
        command_values(w.zeros().payload) == zero_values(w.joint_count as nat),
{
    let b = w.zeros().payload;
    assert forall|i: int| 0 <= i < b.len() / 4 implies #[trigger] decoded_all(b)[i]
        == number_zero() by {
        let part = b.subrange(4 * i, 4 * i + 4);
        assert(part[0] == 0 && part[1] == 0 && part[2] == 0 && part[3] == 0);
    }
    assert(command_values(b) =~= zero_values(w.joint_count as nat));
}

/// Engaging the emergency stop commands zero to every joint, at once and once.
pub proof fn law_estop_commands_zeros(l: FieldbusLoop, payload: Vec<u8>)
    requires
        !l.estop_active,
        engages(payload@),
    ensures
        l.response(LinkEvent::Estop(payload))[0] == Deed::Send(
            l.codec().encoding(zero_values(l.joints()), COMMAND_BUF as nat),
        ),
        forall|next: FieldbusLoop|
            l.follows(LinkEvent::Estop(payload), next) ==> next.estop_active
                && #[trigger] next.response(
                LinkEvent::Estop(payload),
            ).len() == 0,
{
}

/// What is left over holds no complete message.
pub proof fn law_leftover_holds_no_message(a: Adapter, acc: Seq<u8>, joint_count: nat)
    ensures
        a.telemetry(leftover(a, acc, joint_count), joint_count) is None,
    decreases acc.len(),
{
    law_message_is_consumed(a, acc, joint_count);
    match a.telemetry(acc, joint_count) {
        None => {},
        Some(t) => {
            law_leftover_holds_no_message(a, acc.skip(t.consumed as int), joint_count);
        },
    }
}

/// It does not matter in which pieces the bytes come in: the messages, and what is
/// left over, are those of all bytes together.
pub proof fn law_pieces_do_not_matter(a: Adapter, acc: Seq<u8>, more: Seq<u8>, joint_count: nat)
    ensures
        messages(a, acc + more, joint_count) == messages(a, acc, joint_count) + messages(
            a,
            leftover(a, acc, joint_count) + more,
            joint_count,
        ),
        leftover(a, acc + more, joint_count) == leftover(
            a,
            leftover(a, acc, joint_count) + more,
            joint_count,
        ),
    decreases acc.len(),
{
    law_message_is_consumed(a, acc, joint_count);
    match a.telemetry(acc, joint_count) {
        None => {
            assert(messages(a, acc, joint_count) + messages(a, acc + more, joint_count)
                =~= messages(a, acc + more, joint_count));
        },
        Some(t) => {
            let rest = acc.skip(t.consumed as int);
            law_later_bytes_do_not_matter(a, acc, more, joint_count);
            law_pieces_do_not_matter(a, rest, more, joint_count);
            assert((acc + more).skip(t.consumed as int) =~= rest + more);
            assert(messages(a, acc + more, joint_count) =~= messages(a, acc, joint_count)
                + messages(a, leftover(a, acc, joint_count) + more, joint_count));
        },
    }
}

/// Each message that comes in is put on the bus, in the order in which they came, with the
/// values that it holds; and each is counted.
pub proof fn law_messages_are_published(l: FieldbusLoop, b: Vec<u8>, next: FieldbusLoop, i: int)
    requires
        b@.len() > 0,
        l.follows(LinkEvent::Received(b), next),
        0 <= i < messages(l.codec(), l.acc@ + b@, l.joints()).len(),
    ensures
        ({
            let m = messages(l.codec(), l.acc@ + b@, l.joints());
            let r = l.response(LinkEvent::Received(b));
            let n = shorter(m[i].active, MAX_JOINTS as nat);
            &&& r.len() == m.len()
            &&& next.frames == l.frames + r.len()
            &&& r[i] matches Deed::Telemetry(sent) && sent.topic == telemetry_topic_of(
                l.hardware.config.hardware_id@,
            ) && (m[i].active <= m[i].values.len() ==> decoded_all(sent.payload)
                == m[i].values.take(n as int))
        }),
{
    let t = messages(l.codec(), l.acc@ + b@, l.joints())[i];
    if t.active <= t.values.len() {
        law_payload_reads_back(t.values, t.active);
    }
}

/// A robot that speaks the generic format reads from a command on the bus what its drives are
/// to receive, joint by joint.
pub proof fn law_command_reaches_the_drives(
    l: FieldbusLoop,
    values: Seq<Binary32>,
    payload: Vec<u8>,
)
    requires
        l.codec() is Generic || l.codec() is Amr,
        !l.estop_active,
        0 < values.len() <= MAX_JOINTS,
        payload@ == payload_bytes(values, values.len()),
    ensures
        ({
            let r = l.response(LinkEvent::Command(payload));
            &&& r.len() == 1
            &&& r[0] matches Deed::Send(bytes) && (l.codec().telemetry(bytes, values.len())
                matches Some(t) && t.active == values.len() && (forall|i: int|
                0 <= i < values.len() ==> #[trigger] t.values[i] == l.hardware.drive_value(
                    i,
                    values[i],
                )))
        }),
{
    law_published_command_arrives(values);
    let drives = l.hardware.drive_values(values);
    law_fixed_round_trip(l.codec(), drives, COMMAND_BUF as nat);
    assert(payload@.len() == 4 * values.len());
}

/// Whatever ends a connection, the robot is reported offline, and the connection is opened
/// again after the delay of the configuration; nothing is sent meanwhile.
pub proof fn law_lost_link_is_reopened(l: FieldbusLoop, event: LinkEvent)
    requires
        event is OpenFailed || event is ReceiveFailed || event is CommandsEnded || event
            is EstopEnded || (event matches LinkEvent::Received(b) && b@.len() == 0),
    ensures
        ({
            let r = l.response(event);
            &&& r.len() == 2
            &&& r[0] matches Deed::Status(sent) && sent.topic == status_topic_of(
                l.hardware.config.hardware_id@,
            ) && (exists|frames: u64, estop: bool|
                sent == #[trigger] l.hardware.status(false, frames, estop))
            &&& r[1] == Deed::Reopen(l.hardware.config.reconnect_delay_ms)
        }),
{
    let r = l.response(event);
    let estop = l.estop_active && !(l.hardware.config.transport is Serial);
    if event is OpenFailed {
        assert(r[0] == Deed::Status(l.hardware.status(false, 0, estop)));
    } else {
        assert(r[0] == Deed::Status(l.hardware.status(false, l.frames, l.estop_active)));
    }
}

/// The emergency stop is engaged by a first byte other than 0, whatever follows it, and
/// released by a 0 or by nothing.
pub proof fn law_first_byte_engages(b: u8, more: Seq<u8>)
    ensures
        engages(seq![b] + more) <==> b != 0,
        !engages(Seq::empty()),
{
}

} // verus!
