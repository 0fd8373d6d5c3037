//! Topics and payloads.

use crate::io_bridge::state_vector::StateVector;
use crate::io_bridge::command_vector::{CommandVector, MAX_JOINTS};
use crate::io_bridge::wire::{
    decoded_all, encoded_all, law_numbers_round_trip, shorter, write_numbers,
};
use crate::numeric::binary32::Binary32;
use vstd::prelude::*;
use vstd::string::*;

verus! {

/// A payload for a topic of the bus.
#[derive(Debug)]
pub struct Message {
    pub topic: String,
    pub payload: Vec<u8>,
}

/// What a `Message` says.
#[verifier::ext_equal]
pub struct Sent {
    pub topic: Seq<char>,
    pub payload: Seq<u8>,
}

impl View for Message {
    type V = Sent;

    open spec fn view(&self) -> Sent {
        Sent { topic: self.topic@, payload: self.payload@ }
    }
}

/// `prefix`, the hardware's name, and `suffix`.
pub open spec fn topic_of(prefix: &str, hardware_id: Seq<char>, suffix: &str) -> Seq<char> {
    prefix@ + hardware_id + suffix@
}

/// Where the commands for a robot go.
pub open spec fn command_topic_of(hardware_id: Seq<char>) -> Seq<char> {
    topic_of("alpha/cmd/", hardware_id, "")
}

/// Where the emergency stop of a robot is engaged and released.
pub open spec fn estop_topic_of(hardware_id: Seq<char>) -> Seq<char> {
    topic_of("alpha/cmd/", hardware_id, "/estop")
}

/// Where the telemetry of a robot goes.
pub open spec fn telemetry_topic_of(hardware_id: Seq<char>) -> Seq<char> {
    topic_of("alpha/telemetry/", hardware_id, "")
}

/// Where the status of a robot goes.
pub open spec fn status_topic_of(hardware_id: Seq<char>) -> Seq<char> {
    topic_of("alpha/status/", hardware_id, "")
}

/// Where the status of the watchdog of a robot goes.
pub open spec fn watchdog_topic_of(hardware_id: Seq<char>) -> Seq<char> {
    topic_of("alpha/watchdog/status/", hardware_id, "")
}

/// Where the states go that a robot reports to its controller.
pub open spec fn brain_topic_of(hardware_id: Seq<char>) -> Seq<char> {
    topic_of("alpha/brain/", hardware_id, "/input")
}

fn topic(prefix: &str, hardware_id: &str, suffix: &str) -> (t: String)
    ensures
        t@ == topic_of(prefix, hardware_id@, suffix),
{
    let mut t: String = prefix.to_string();
    t.append(hardware_id);
    t.append(suffix);
    t
}

pub fn command_topic(hardware_id: &str) -> (t: String)
    ensures
        t@ == command_topic_of(hardware_id@),
{
    topic("alpha/cmd/", hardware_id, "")
}

pub fn estop_topic(hardware_id: &str) -> (t: String)
    ensures
        t@ == estop_topic_of(hardware_id@),
{
    topic("alpha/cmd/", hardware_id, "/estop")
}

pub fn telemetry_topic(hardware_id: &str) -> (t: String)
    ensures
        t@ == telemetry_topic_of(hardware_id@),
{
    topic("alpha/telemetry/", hardware_id, "")
}

pub fn status_topic(hardware_id: &str) -> (t: String)
    ensures
        t@ == status_topic_of(hardware_id@),
{
    topic("alpha/status/", hardware_id, "")
}

pub fn watchdog_topic(hardware_id: &str) -> (t: String)
    ensures
        t@ == watchdog_topic_of(hardware_id@),
{
    topic("alpha/watchdog/status/", hardware_id, "")
}

pub fn brain_topic(hardware_id: &str) -> (t: String)
    ensures
        t@ == brain_topic_of(hardware_id@),
{
    topic("alpha/brain/", hardware_id, "/input")
}

/// The bytes of the entries in use, at most `MAX_JOINTS` of them.
pub open spec fn payload_bytes(entries: Seq<Binary32>, len: nat) -> Seq<u8> {
    encoded_all(entries.take(shorter(len, MAX_JOINTS as nat) as int))
}

/// The first `n` bytes.
fn leading(b: &[u8; 128], n: usize) -> (v: Vec<u8>)
    requires
        n <= 128,
    ensures
        v@ == b@.take(n as int),
{
    let mut v: Vec<u8> = Vec::new();
    let mut i: usize = 0;
    while i < n
        invariant
            i <= n <= 128,
            v@ == b@.take(i as int),
        decreases n - i,
    {
        v.push(b[i]);
        i = i + 1;
        assert(v@ =~= b@.take(i as int));
    }
    v
}

/// The bytes of the first `len` numbers, at most `MAX_JOINTS` of them.
pub fn numbers_payload(values: &[Binary32; MAX_JOINTS], len: usize) -> (v: Vec<u8>)
    ensures
        v@ == payload_bytes(values@, len as nat),
{
    let mut buf: [u8; 128] = [0;128];
    let n: usize = write_numbers(values, len, &mut buf);
    let v: Vec<u8> = leading(&buf, n);
    assert(v@ =~= payload_bytes(values@, len as nat));
    v
}

/// The bytes of a state.
pub fn state_payload(state: &StateVector) -> (v: Vec<u8>)
    ensures
        v@ == payload_bytes(state.entries(), state.len as nat),
{
    numbers_payload(&state.values, state.len)
}

/// The bytes of a command.
pub fn command_payload(command: &CommandVector) -> (v: Vec<u8>)
    ensures
        v@ == payload_bytes(command.entries(), command.len as nat),
{
    numbers_payload(&command.target_actuators, command.len)
}

/// Reading a payload gives the entries back that were written.
pub proof fn law_payload_reads_back(entries: Seq<Binary32>, len: nat)
    requires
        len <= entries.len(),
    ensures
        decoded_all(payload_bytes(entries, len)) == entries.take(
            shorter(len, MAX_JOINTS as nat) as int,
        ),
{
    law_numbers_round_trip(entries.take(shorter(len, MAX_JOINTS as nat) as int));
}

/// Robots with different names have different topics, of each kind.
pub proof fn law_topics_name_the_robot(a: Seq<char>, b: Seq<char>)
    requires
        a != b,
    ensures
        command_topic_of(a) != command_topic_of(b),
        estop_topic_of(a) != estop_topic_of(b),
        telemetry_topic_of(a) != telemetry_topic_of(b),
        status_topic_of(a) != status_topic_of(b),
        watchdog_topic_of(a) != watchdog_topic_of(b),
        brain_topic_of(a) != brain_topic_of(b),
{
    lemma_topic_names("alpha/cmd/", a, b, "");
    lemma_topic_names("alpha/cmd/", a, b, "/estop");
    lemma_topic_names("alpha/telemetry/", a, b, "");
    lemma_topic_names("alpha/status/", a, b, "");
    lemma_topic_names("alpha/watchdog/status/", a, b, "");
    lemma_topic_names("alpha/brain/", a, b, "/input");
}

proof fn lemma_topic_names(prefix: &str, a: Seq<char>, b: Seq<char>, suffix: &str)
    requires
        a != b,
    ensures
        topic_of(prefix, a, suffix) != topic_of(prefix, b, suffix),
{
    let s = topic_of(prefix, a, suffix);
    let t = topic_of(prefix, b, suffix);
    let n = prefix@.len() as int;
    if s == t {
        assert(s.len() == n + a.len() + suffix@.len());
        assert(t.len() == n + b.len() + suffix@.len());
        assert(a =~= s.subrange(n, n + a.len()));
        assert(b =~= t.subrange(n, n + b.len()));
    }
}

/// The topics of commands, telemetry, status, watchdog and controller are told apart by how
/// they begin, whatever the robots are named. The emergency stop of a robot lies below its
/// commands.
pub proof fn law_topics_are_told_apart(a: Seq<char>, b: Seq<char>)
    ensures
        command_topic_of(a) != telemetry_topic_of(b),
        command_topic_of(a) != status_topic_of(b),
        command_topic_of(a) != watchdog_topic_of(b),
        command_topic_of(a) != brain_topic_of(b),
        telemetry_topic_of(a) != status_topic_of(b),
        telemetry_topic_of(a) != watchdog_topic_of(b),
        telemetry_topic_of(a) != brain_topic_of(b),
        status_topic_of(a) != watchdog_topic_of(b),
        status_topic_of(a) != brain_topic_of(b),
        watchdog_topic_of(a) != brain_topic_of(b),
        estop_topic_of(a) == command_topic_of(a) + "/estop"@,
        estop_topic_of(a) != command_topic_of(a),
{
    reveal_strlit("alpha/cmd/");
    reveal_strlit("alpha/telemetry/");
    reveal_strlit("alpha/status/");
    reveal_strlit("alpha/watchdog/status/");
    reveal_strlit("alpha/brain/");
    reveal_strlit("/estop");
    reveal_strlit("");
    assert(command_topic_of(a)[6] == 'c');
    assert(telemetry_topic_of(a)[6] == 't' && telemetry_topic_of(b)[6] == 't');
    assert(status_topic_of(a)[6] == 's' && status_topic_of(b)[6] == 's');
    assert(watchdog_topic_of(a)[6] == 'w' && watchdog_topic_of(b)[6] == 'w');
    assert(brain_topic_of(b)[6] == 'b');
    assert(estop_topic_of(a) =~= command_topic_of(a) + "/estop"@);
    assert(estop_topic_of(a).len() == command_topic_of(a).len() + 6);
}

} // verus!
