//! Telemetry put on the bus.

use crate::io_bridge::state_vector::StateVector;
use crate::network_hook::message::{
    payload_bytes, state_payload, telemetry_topic, telemetry_topic_of, Message, Sent,
};
use vstd::prelude::*;

verus! {

/// The message that puts a state on the bus as telemetry.
pub fn telemetry_message(state: &StateVector) -> (m: Message)
    ensures
        m@ == (Sent {
            topic: telemetry_topic_of(state.hardware_id@),
            payload: payload_bytes(state.entries(), state.len as nat),
        }),
{
    Message { topic: telemetry_topic(&state.hardware_id), payload: state_payload(state) }
}

} // verus!
