//! States reported to the controller.

use crate::io_bridge::state_vector::StateVector;
use crate::network_hook::message::{
    brain_topic, brain_topic_of, payload_bytes, state_payload, Message, Sent,
};
use vstd::prelude::*;

verus! {

/// The message that reports a state to the controller.
pub fn brain_message(state: &StateVector) -> (m: Message)
    ensures
        m@ == (Sent {
            topic: brain_topic_of(state.hardware_id@),
            payload: payload_bytes(state.entries(), state.len as nat),
        }),
{
    Message { topic: brain_topic(&state.hardware_id), payload: state_payload(state) }
}

} // verus!
