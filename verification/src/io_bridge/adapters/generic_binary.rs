//! The native format of the vectors: four bytes per joint.

use crate::io_bridge::adapters::framing::{decode_fixed, fixed_telemetry};
use crate::io_bridge::adapters::{BrandAdapter, FrameStrategy, Framing, Telemetry};
use crate::io_bridge::command_vector::{CommandVector, MAX_JOINTS};
use crate::io_bridge::robot_brand::RobotBrand;
use crate::io_bridge::wire::{encoded_all, shorter};
use crate::numeric::binary32::Binary32;
use vstd::prelude::*;

verus! {

/// Generic binary codec: one parser on the microcontroller for telemetry and
/// commands.
pub struct GenericBinary;

/// The numbers, as far as they fit as a whole into `room` bytes.
pub open spec fn fixed_encoding(values: Seq<Binary32>, room: nat) -> Seq<u8> {
    encoded_all(values.take(shorter(values.len(), room / 4) as int))
}

/// Writes the numbers of a command, as far as they fit.
pub fn encode_fixed(command: &CommandVector, out: &mut [u8]) -> (written: usize)
    requires
        command.wf(),
    ensures
        written == fixed_encoding(command@, old(out)@.len()).len(),
        written <= old(out)@.len(),
        final(out)@ == fixed_encoding(command@, old(out)@.len()) + old(out)@.skip(written as int),
{
    let written: usize = command.write_to(out);
    assert(command@.take(written as int / 4) =~= command.entries().take(written as int / 4));
    written
}

impl BrandAdapter for GenericBinary {
    open spec fn brand_is(&self) -> RobotBrand {
        RobotBrand::Generic
    }

    open spec fn protocol_text(&self) -> Seq<char> {
        "Fixed f32 LE"@
    }

    open spec fn framing(&self) -> Framing {
        Framing::Fixed { bytes_per_joint: 4 }
    }

    open spec fn telemetry(&self, acc: Seq<u8>, joint_count: nat) -> Option<Telemetry> {
        fixed_telemetry(acc, joint_count)
    }

    open spec fn encoding(&self, values: Seq<Binary32>, room: nat) -> Seq<u8> {
        fixed_encoding(values, room)
    }

    open spec fn hint(&self) -> nat {
        1024
    }

    fn brand(&self) -> (b: RobotBrand) {
        RobotBrand::Generic
    }

    fn protocol_label(&self) -> (s: &'static str) {
        "Fixed f32 LE"
    }

    fn frame_strategy(&self) -> (f: FrameStrategy) {
        FrameStrategy::Fixed { bytes_per_joint: 4 }
    }

    fn decode_telemetry(&self, acc: &[u8], joint_count: usize) -> (r: Option<
        (usize, [Binary32; MAX_JOINTS], usize),
    >) {
        decode_fixed(acc, joint_count)
    }

    fn encode_command(&self, command: &CommandVector, out: &mut [u8]) -> (written: usize) {
        encode_fixed(command, out)
    }

    fn buffer_hint(&self) -> (n: usize) {
        1024
    }
}

} // verus!
