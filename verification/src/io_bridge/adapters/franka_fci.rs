//! Franka Emika over FCI (Franka Control Interface), UDP port 30401.
//!
//! Telemetry, behind its length in four big-endian bytes: the time, then seven joint
//! positions as double precision numbers. A command takes 192 bytes: the frame type 1
//! in the four little-endian bytes from position 6 on, seven joint positions as single
//! precision numbers from position 22 on, and zeros elsewhere.

use crate::io_bridge::adapters::framing::{cut_to_room, decode_prefixed, prefixed_telemetry};
use crate::io_bridge::adapters::{BrandAdapter, FrameStrategy, Framing, Telemetry};
use crate::io_bridge::command_vector::{CommandVector, MAX_JOINTS};
use crate::io_bridge::robot_brand::RobotBrand;
use crate::numeric::binary32::{decoded, law_bytes_round_trip, Binary32};
use vstd::prelude::*;

verus! {

pub const FCI_JOINTS: usize = 7;

pub const FCI_Q_BODY_OFFSET: usize = 8;

pub const FCI_CMD_TOTAL: usize = 192;

/// Position of the first joint in a command.
pub const FCI_CMD_JOINTS: usize = 22;

/// Position of the frame type in a command.
pub const FCI_CMD_TYPE: usize = 6;

/// Codec of the Franka Emika robots.
pub struct FrankaFci;

/// The bytes of a command.
pub open spec fn fci_command(values: Seq<Binary32>) -> Seq<u8> {
    Seq::new(
        FCI_CMD_TOTAL as nat,
        |i: int|
            {
                let joint = (i - FCI_CMD_JOINTS) / 4;
                if i == FCI_CMD_TYPE {
                    1u8
                } else if FCI_CMD_JOINTS <= i && joint < FCI_JOINTS && joint < values.len() {
                    values[joint].encoded()[(i - FCI_CMD_JOINTS) % 4]
                } else {
                    0u8
                }
            },
    )
}

impl BrandAdapter for FrankaFci {
    open spec fn brand_is(&self) -> RobotBrand {
        RobotBrand::FrankaEmika
    }

    open spec fn protocol_text(&self) -> Seq<char> {
        "FCI (UDP 30401)"@
    }

    open spec fn framing(&self) -> Framing {
        Framing::LengthPrefixed { header_bytes: 4 }
    }

    open spec fn telemetry(&self, acc: Seq<u8>, joint_count: nat) -> Option<Telemetry> {
        prefixed_telemetry(acc, joint_count, FCI_JOINTS as nat, FCI_Q_BODY_OFFSET as nat)
    }

    open spec fn encoding(&self, values: Seq<Binary32>, room: nat) -> Seq<u8> {
        cut_to_room(fci_command(values), room)
    }

    open spec fn hint(&self) -> nat {
        2048
    }

    fn brand(&self) -> (b: RobotBrand) {
        RobotBrand::FrankaEmika
    }

    fn protocol_label(&self) -> (s: &'static str) {
        "FCI (UDP 30401)"
    }

    fn frame_strategy(&self) -> (f: FrameStrategy) {
        FrameStrategy::LengthPrefixed { header_bytes: 4 }
    }

    fn decode_telemetry(&self, acc: &[u8], joint_count: usize) -> (r: Option<
        (usize, [Binary32; MAX_JOINTS], usize),
    >) {
        decode_prefixed(acc, joint_count, FCI_JOINTS, FCI_Q_BODY_OFFSET)
    }

    fn encode_command(&self, command: &CommandVector, out: &mut [u8]) -> (written: usize) {
        let n: usize = if FCI_CMD_TOTAL < out.len() {
            FCI_CMD_TOTAL
        } else {
            out.len()
        };
        let ghost before = out@;
        let mut i: usize = 0;
        while i < n
            invariant
                i <= n <= FCI_CMD_TOTAL,
                n <= out@.len(),
                out@.len() == before.len(),
                command.wf(),
                forall|j: int| 0 <= j < i ==> #[trigger] out@[j] == fci_command(command@)[j],
                forall|j: int| i <= j < out@.len() ==> #[trigger] out@[j] == before[j],
            decreases n - i,
        {
            out[i] =
            if i == FCI_CMD_TYPE {
                1
            } else if i >= FCI_CMD_JOINTS && (i - FCI_CMD_JOINTS) / 4 < FCI_JOINTS && (i
                - FCI_CMD_JOINTS) / 4 < command.len {
                let joint: usize = (i - FCI_CMD_JOINTS) / 4;
                let bytes: [u8; 4] = command.target_actuators[joint].to_le_bytes();
                bytes[(i - FCI_CMD_JOINTS) % 4]
            } else {
                0
            };
            i = i + 1;
        }
        assert(out@ =~= cut_to_room(fci_command(command@), before.len()) + before.skip(n as int));
        n
    }

    fn buffer_hint(&self) -> (n: usize) {
        2048
    }
}

/// A command takes 192 bytes. The four bytes from position `22 + 4 k` on read back as the
/// value of joint `k`, for each of the first seven joints.
pub proof fn law_command_reads_back(values: Seq<Binary32>, room: nat, k: int)
    requires
        room >= 192,
        0 <= k < 7,
        k < values.len(),
    ensures
        FrankaFci.encoding(values, room).len() == 192,
        decoded(FrankaFci.encoding(values, room).subrange(22 + 4 * k, 26 + 4 * k)) == values[k],
{
    let bytes = FrankaFci.encoding(values, room);
    assert(bytes =~= fci_command(values));
    let part = bytes.subrange(22 + 4 * k, 26 + 4 * k);
    assert forall|i: int| 0 <= i < 4 implies #[trigger] part[i] == values[k].encoded()[i] by {
        assert((22 + 4 * k + i - 22) / 4 == k);
        assert((22 + 4 * k + i - 22) % 4 == i);
    }
    assert(part =~= values[k].encoded());
    law_bytes_round_trip(values[k]);
}

/// Commands that differ in one of the first seven joints have different encodings.
pub proof fn law_commands_are_told_apart(
    a: Seq<Binary32>,
    b: Seq<Binary32>,
    room: nat,
    k: int,
)
    requires
        room >= 192,
        0 <= k < 7,
        k < a.len(),
        k < b.len(),
        a[k] != b[k],
    ensures
        FrankaFci.encoding(a, room) != FrankaFci.encoding(b, room),
{
    law_command_reads_back(a, room, k);
    law_command_reads_back(b, room, k);
}

/// Outside the joints a command holds the frame type 1, as a little-endian number at
/// position 6, and zeros.
pub proof fn law_command_frame(values: Seq<Binary32>, room: nat, i: int)
    requires
        room >= 192,
        0 <= i < 22 || 22 + 4 * values.len() <= i < 192 || 50 <= i < 192,
    ensures
        FrankaFci.encoding(values, room)[i] == if i == 6 {
            1u8
        } else {
            0u8
        },
{
    assert(FrankaFci.encoding(values, room) =~= fci_command(values));
    if i >= 50 {
        assert((i - 22) / 4 >= 7);
    } else if i >= 22 {
        assert((i - 22) / 4 >= values.len());
    }
}

} // verus!
