//! Native codecs of the robot brands.
//!
//! Each adapter turns the raw bytes of a brand's fieldbus into telemetry and a
//! command into the brand's native bytes. Only this codec differs between brands.

pub mod amr_ros2;
pub mod comau_pdl;
pub mod framing;
pub mod franka_fci;
pub mod generic_binary;
pub mod kuka_eth_krl;
pub mod kuka_frames;
pub mod laws;
pub mod universal_robots;

use crate::io_bridge::adapters::amr_ros2::AmrRos2;
use crate::io_bridge::adapters::comau_pdl::ComauPdl2;
use crate::io_bridge::adapters::franka_fci::FrankaFci;
use crate::io_bridge::adapters::generic_binary::GenericBinary;
use crate::io_bridge::adapters::kuka_eth_krl::KukaEthernetKrl;
use crate::io_bridge::adapters::universal_robots::UniversalRobots;
use crate::io_bridge::command_vector::{CommandVector, MAX_JOINTS};
use crate::io_bridge::robot_brand::RobotBrand;
use crate::io_bridge::wire::shorter;
use crate::numeric::binary32::{number_zero, Binary32};
use vstd::prelude::*;

verus! {

/// Framing of a native protocol.
#[derive(Debug, Clone, Copy, PartialEq, Eq)]
pub enum FrameStrategy {
    /// Frames of fixed size: `joint_count * bytes_per_joint`.
    Fixed { bytes_per_joint: usize },
    /// A big-endian length, followed by the payload.
    LengthPrefixed { header_bytes: usize },
    /// Messages that end in a given sequence of bytes.
    Delimited { terminator: &'static [u8] },
}

/// What a `FrameStrategy` says.
pub enum Framing {
    Fixed { bytes_per_joint: nat },
    LengthPrefixed { header_bytes: nat },
    Delimited { terminator: Seq<u8> },
}

impl View for FrameStrategy {
    type V = Framing;

    open spec fn view(&self) -> Framing {
        match self {
            FrameStrategy::Fixed { bytes_per_joint } => Framing::Fixed {
                bytes_per_joint: *bytes_per_joint as nat,
            },
            FrameStrategy::LengthPrefixed { header_bytes } => Framing::LengthPrefixed {
                header_bytes: *header_bytes as nat,
            },
            FrameStrategy::Delimited { terminator } => Framing::Delimited {
                terminator: terminator@,
            },
        }
    }
}

impl FrameStrategy {
    pub open spec fn label_text(self) -> Seq<char> {
        match self {
            FrameStrategy::Fixed { .. } => "FIXED"@,
            FrameStrategy::LengthPrefixed { .. } => "LENGTH-PREFIXED"@,
            FrameStrategy::Delimited { .. } => "DELIMITED"@,
        }
    }

    pub fn label(&self) -> (s: &'static str)
        ensures
            s@ == self.label_text(),
    {
        match self {
            FrameStrategy::Fixed { .. } => "FIXED",
            FrameStrategy::LengthPrefixed { .. } => "LENGTH-PREFIXED",
            FrameStrategy::Delimited { .. } => "DELIMITED",
        }
    }
}

/// A telemetry message: how many bytes it takes, the values and how many of them
/// are in use.
#[verifier::ext_equal]
pub struct Telemetry {
    pub consumed: nat,
    pub values: Seq<Binary32>,
    pub active: nat,
}

/// The telemetry that a decoder returned.
pub open spec fn returned(r: Option<(usize, [Binary32; MAX_JOINTS], usize)>) -> Option<Telemetry> {
    match r {
        None => None,
        Some(t) => Some(
            Telemetry { consumed: t.0 as nat, values: t.1@, active: t.2 as nat },
        ),
    }
}

/// `n` zeros, at most `MAX_JOINTS`.
pub open spec fn zero_values(n: nat) -> Seq<Binary32> {
    Seq::new(shorter(n, MAX_JOINTS as nat), |i: int| number_zero())
}

/// Native codec of a brand.
pub trait BrandAdapter: Send + Sync {
    spec fn brand_is(&self) -> RobotBrand;

    spec fn protocol_text(&self) -> Seq<char>;

    spec fn framing(&self) -> Framing;

    /// The telemetry message at the beginning of the bytes `acc`, if it is there.
    spec fn telemetry(&self, acc: Seq<u8>, joint_count: nat) -> Option<Telemetry>;

    /// The native bytes of a command, as far as they fit into `room` bytes.
    spec fn encoding(&self, values: Seq<Binary32>, room: nat) -> Seq<u8>;

    spec fn hint(&self) -> nat;

    fn brand(&self) -> (b: RobotBrand)
        ensures
            b == self.brand_is(),
    ;

    fn protocol_label(&self) -> (s: &'static str)
        ensures
            s@ == self.protocol_text(),
    ;

    fn frame_strategy(&self) -> (f: FrameStrategy)
        ensures
            f@ == self.framing(),
    ;

    /// Decodes one complete telemetry message from `acc`: the bytes consumed, the
    /// values and the number of active joints. `None` if more bytes are needed for a
    /// complete one.
    fn decode_telemetry(&self, acc: &[u8], joint_count: usize) -> (r: Option<
        (usize, [Binary32; MAX_JOINTS], usize),
    >)
        ensures
            returned(r) == self.telemetry(acc@, joint_count as nat),
            r is Some ==> 0 < (r->0).0 <= acc@.len(),
            r is Some ==> (r->0).2 <= MAX_JOINTS,
    ;

    /// Encodes a command into `out` and returns the number of bytes written.
    fn encode_command(&self, command: &CommandVector, out: &mut [u8]) -> (written: usize)
        requires
            command.wf(),
        ensures
            written == self.encoding(command@, old(out)@.len()).len(),
            written <= old(out)@.len(),
            final(out)@ == self.encoding(command@, old(out)@.len()) + old(out)@.skip(
                written as int,
            ),
    ;

    /// Encodes the emergency stop, which commands zero to every joint.
    fn encode_estop(&self, joint_count: usize, out: &mut [u8]) -> (written: usize)
        ensures
            written == self.encoding(zero_values(joint_count as nat), old(out)@.len()).len(),
            written <= old(out)@.len(),
            final(out)@ == self.encoding(zero_values(joint_count as nat), old(out)@.len())
                + old(out)@.skip(written as int),
    {
        let zeros: CommandVector = CommandVector::zeros(joint_count);
        assert(zeros@ =~= zero_values(joint_count as nat));
        self.encode_command(&zeros, out)
    }

    /// Suggested size of the receive buffer.
    fn buffer_hint(&self) -> (n: usize)
        ensures
            n == self.hint(),
    ;
}

/// The codec of some brand.
pub enum Adapter {
    Kuka(KukaEthernetKrl),
    Comau(ComauPdl2),
    UniversalRobots(UniversalRobots),
    FrankaEmika(FrankaFci),
    Amr(AmrRos2),
    Generic(GenericBinary),
}

impl BrandAdapter for Adapter {
    open spec fn brand_is(&self) -> RobotBrand {
        match self {
            Adapter::Kuka(a) => a.brand_is(),
            Adapter::Comau(a) => a.brand_is(),
            Adapter::UniversalRobots(a) => a.brand_is(),
            Adapter::FrankaEmika(a) => a.brand_is(),
            Adapter::Amr(a) => a.brand_is(),
            Adapter::Generic(a) => a.brand_is(),
        }
    }

    open spec fn protocol_text(&self) -> Seq<char> {
        match self {
            Adapter::Kuka(a) => a.protocol_text(),
            Adapter::Comau(a) => a.protocol_text(),
            Adapter::UniversalRobots(a) => a.protocol_text(),
            Adapter::FrankaEmika(a) => a.protocol_text(),
            Adapter::Amr(a) => a.protocol_text(),
            Adapter::Generic(a) => a.protocol_text(),
        }
    }

    open spec fn framing(&self) -> Framing {
        match self {
            Adapter::Kuka(a) => a.framing(),
            Adapter::Comau(a) => a.framing(),
            Adapter::UniversalRobots(a) => a.framing(),
            Adapter::FrankaEmika(a) => a.framing(),
            Adapter::Amr(a) => a.framing(),
            Adapter::Generic(a) => a.framing(),
        }
    }

    open spec fn telemetry(&self, acc: Seq<u8>, joint_count: nat) -> Option<Telemetry> {
        match self {
            Adapter::Kuka(a) => a.telemetry(acc, joint_count),
            Adapter::Comau(a) => a.telemetry(acc, joint_count),
            Adapter::UniversalRobots(a) => a.telemetry(acc, joint_count),
            Adapter::FrankaEmika(a) => a.telemetry(acc, joint_count),
            Adapter::Amr(a) => a.telemetry(acc, joint_count),
            Adapter::Generic(a) => a.telemetry(acc, joint_count),
        }
    }

    open spec fn encoding(&self, values: Seq<Binary32>, room: nat) -> Seq<u8> {
        match self {
            Adapter::Kuka(a) => a.encoding(values, room),
            Adapter::Comau(a) => a.encoding(values, room),
            Adapter::UniversalRobots(a) => a.encoding(values, room),
            Adapter::FrankaEmika(a) => a.encoding(values, room),
            Adapter::Amr(a) => a.encoding(values, room),
            Adapter::Generic(a) => a.encoding(values, room),
        }
    }

    open spec fn hint(&self) -> nat {
        match self {
            Adapter::Kuka(a) => a.hint(),
            Adapter::Comau(a) => a.hint(),
            Adapter::UniversalRobots(a) => a.hint(),
            Adapter::FrankaEmika(a) => a.hint(),
            Adapter::Amr(a) => a.hint(),
            Adapter::Generic(a) => a.hint(),
        }
    }

    fn brand(&self) -> (b: RobotBrand) {
        match self {
            Adapter::Kuka(a) => a.brand(),
            Adapter::Comau(a) => a.brand(),
            Adapter::UniversalRobots(a) => a.brand(),
            Adapter::FrankaEmika(a) => a.brand(),
            Adapter::Amr(a) => a.brand(),
            Adapter::Generic(a) => a.brand(),
        }
    }

    fn protocol_label(&self) -> (s: &'static str) {
        match self {
            Adapter::Kuka(a) => a.protocol_label(),
            Adapter::Comau(a) => a.protocol_label(),
            Adapter::UniversalRobots(a) => a.protocol_label(),
            Adapter::FrankaEmika(a) => a.protocol_label(),
            Adapter::Amr(a) => a.protocol_label(),
            Adapter::Generic(a) => a.protocol_label(),
        }
    }

    fn frame_strategy(&self) -> (f: FrameStrategy) {
        match self {
            Adapter::Kuka(a) => a.frame_strategy(),
            Adapter::Comau(a) => a.frame_strategy(),
            Adapter::UniversalRobots(a) => a.frame_strategy(),
            Adapter::FrankaEmika(a) => a.frame_strategy(),
            Adapter::Amr(a) => a.frame_strategy(),
            Adapter::Generic(a) => a.frame_strategy(),
        }
    }

    fn decode_telemetry(&self, acc: &[u8], joint_count: usize) -> (r: Option<
        (usize, [Binary32; MAX_JOINTS], usize),
    >) {
        match self {
            Adapter::Kuka(a) => a.decode_telemetry(acc, joint_count),
            Adapter::Comau(a) => a.decode_telemetry(acc, joint_count),
            Adapter::UniversalRobots(a) => a.decode_telemetry(acc, joint_count),
            Adapter::FrankaEmika(a) => a.decode_telemetry(acc, joint_count),
            Adapter::Amr(a) => a.decode_telemetry(acc, joint_count),
            Adapter::Generic(a) => a.decode_telemetry(acc, joint_count),
        }
    }

    fn encode_command(&self, command: &CommandVector, out: &mut [u8]) -> (written: usize) {
        match self {
            Adapter::Kuka(a) => a.encode_command(command, out),
            Adapter::Comau(a) => a.encode_command(command, out),
            Adapter::UniversalRobots(a) => a.encode_command(command, out),
            Adapter::FrankaEmika(a) => a.encode_command(command, out),
            Adapter::Amr(a) => a.encode_command(command, out),
            Adapter::Generic(a) => a.encode_command(command, out),
        }
    }

    fn buffer_hint(&self) -> (n: usize) {
        match self {
            Adapter::Kuka(a) => a.buffer_hint(),
            Adapter::Comau(a) => a.buffer_hint(),
            Adapter::UniversalRobots(a) => a.buffer_hint(),
            Adapter::FrankaEmika(a) => a.buffer_hint(),
            Adapter::Amr(a) => a.buffer_hint(),
            Adapter::Generic(a) => a.buffer_hint(),
        }
    }
}

pub open spec fn adapter_of(brand: RobotBrand) -> Adapter {
    match brand {
        RobotBrand::Kuka => Adapter::Kuka(KukaEthernetKrl),
        RobotBrand::Comau => Adapter::Comau(ComauPdl2),
        RobotBrand::UniversalRobots => Adapter::UniversalRobots(UniversalRobots),
        RobotBrand::FrankaEmika => Adapter::FrankaEmika(FrankaFci),
        RobotBrand::Amr => Adapter::Amr(AmrRos2),
        RobotBrand::Generic => Adapter::Generic(GenericBinary),
    }
}

/// Selects the native codec of a brand.
pub fn adapter_for(brand: RobotBrand) -> (a: Adapter)
    ensures
        a == adapter_of(brand),
        a.brand_is() == brand,
{
    match brand {
        RobotBrand::Kuka => Adapter::Kuka(KukaEthernetKrl),
        RobotBrand::Comau => Adapter::Comau(ComauPdl2),
        RobotBrand::UniversalRobots => Adapter::UniversalRobots(UniversalRobots),
        RobotBrand::FrankaEmika => Adapter::FrankaEmika(FrankaFci),
        RobotBrand::Amr => Adapter::Amr(AmrRos2),
        RobotBrand::Generic => Adapter::Generic(GenericBinary),
    }
}

} // verus!
