//! Configuration of the connection to a robot.

use crate::io_bridge::robot_brand::RobotBrand;
use crate::numeric::binary32::Binary32;
use crate::numeric::binary64::Binary64;
use vstd::prelude::*;

verus! {

/// Encoding of the nominal frequency where none is given: 100 Hz.
pub const DEFAULT_HZ_BITS: u64 = 0x4059_0000_0000_0000;

/// How the robot is connected.
#[derive(Debug, Clone)]
pub enum FieldbusTransport {
    Serial { port: String, baud_rate: u32 },
    Udp { bind_addr: String, remote_addr: String },
    Tcp { remote_addr: String },
}

/// What a `FieldbusTransport` says.
#[verifier::ext_equal]
pub enum Transport {
    Serial { port: Seq<char>, baud_rate: u32 },
    Udp { bind_addr: Seq<char>, remote_addr: Seq<char> },
    Tcp { remote_addr: Seq<char> },
}

impl View for FieldbusTransport {
    type V = Transport;

    open spec fn view(&self) -> Transport {
        match self {
            FieldbusTransport::Serial { port, baud_rate } => Transport::Serial {
                port: port@,
                baud_rate: *baud_rate,
            },
            FieldbusTransport::Udp { bind_addr, remote_addr } => Transport::Udp {
                bind_addr: bind_addr@,
                remote_addr: remote_addr@,
            },
            FieldbusTransport::Tcp { remote_addr } => Transport::Tcp { remote_addr: remote_addr@ },
        }
    }
}

/// Everything that the hardware layer needs to know of a robot.
#[derive(Debug, Clone)]
pub struct FieldbusConfig {
    pub transport: FieldbusTransport,
    pub hardware_id: String,
    pub joint_count: usize,
    pub frame_timeout_ms: u64,
    pub reconnect_delay_ms: u64,
    /// Physical limits of each joint in rad: every command is cut to them before it
    /// reaches the drives.
    pub joint_limits_rad: Vec<(Binary32, Binary32)>,
    /// Nominal frequency of the control loop in Hz.
    pub expected_hz: Binary64,
    /// Largest velocity of each joint, in rad/s.
    pub max_speed_rad_s: Vec<Binary32>,
    /// Largest acceleration of each joint, in rad/s².
    pub max_accel_rad_s2: Vec<Binary32>,
    /// Largest jerk of each joint, in rad/s³.
    pub max_jerk_rad_s3: Vec<Binary32>,
    /// The brand decides which native codec is used.
    pub brand: RobotBrand,
}

/// What a `FieldbusConfig` says.
#[verifier::ext_equal]
pub struct Fieldbus {
    pub transport: Transport,
    pub hardware_id: Seq<char>,
    pub joint_count: nat,
    pub frame_timeout_ms: u64,
    pub reconnect_delay_ms: u64,
    pub joint_limits_rad: Seq<(Binary32, Binary32)>,
    pub expected_hz: Binary64,
    pub max_speed_rad_s: Seq<Binary32>,
    pub max_accel_rad_s2: Seq<Binary32>,
    pub max_jerk_rad_s3: Seq<Binary32>,
    pub brand: RobotBrand,
}

impl View for FieldbusConfig {
    type V = Fieldbus;

    open spec fn view(&self) -> Fieldbus {
        Fieldbus {
            transport: self.transport@,
            hardware_id: self.hardware_id@,
            joint_count: self.joint_count as nat,
            frame_timeout_ms: self.frame_timeout_ms,
            reconnect_delay_ms: self.reconnect_delay_ms,
            joint_limits_rad: self.joint_limits_rad@,
            expected_hz: self.expected_hz,
            max_speed_rad_s: self.max_speed_rad_s@,
            max_accel_rad_s2: self.max_accel_rad_s2@,
            max_jerk_rad_s3: self.max_jerk_rad_s3@,
            brand: self.brand,
        }
    }
}

impl Default for FieldbusConfig {
    fn default() -> (c: FieldbusConfig)
        ensures
            c@ == (Fieldbus {
                transport: Transport::Udp { bind_addr: Seq::empty(), remote_addr: Seq::empty() },
                hardware_id: Seq::empty(),
                joint_count: 6,
                frame_timeout_ms: 100,
                reconnect_delay_ms: 2000,
                joint_limits_rad: Seq::empty(),
                expected_hz: Binary64 { bits: DEFAULT_HZ_BITS },
                max_speed_rad_s: Seq::empty(),
                max_accel_rad_s2: Seq::empty(),
                max_jerk_rad_s3: Seq::empty(),
                brand: RobotBrand::Generic,
            }),
    {
        FieldbusConfig {
            transport: FieldbusTransport::Udp {
                bind_addr: String::new(),
                remote_addr: String::new(),
            },
            hardware_id: String::new(),
            joint_count: 6,
            frame_timeout_ms: 100,
            reconnect_delay_ms: 2000,
            joint_limits_rad: Vec::new(),
            expected_hz: Binary64 { bits: DEFAULT_HZ_BITS },
            max_speed_rad_s: Vec::new(),
            max_accel_rad_s2: Vec::new(),
            max_jerk_rad_s3: Vec::new(),
            brand: RobotBrand::Generic,
        }
    }
}

} // verus!
