//! What the robot is started with.

use crate::io_bridge::fieldbus::{
    Fieldbus, FieldbusConfig, FieldbusTransport, Transport, DEFAULT_HZ_BITS,
};
use crate::io_bridge::hal_loader::{
    acceleration_limits, jerk_limits, position_limits, speed_limits, HardwareConfig,
};
use crate::io_bridge::robot_brand::RobotBrand;
use crate::numeric::binary64::Binary64;
use crate::numeric::decimal::decimal;
use crate::numeric::parse_text::{parse_bounded, parse_index, parsed_index};
use crate::numeric::reread::law_index_reads_back;
use crate::text::{number_text, push_number};
use vstd::prelude::*;
use vstd::string::*;
use vstd::utf8::encode_utf8;

verus! {

/// Baud rate where none, or no valid one, is given.
pub const DEFAULT_BAUD: u32 = 115200;

/// Joints where none, or no valid number, is given.
pub const DEFAULT_DOF: usize = 6;

/// The settings that the environment gives.
#[derive(Debug)]
pub struct BootSettings {
    pub serial_port: Option<String>,
    pub serial_baud: Option<String>,
    pub udp_bind: Option<String>,
    pub udp_remote: Option<String>,
    pub robot_name: Option<String>,
    pub robot_dof: Option<String>,
}

impl BootSettings {
    pub open spec fn baud(self) -> u32 {
        match self.serial_baud {
            None => DEFAULT_BAUD,
            Some(s) => match parsed_index(encode_utf8(s@), u32::MAX as nat) {
                None => DEFAULT_BAUD,
                Some(n) => n as u32,
            },
        }
    }

    pub open spec fn dof(self) -> nat {
        match self.robot_dof {
            None => DEFAULT_DOF as nat,
            Some(s) => match parsed_index(encode_utf8(s@), usize::MAX as nat) {
                None => DEFAULT_DOF as nat,
                Some(n) => n,
            },
        }
    }

    pub open spec fn name(self) -> Seq<char> {
        match self.robot_name {
            None => "Robot"@,
            Some(s) => s@,
        }
    }
}

/// The connection with the transport `transport`, for a robot that a configuration
/// describes, or else the environment.
pub open spec fn connected(
    config: Option<HardwareConfig>,
    settings: BootSettings,
    transport: Transport,
    dof_otherwise: nat,
) -> Fieldbus {
    Fieldbus {
        transport,
        hardware_id: match config {
            Some(c) => c.robot_name@,
            None => settings.name(),
        },
        joint_count: match config {
            Some(c) => c.dof as nat,
            None => dof_otherwise,
        },
        frame_timeout_ms: 100,
        reconnect_delay_ms: 2000,
        joint_limits_rad: match config {
            Some(c) => position_limits(c.joints@),
            None => Seq::empty(),
        },
        expected_hz: match config {
            Some(c) => c.expected_hz,
            None => Binary64 { bits: DEFAULT_HZ_BITS },
        },
        max_speed_rad_s: match config {
            Some(c) => speed_limits(c.joints@),
            None => Seq::empty(),
        },
        max_accel_rad_s2: match config {
            Some(c) => acceleration_limits(c.joints@),
            None => Seq::empty(),
        },
        max_jerk_rad_s3: match config {
            Some(c) => jerk_limits(c.joints@),
            None => Seq::empty(),
        },
        brand: match config {
            Some(c) => c.profile(),
            None => RobotBrand::Generic,
        },
    }
}

/// The connection that the configuration itself describes; none where it describes
/// none, or a wrong one.
pub open spec fn configured(config: Option<HardwareConfig>) -> Option<Fieldbus> {
    match config {
        None => None,
        Some(c) => match c.connection() {
            Ok(Some(f)) => Some(f),
            _ => None,
        },
    }
}

/// The connection: first the one of the configuration, then a serial port and then a
/// UDP address that the environment names, and else none.
pub open spec fn resolved(config: Option<HardwareConfig>, settings: BootSettings) -> Option<
    Fieldbus,
> {
    match configured(config) {
        Some(f) => Some(f),
        None => match settings.serial_port {
            Some(port) => Some(
                connected(
                    config,
                    settings,
                    Transport::Serial { port: port@, baud_rate: settings.baud() },
                    settings.dof(),
                ),
            ),
            None => match settings.udp_bind {
                Some(bind) => Some(
                    connected(
                        config,
                        settings,
                        Transport::Udp {
                            bind_addr: bind@,
                            remote_addr: settings.udp_remote->0@,
                        },
                        DEFAULT_DOF as nat,
                    ),
                ),
                None => None,
            },
        },
    }
}

/// A UDP address to bind to comes with a remote address, where it is used.
pub open spec fn complete(config: Option<HardwareConfig>, settings: BootSettings) -> bool {
    configured(config) is None && settings.serial_port is None && settings.udp_bind is Some
        ==> settings.udp_remote is Some
}

fn baud_of(settings: &BootSettings) -> (b: u32)
    ensures
        b == settings.baud(),
{
    match &settings.serial_baud {
        None => DEFAULT_BAUD,
        Some(s) => match parse_bounded(s.as_str().as_bytes(), u32::MAX as u64) {
            None => DEFAULT_BAUD,
            Some(n) => n as u32,
        },
    }
}

fn dof_of(settings: &BootSettings) -> (n: usize)
    ensures
        n == settings.dof(),
{
    match &settings.robot_dof {
        None => DEFAULT_DOF,
        Some(s) => match parse_index(s.as_str().as_bytes()) {
            None => DEFAULT_DOF,
            Some(n) => n,
        },
    }
}

fn connect(
    config: &Option<HardwareConfig>,
    settings: &BootSettings,
    transport: FieldbusTransport,
    dof_otherwise: usize,
) -> (f: FieldbusConfig)
    ensures
        f@ == connected(*config, *settings, transport@, dof_otherwise as nat),
{
    match config {
        Some(c) => FieldbusConfig {
            transport,
            hardware_id: c.robot_name.clone(),
            joint_count: c.dof,
            frame_timeout_ms: 100,
            reconnect_delay_ms: 2000,
            joint_limits_rad: c.joint_limits(),
            expected_hz: c.expected_hz,
            max_speed_rad_s: c.max_speeds(),
            max_accel_rad_s2: c.max_accels(),
            max_jerk_rad_s3: c.max_jerks(),
            brand: c.resolved_brand(),
        },
        None => {
            let hardware_id: String = match &settings.robot_name {
                None => "Robot".to_string(),
                Some(s) => s.clone(),
            };
            let f: FieldbusConfig = FieldbusConfig {
                transport,
                hardware_id,
                joint_count: dof_otherwise,
                frame_timeout_ms: 100,
                reconnect_delay_ms: 2000,
                joint_limits_rad: Vec::new(),
                expected_hz: Binary64 { bits: DEFAULT_HZ_BITS },
                max_speed_rad_s: Vec::new(),
                max_accel_rad_s2: Vec::new(),
                max_jerk_rad_s3: Vec::new(),
                brand: RobotBrand::Generic,
            };
            assert(f@ =~= connected(*config, *settings, transport@, dof_otherwise as nat));
            f
        },
    }
}

/// Finds the connection: first from the configuration, then from the environment, and
/// else none, which leaves the simulated robot.
pub fn resolve_fieldbus(config: &Option<HardwareConfig>, settings: &BootSettings) -> (r: Option<
    FieldbusConfig,
>)
    requires
        complete(*config, *settings),
    ensures
        match r {
            None => resolved(*config, *settings) is None,
            Some(f) => resolved(*config, *settings) == Some(f@),
        },
{
    if let Some(c) = config {
        match c.to_fieldbus_config() {
            Ok(Some(f)) => {
                return Some(f);
            },
            Ok(None) => {},
            Err(_) => {},
        }
    }
    if let Some(port) = &settings.serial_port {
        let transport: FieldbusTransport = FieldbusTransport::Serial {
            port: port.clone(),
            baud_rate: baud_of(settings),
        };
        return Some(connect(config, settings, transport, dof_of(settings)));
    }
    if let Some(bind) = &settings.udp_bind {
        if let Some(remote) = &settings.udp_remote {
            let transport: FieldbusTransport = FieldbusTransport::Udp {
                bind_addr: bind.clone(),
                remote_addr: remote.clone(),
            };
            return Some(connect(config, settings, transport, DEFAULT_DOF));
        }
    }
    None
}

/// The name of joint `i` of a robot without a configuration: `J1`, `J2` and so on.
pub open spec fn default_name(i: nat) -> Seq<char> {
    "J"@ + number_text(i + 1)
}

/// The names of `n` joints of a robot without a configuration.
pub fn default_joint_names(n: usize) -> (v: Vec<String>)
    ensures
        v@.len() == n,
        forall|i: int| 0 <= i < n ==> (#[trigger] v@[i])@ == default_name(i as nat),
{
    let mut v: Vec<String> = Vec::new();
    let mut i: usize = 0;
    while i < n
        invariant
            i <= n,
            v@.len() == i,
            forall|j: int| 0 <= j < i ==> (#[trigger] v@[j])@ == default_name(j as nat),
        decreases n - i,
    {
        let mut s: String = "J".to_string();
        push_number(&mut s, i as u64 + 1);
        v.push(s);
        i = i + 1;
    }
    v
}

/// A configuration that describes a connection is not overridden by the environment.
pub proof fn law_configuration_comes_first(c: HardwareConfig, a: BootSettings, b: BootSettings)
    requires
        configured(Some(c)) is Some,
    ensures
        resolved(Some(c), a) == resolved(Some(c), b),
{
}

/// A serial port that the environment names is used where the configuration describes no
/// connection, whatever UDP addresses there are.
pub proof fn law_serial_port_of_environment(
    config: Option<HardwareConfig>,
    settings: BootSettings,
    port: String,
)
    requires
        configured(config) is None,
        settings.serial_port == Some(port),
    ensures
        resolved(config, settings) matches Some(f) && f.transport == (Transport::Serial {
            port: port@,
            baud_rate: settings.baud(),
        }) && (config is None ==> f.joint_count == settings.dof()),
{
}

/// Without a serial port, the UDP addresses that the environment names are used: the one to
/// bind to, and the remote one. Such a robot has six joints, unless it is described.
pub proof fn law_udp_addresses_of_environment(
    config: Option<HardwareConfig>,
    settings: BootSettings,
    bind: String,
    remote: String,
)
    requires
        configured(config) is None,
        settings.serial_port is None,
        settings.udp_bind == Some(bind),
        settings.udp_remote == Some(remote),
    ensures
        resolved(config, settings) matches Some(f) && (f.transport matches Transport::Udp {
            bind_addr,
            remote_addr,
        } && bind_addr == bind@ && remote_addr == remote@) && (config is None ==> f.joint_count
            == 6),
{
}

/// Where nothing names a connection, there is none.
pub proof fn law_nothing_named(config: Option<HardwareConfig>, settings: BootSettings)
    requires
        configured(config) is None,
        settings.serial_port is None,
        settings.udp_bind is None,
    ensures
        resolved(config, settings) is None,
{
}

/// The baud rate and the number of joints are the numbers that the environment writes, where
/// they fit; else 115200 and 6.
pub proof fn law_numbers_of_environment(settings: BootSettings, n: nat)
    ensures
        settings.serial_baud is None ==> settings.baud() == 115200,
        settings.robot_dof is None ==> settings.dof() == 6,
        settings.serial_baud matches Some(s) && encode_utf8(s@) == decimal(n) ==> settings.baud()
            == if n <= u32::MAX {
            n
        } else {
            115200
        },
        settings.robot_dof matches Some(s) && encode_utf8(s@) == decimal(n) ==> settings.dof()
            == if n <= usize::MAX {
            n
        } else {
            6
        },
{
    law_index_reads_back(n, u32::MAX as nat);
    law_index_reads_back(n, usize::MAX as nat);
}

/// A connection that the environment names serves the robot that the configuration describes,
/// each joint within its own limits.
pub proof fn law_described_robot_is_served(
    c: HardwareConfig,
    settings: BootSettings,
    f: Fieldbus,
    i: int,
)
    requires
        resolved(Some(c), settings) == Some(f),
        0 <= i < c.joints@.len(),
    ensures
        f.hardware_id == c.robot_name@,
        f.joint_count == c.dof,
        f.expected_hz == c.expected_hz,
        f.brand == c.profile(),
        f.joint_limits_rad[i] == (c.joints@[i].min_angle_rad, c.joints@[i].max_angle_rad),
        f.max_speed_rad_s[i] == c.joints@[i].max_speed_rad_s,
        c.joints@[i].max_accel_rad_s2 matches Some(a) ==> f.max_accel_rad_s2[i] == a,
        c.joints@[i].max_jerk_rad_s3 matches Some(j) ==> f.max_jerk_rad_s3[i] == j,
        configured(Some(c)) is None ==> f.frame_timeout_ms == 100 && f.reconnect_delay_ms == 2000,
{
}

/// A robot that nothing describes has the name that the environment gives, no limits, and the
/// generic protocol.
pub proof fn law_unknown_robot_is_generic(settings: BootSettings, f: Fieldbus)
    requires
        resolved(None, settings) == Some(f),
    ensures
        settings.robot_name matches Some(s) ==> f.hardware_id == s@,
        settings.robot_name is None ==> f.hardware_id == "Robot"@,
        f.joint_limits_rad.len() == 0,
        f.max_speed_rad_s.len() == 0,
        f.max_accel_rad_s2.len() == 0,
        f.max_jerk_rad_s3.len() == 0,
        f.brand == RobotBrand::Generic,
        f.frame_timeout_ms == 100,
        f.reconnect_delay_ms == 2000,
{
}

/// The joints of a robot without a configuration are counted from 1: behind the letter stands
/// a text that reads as the number, so no two joints share a name.
pub proof fn law_default_names_count(i: nat, j: nat)
    ensures
        default_name(i).len() == 1 + decimal(i + 1).len(),
        default_name(i)[0] == 'J',
        forall|k: int|
            0 <= k < decimal(i + 1).len() ==> default_name(i)[1 + k] == #[trigger] decimal(i + 1)[k]
                as char,
        i != j ==> default_name(i) != default_name(j),
{
    reveal_strlit("J");
    let a = decimal(i + 1);
    let b = decimal(j + 1);
    law_index_reads_back(i + 1, i + j + 1);
    law_index_reads_back(j + 1, i + j + 1);
    if default_name(i) == default_name(j) {
        assert(default_name(i).len() == default_name(j).len());
        assert forall|k: int| 0 <= k < a.len() implies a[k] == b[k] by {
            assert(default_name(i)[1 + k] == a[k] as char);
            assert(default_name(j)[1 + k] == b[k] as char);
        }
        assert(a =~= b);
    }
}

} // verus!
