//! The description of a robot, as its configuration file gives it.

use crate::io_bridge::fieldbus::{Fieldbus, FieldbusConfig, FieldbusTransport, Transport};
use crate::io_bridge::robot_brand::{brand_of, RobotBrand};
use crate::numeric::accuracy::{lemma_product_error, near, one_unit};
use crate::numeric::binary32::Binary32;
use crate::numeric::binary64::Binary64;
use crate::numeric::rounding::lemma_magnitude_compose;
use crate::text::{blank, is_blank, lowered, lowered_chars, same_text, string_of};
use vstd::arithmetic::power2::*;
use vstd::prelude::*;
use vstd::string::*;

verus! {

/// The number 10: a joint reaches its largest velocity, and its largest acceleration,
/// in about 0.1 s unless its configuration says otherwise.
pub const TEN_BITS: u32 = 0x4120_0000;

#[derive(Debug, Clone)]
pub struct JointConfig {
    pub name: String,
    pub min_angle_rad: Binary32,
    pub max_angle_rad: Binary32,
    pub max_speed_rad_s: Binary32,
    pub home_angle_rad: Binary32,
    pub gear_ratio: Binary32,
    /// Declared largest acceleration in rad/s².
    pub max_accel_rad_s2: Option<Binary32>,
    /// Declared largest jerk in rad/s³.
    pub max_jerk_rad_s3: Option<Binary32>,
}

impl JointConfig {
    pub open spec fn acceleration(self) -> Binary32 {
        match self.max_accel_rad_s2 {
            Some(a) => a,
            None => self.max_speed_rad_s.product(Binary32 { bits: TEN_BITS }),
        }
    }

    pub open spec fn jerk(self) -> Binary32 {
        match self.max_jerk_rad_s3 {
            Some(j) => j,
            None => self.acceleration().product(Binary32 { bits: TEN_BITS }),
        }
    }

    /// The largest acceleration: what is declared, or ten times the largest velocity.
    pub fn max_accel(&self) -> (a: Binary32)
        ensures
            a == self.acceleration(),
    {
        match self.max_accel_rad_s2 {
            Some(a) => a,
            None => self.max_speed_rad_s.times(Binary32 { bits: TEN_BITS }),
        }
    }

    /// The largest jerk: what is declared, or ten times the largest acceleration.
    pub fn max_jerk(&self) -> (j: Binary32)
        ensures
            j == self.jerk(),
    {
        match self.max_jerk_rad_s3 {
            Some(j) => j,
            None => self.max_accel().times(Binary32 { bits: TEN_BITS }),
        }
    }
}

#[derive(Debug, Clone)]
pub struct KinematicLink {
    pub parent: String,
    pub child: String,
    pub translation_m: [Binary32; 3],
    pub rotation_axis: [Binary32; 3],
}

#[derive(Debug, Clone)]
pub struct FieldbusJsonConfig {
    /// "Serial", "RS232" or "RS485"; "Udp" or "Ethernet"; "Tcp".
    pub protocol: String,
    pub port: Option<String>,
    pub baud_rate: Option<u32>,
    pub bind_addr: Option<String>,
    pub remote_addr: Option<String>,
    pub frame_timeout_ms: u64,
    pub reconnect_delay_ms: u64,
}

/// Frame timeout where the configuration gives none.
pub fn default_timeout_ms() -> (ms: u64)
    ensures
        ms == 100,
{
    100
}

/// Delay before the next connection where the configuration gives none.
pub fn default_reconnect_ms() -> (ms: u64)
    ensures
        ms == 2000,
{
    2000
}

/// The gripper: a register of the machine with its own physical limits.
#[derive(Debug, Clone)]
pub struct GripperConfig {
    /// Entry of the pressure in the state vector.
    pub pressure_slot: usize,
    pub min_pressure_n: Binary32,
    pub max_pressure_n: Binary32,
    /// Nominal safe pressure.
    pub nominal_grip_n: Binary32,
}

#[derive(Debug, Clone)]
pub struct HardwareConfig {
    pub robot_name: String,
    pub manufacturer: String,
    pub dof: usize,
    pub expected_hz: Binary64,
    pub max_jitter_us: u64,
    pub joints: Vec<JointConfig>,
    pub kinematic_chain: Vec<KinematicLink>,
    pub fieldbus: Option<FieldbusJsonConfig>,
    /// Explicit compatibility profile.
    pub brand: Option<String>,
    pub gripper: Option<GripperConfig>,
}

/// Position limits of the joints.
pub open spec fn position_limits(joints: Seq<JointConfig>) -> Seq<(Binary32, Binary32)> {
    Seq::new(joints.len(), |i: int| (joints[i].min_angle_rad, joints[i].max_angle_rad))
}

/// Velocity limits of the joints.
pub open spec fn speed_limits(joints: Seq<JointConfig>) -> Seq<Binary32> {
    Seq::new(joints.len(), |i: int| joints[i].max_speed_rad_s)
}

/// Acceleration limits of the joints.
pub open spec fn acceleration_limits(joints: Seq<JointConfig>) -> Seq<Binary32> {
    Seq::new(joints.len(), |i: int| joints[i].acceleration())
}

/// Jerk limits of the joints.
pub open spec fn jerk_limits(joints: Seq<JointConfig>) -> Seq<Binary32> {
    Seq::new(joints.len(), |i: int| joints[i].jerk())
}

/// The transport that a configuration asks for, or what is wrong with it.
pub open spec fn transport_of(fb: FieldbusJsonConfig) -> Result<Transport, Seq<char>> {
    let protocol = lowered(fb.protocol@);
    if protocol == "serial"@ || protocol == "rs232"@ || protocol == "rs485"@ {
        match fb.port {
            None => Err("Fieldbus 'Serial' requires the 'port' field"@),
            Some(port) => match fb.baud_rate {
                None => Err("Fieldbus 'Serial' requires the 'baud_rate' field"@),
                Some(baud_rate) => Ok(Transport::Serial { port: port@, baud_rate }),
            },
        }
    } else if protocol == "udp"@ || protocol == "ethernet"@ {
        match fb.bind_addr {
            None => Err("Fieldbus 'Udp' requires the 'bind_addr' field"@),
            Some(bind_addr) => match fb.remote_addr {
                None => Err("Fieldbus 'Udp' requires the 'remote_addr' field"@),
                Some(remote_addr) => Ok(
                    Transport::Udp { bind_addr: bind_addr@, remote_addr: remote_addr@ },
                ),
            },
        }
    } else if protocol == "tcp"@ {
        match fb.remote_addr {
            None => Err("Fieldbus 'Tcp' requires the 'remote_addr' field"@),
            Some(remote_addr) => Ok(Transport::Tcp { remote_addr: remote_addr@ }),
        }
    } else {
        Err("Unsupported fieldbus protocol: '"@ + protocol + "'"@)
    }
}

fn transport_from(fb: &FieldbusJsonConfig) -> (r: Result<FieldbusTransport, String>)
    ensures
        match r {
            Ok(t) => transport_of(*fb) is Ok && transport_of(*fb)->Ok_0 == t@,
            Err(e) => transport_of(*fb) is Err && transport_of(*fb)->Err_0 == e@,
        },
{
    let protocol: Vec<char> = lowered_chars(&fb.protocol);
    if same_text(&protocol, "serial") || same_text(&protocol, "rs232") || same_text(
        &protocol,
        "rs485",
    ) {
        match &fb.port {
            None => Err("Fieldbus 'Serial' requires the 'port' field".to_string()),
            Some(port) => match fb.baud_rate {
                None => Err("Fieldbus 'Serial' requires the 'baud_rate' field".to_string()),
                Some(baud_rate) => Ok(
                    FieldbusTransport::Serial { port: port.clone(), baud_rate },
                ),
            },
        }
    } else if same_text(&protocol, "udp") || same_text(&protocol, "ethernet") {
        match &fb.bind_addr {
            None => Err("Fieldbus 'Udp' requires the 'bind_addr' field".to_string()),
            Some(bind_addr) => match &fb.remote_addr {
                None => Err("Fieldbus 'Udp' requires the 'remote_addr' field".to_string()),
                Some(remote_addr) => Ok(
                    FieldbusTransport::Udp {
                        bind_addr: bind_addr.clone(),
                        remote_addr: remote_addr.clone(),
                    },
                ),
            },
        }
    } else if same_text(&protocol, "tcp") {
        match &fb.remote_addr {
            None => Err("Fieldbus 'Tcp' requires the 'remote_addr' field".to_string()),
            Some(remote_addr) => Ok(FieldbusTransport::Tcp { remote_addr: remote_addr.clone() }),
        }
    } else {
        let mut message: String = "Unsupported fieldbus protocol: '".to_string();
        message.append(&string_of(&protocol));
        message.append("'");
        Err(message)
    }
}

impl HardwareConfig {
    pub open spec fn profile(self) -> RobotBrand {
        match self.brand {
            Some(b) => if blank(b@) {
                brand_of(self.manufacturer@)
            } else {
                brand_of(b@)
            },
            None => brand_of(self.manufacturer@),
        }
    }

    /// The brand: the explicit one, or else the one that the manufacturer's name
    /// mentions.
    pub fn resolved_brand(&self) -> (b: RobotBrand)
        ensures
            b == self.profile(),
    {
        match &self.brand {
            Some(b) => if is_blank(b) {
                RobotBrand::from_manufacturer(&self.manufacturer)
            } else {
                RobotBrand::from_manufacturer(b)
            },
            None => RobotBrand::from_manufacturer(&self.manufacturer),
        }
    }

    pub fn joint_limits(&self) -> (v: Vec<(Binary32, Binary32)>)
        ensures
            v@ == position_limits(self.joints@),
    {
        let mut v: Vec<(Binary32, Binary32)> = Vec::new();
        let mut i: usize = 0;
        while i < self.joints.len()
            invariant
                i <= self.joints@.len(),
                v@ == position_limits(self.joints@.take(i as int)),
            decreases self.joints@.len() - i,
        {
            v.push((self.joints[i].min_angle_rad, self.joints[i].max_angle_rad));
            i = i + 1;
            assert(v@ =~= position_limits(self.joints@.take(i as int)));
        }
        assert(self.joints@.take(i as int) =~= self.joints@);
        v
    }

    pub fn max_speeds(&self) -> (v: Vec<Binary32>)
        ensures
            v@ == speed_limits(self.joints@),
    {
        let mut v: Vec<Binary32> = Vec::new();
        let mut i: usize = 0;
        while i < self.joints.len()
            invariant
                i <= self.joints@.len(),
                v@ == speed_limits(self.joints@.take(i as int)),
            decreases self.joints@.len() - i,
        {
            v.push(self.joints[i].max_speed_rad_s);
            i = i + 1;
            assert(v@ =~= speed_limits(self.joints@.take(i as int)));
        }
        assert(self.joints@.take(i as int) =~= self.joints@);
        v
    }

    pub fn max_accels(&self) -> (v: Vec<Binary32>)
        ensures
            v@ == acceleration_limits(self.joints@),
    {
        let mut v: Vec<Binary32> = Vec::new();
        let mut i: usize = 0;
        while i < self.joints.len()
            invariant
                i <= self.joints@.len(),
                v@ == acceleration_limits(self.joints@.take(i as int)),
            decreases self.joints@.len() - i,
        {
            v.push(self.joints[i].max_accel());
            i = i + 1;
            assert(v@ =~= acceleration_limits(self.joints@.take(i as int)));
        }
        assert(self.joints@.take(i as int) =~= self.joints@);
        v
    }

    pub fn max_jerks(&self) -> (v: Vec<Binary32>)
        ensures
            v@ == jerk_limits(self.joints@),
    {
        let mut v: Vec<Binary32> = Vec::new();
        let mut i: usize = 0;
        while i < self.joints.len()
            invariant
                i <= self.joints@.len(),
                v@ == jerk_limits(self.joints@.take(i as int)),
            decreases self.joints@.len() - i,
        {
            v.push(self.joints[i].max_jerk());
            i = i + 1;
            assert(v@ =~= jerk_limits(self.joints@.take(i as int)));
        }
        assert(self.joints@.take(i as int) =~= self.joints@);
        v
    }

    /// The connection that the configuration describes: none, one, or what is wrong
    /// with it.
    pub open spec fn connection(self) -> Result<Option<Fieldbus>, Seq<char>> {
        match self.fieldbus {
            None => Ok(None),
            Some(fb) => match transport_of(fb) {
                Err(e) => Err(e),
                Ok(transport) => Ok(
                    Some(
                        Fieldbus {
                            transport,
                            hardware_id: self.robot_name@,
                            joint_count: self.dof as nat,
                            frame_timeout_ms: fb.frame_timeout_ms,
                            reconnect_delay_ms: fb.reconnect_delay_ms,
                            joint_limits_rad: position_limits(self.joints@),
                            expected_hz: self.expected_hz,
                            max_speed_rad_s: speed_limits(self.joints@),
                            max_accel_rad_s2: acceleration_limits(self.joints@),
                            max_jerk_rad_s3: jerk_limits(self.joints@),
                            brand: self.profile(),
                        },
                    ),
                ),
            },
        }
    }

    /// The connection that the `fieldbus` section describes, with the limits of the joints.
    pub fn to_fieldbus_config(&self) -> (r: Result<Option<FieldbusConfig>, String>)
        ensures
            match r {
                Ok(None) => self.connection() == Ok::<Option<Fieldbus>, Seq<char>>(None),
                Ok(Some(c)) => self.connection() == Ok::<Option<Fieldbus>, Seq<char>>(Some(c@)),
                Err(e) => self.connection() == Err::<Option<Fieldbus>, Seq<char>>(e@),
            },
    {
        match &self.fieldbus {
            None => Ok(None),
            Some(fb) => match transport_from(fb) {
                Err(e) => Err(e),
                Ok(transport) => {
                    let config: FieldbusConfig = FieldbusConfig {
                        transport,
                        hardware_id: self.robot_name.clone(),
                        joint_count: self.dof,
                        frame_timeout_ms: fb.frame_timeout_ms,
                        reconnect_delay_ms: fb.reconnect_delay_ms,
                        joint_limits_rad: self.joint_limits(),
                        expected_hz: self.expected_hz,
                        max_speed_rad_s: self.max_speeds(),
                        max_accel_rad_s2: self.max_accels(),
                        max_jerk_rad_s3: self.max_jerks(),
                        brand: self.resolved_brand(),
                    };
                    Ok(Some(config))
                },
            },
        }
    }

    /// One interval for every register: the joints in order, with the gripper's
    /// pressure put in at its slot, or behind the last joint.
    pub open spec fn registers(self) -> Seq<(Binary32, Binary32)> {
        let joints = position_limits(self.joints@);
        match self.gripper {
            None => joints,
            Some(g) => {
                let limits = (g.min_pressure_n, g.max_pressure_n);
                if g.pressure_slot < joints.len() {
                    joints.insert(g.pressure_slot as int, limits)
                } else {
                    joints.push(limits)
                }
            },
        }
    }

    /// The map of the machine's registers: one physical limit for every entry of the
    /// state vector.
    pub fn register_limits(&self) -> (v: Vec<(Binary32, Binary32)>)
        ensures
            v@ == self.registers(),
    {
        let mut v: Vec<(Binary32, Binary32)> = self.joint_limits();
        match &self.gripper {
            None => {},
            Some(g) => {
                let limits: (Binary32, Binary32) = (g.min_pressure_n, g.max_pressure_n);
                if g.pressure_slot < v.len() {
                    v.insert(g.pressure_slot, limits);
                } else {
                    v.push(limits);
                }
            },
        }
        v
    }
}

/// Every joint keeps its limits, in order, and only the gripper's register is added.
pub proof fn law_registers_hold_every_joint(c: HardwareConfig, i: int)
    requires
        0 <= i < c.joints@.len(),
    ensures
        ({
            let j = if c.gripper is Some && c.gripper->0.pressure_slot <= i {
                i + 1
            } else {
                i
            };
            c.registers()[j] == (c.joints@[i].min_angle_rad, c.joints@[i].max_angle_rad)
        }),
        c.registers().len() == c.joints@.len() + if c.gripper is Some {
            1int
        } else {
            0int
        },
{
}

/// The transport of the connection that a configuration describes, where it describes one.
pub open spec fn transport_in(c: HardwareConfig) -> Option<Transport> {
    match c.connection() {
        Ok(Some(f)) => Some(f.transport),
        _ => None,
    }
}

/// A section for UDP binds to its `bind_addr` and sends to its `remote_addr`. It is refused
/// exactly if one of the two is missing.
pub proof fn law_udp_addresses(c: HardwareConfig, fb: FieldbusJsonConfig)
    requires
        c.fieldbus == Some(fb),
        lowered(fb.protocol@) == "udp"@ || lowered(fb.protocol@) == "ethernet"@,
    ensures
        fb.bind_addr matches Some(bind) ==> fb.remote_addr matches Some(remote) ==> transport_in(c)
            == Some(Transport::Udp { bind_addr: bind@, remote_addr: remote@ }),
        c.connection() is Err <==> fb.bind_addr is None || fb.remote_addr is None,
{
    lemma_protocols();
}

/// A section for a serial line uses its `port` at its `baud_rate`. It is refused exactly if
/// one of the two is missing.
pub proof fn law_serial_line(c: HardwareConfig, fb: FieldbusJsonConfig)
    requires
        c.fieldbus == Some(fb),
        lowered(fb.protocol@) == "serial"@ || lowered(fb.protocol@) == "rs232"@ || lowered(
            fb.protocol@,
        ) == "rs485"@,
    ensures
        fb.port matches Some(port) ==> fb.baud_rate matches Some(rate) ==> transport_in(c) == Some(
            Transport::Serial { port: port@, baud_rate: rate },
        ),
        c.connection() is Err <==> fb.port is None || fb.baud_rate is None,
{
    lemma_protocols();
}

/// A section for TCP connects to its `remote_addr`. It is refused exactly if that is missing.
pub proof fn law_tcp_address(c: HardwareConfig, fb: FieldbusJsonConfig)
    requires
        c.fieldbus == Some(fb),
        lowered(fb.protocol@) == "tcp"@,
    ensures
        fb.remote_addr matches Some(remote) ==> transport_in(c) == Some(
            Transport::Tcp { remote_addr: remote@ },
        ),
        c.connection() is Err <==> fb.remote_addr is None,
{
    lemma_protocols();
}

/// A configuration without a section for a connection describes none; one with a protocol that
/// is not known is refused.
pub proof fn law_unknown_protocol_is_refused(c: HardwareConfig, fb: FieldbusJsonConfig)
    ensures
        c.fieldbus is None ==> c.connection() == Ok::<Option<Fieldbus>, Seq<char>>(None),
        c.fieldbus == Some(fb) && lowered(fb.protocol@) != "udp"@ && lowered(fb.protocol@)
            != "ethernet"@ && lowered(fb.protocol@) != "serial"@ && lowered(fb.protocol@)
            != "rs232"@ && lowered(fb.protocol@) != "rs485"@ && lowered(fb.protocol@) != "tcp"@
            ==> c.connection() is Err,
{
}

proof fn lemma_protocols()
    ensures
        "serial"@.len() == 6,
        "rs232"@.len() == 5,
        "rs485"@.len() == 5,
        "udp"@.len() == 3,
        "udp"@[0] == 'u',
        "ethernet"@.len() == 8,
        "tcp"@.len() == 3,
        "tcp"@[0] == 't',
{
    reveal_strlit("serial");
    reveal_strlit("rs232");
    reveal_strlit("rs485");
    reveal_strlit("udp");
    reveal_strlit("ethernet");
    reveal_strlit("tcp");
}

/// A connection carries the name, the joints, the times and the frequency of the
/// configuration, and is there exactly if the configuration has a section for it.
pub proof fn law_connection_carries_machine(c: HardwareConfig, fb: FieldbusJsonConfig, f: Fieldbus)
    requires
        c.connection() == Ok::<Option<Fieldbus>, Seq<char>>(Some(f)),
    ensures
        c.fieldbus is Some,
        c.fieldbus == Some(fb) ==> f.frame_timeout_ms == fb.frame_timeout_ms
            && f.reconnect_delay_ms == fb.reconnect_delay_ms,
        f.hardware_id == c.robot_name@,
        f.joint_count == c.dof,
        f.expected_hz == c.expected_hz,
        f.brand == c.profile(),
        f.joint_limits_rad.len() == c.joints@.len(),
        f.max_speed_rad_s.len() == c.joints@.len(),
        f.max_accel_rad_s2.len() == c.joints@.len(),
        f.max_jerk_rad_s3.len() == c.joints@.len(),
{
}

/// Each joint of a connection has the limits of its own joint in the configuration: its
/// angles, its speed, and what is declared of its acceleration and jerk.
pub proof fn law_connection_carries_limits(c: HardwareConfig, f: Fieldbus, i: int)
    requires
        c.connection() == Ok::<Option<Fieldbus>, Seq<char>>(Some(f)),
        0 <= i < c.joints@.len(),
    ensures
        f.joint_limits_rad[i].0 == c.joints@[i].min_angle_rad,
        f.joint_limits_rad[i].1 == c.joints@[i].max_angle_rad,
        f.max_speed_rad_s[i] == c.joints@[i].max_speed_rad_s,
        c.joints@[i].max_accel_rad_s2 matches Some(a) ==> f.max_accel_rad_s2[i] == a,
        c.joints@[i].max_jerk_rad_s3 matches Some(j) ==> f.max_jerk_rad_s3[i] == j,
{
}

/// Where nothing is declared, a joint reaches its largest speed in a tenth of a second, and
/// its largest acceleration too: the acceleration is ten times the speed, and the jerk ten
/// times the acceleration, up to rounding.
pub proof fn law_undeclared_limits(j: JointConfig)
    ensures
        j.max_accel_rad_s2 is None && j.acceleration().finite() ==> near(
            10 * j.max_speed_rad_s.value() * one_unit(),
            j.acceleration().value(),
            one_unit() as int,
        ),
        j.max_jerk_rad_s3 is None && j.jerk().finite() ==> near(
            10 * j.acceleration().value() * one_unit(),
            j.jerk().value(),
            one_unit() as int,
        ),
{
    let ten = Binary32 { bits: TEN_BITS };
    lemma2_to64();
    assert(pow2(23) == 8388608);
    lemma_magnitude_compose(23, 129, 10485760);
    lemma_pow2_adds(20, 129);
    assert(pow2(20) == 1048576);
    assert(129 * 8388608 + 10485760 == TEN_BITS as int);
    assert(10485760 * pow2(129) == 10 * (1048576 * pow2(129))) by (nonlinear_arith);
    assert(ten.value() == 10 * one_unit());
    if j.max_accel_rad_s2 is None && j.acceleration().finite() {
        lemma_product_error(j.max_speed_rad_s, ten);
        lemma_ten_times(j.max_speed_rad_s.value());
    }
    if j.max_jerk_rad_s3 is None && j.jerk().finite() {
        lemma_product_error(j.acceleration(), ten);
        lemma_ten_times(j.acceleration().value());
    }
}

proof fn lemma_ten_times(x: int)
    ensures
        x * (10 * one_unit()) == 10 * x * one_unit(),
{
    assert(x * (10 * one_unit()) == 10 * x * one_unit()) by (nonlinear_arith);
}

/// An explicit brand decides, unless it is blank; else the manufacturer's name does.
pub proof fn law_explicit_brand_decides(c: HardwareConfig)
    ensures
        c.brand matches Some(b) ==> !blank(b@) ==> c.profile() == brand_of(b@),
        (c.brand matches Some(b) ==> blank(b@)) ==> c.profile() == brand_of(c.manufacturer@),
{
}

/// The gripper's register has the gripper's limits, at its slot or behind the last joint.
pub proof fn law_registers_hold_the_gripper(c: HardwareConfig, g: GripperConfig)
    requires
        c.gripper == Some(g),
    ensures
        ({
            let slot = if g.pressure_slot <= c.joints@.len() {
                g.pressure_slot as int
            } else {
                c.joints@.len() as int
            };
            c.registers()[slot] == (g.min_pressure_n, g.max_pressure_n)
        }),
{
}

} // verus!
