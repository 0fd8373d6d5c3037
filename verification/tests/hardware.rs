use sonny::boot::{default_joint_names, resolve_fieldbus, BootSettings};
use sonny::diagnostics::frequency_enforcer::{LatestCommand, RealTimeControlLoop};
use sonny::io_bridge::adapters::FrameStrategy;
use sonny::io_bridge::command_vector::{CommandVector, MAX_JOINTS};
use sonny::io_bridge::fieldbus::{FieldbusConfig, FieldbusTransport};
use sonny::io_bridge::fieldbus_loop::{FieldbusLoop, LinkAction, LinkEvent};
use sonny::io_bridge::hal_loader::{
    default_reconnect_ms, default_timeout_ms, FieldbusJsonConfig, GripperConfig, HardwareConfig,
    JointConfig, KinematicLink,
};
use sonny::io_bridge::hardware_abstraction::{clamp_to_limits, HardwareAbstraction};
use sonny::io_bridge::robot_brand::RobotBrand;
use sonny::io_bridge::state_vector::StateVector;
use sonny::io_bridge::watchdog_timer::{HardWatchdog, Heartbeat, WatchdogConfig};
use sonny::network_hook::message::{command_topic, estop_topic, Message};
use sonny::network_hook::telemetry_client::brain_message;
use sonny::network_hook::zenoh_bus::telemetry_message;
use sonny::numeric::binary32::Binary32;
use sonny::numeric::binary64::Binary64;

fn num(x: f32) -> Binary32 {
    Binary32::from_bits(x.to_bits())
}

fn double(x: f64) -> Binary64 {
    Binary64::from_bits(x.to_bits())
}

fn val(x: Binary32) -> f32 {
    f32::from_bits(x.to_bits())
}

fn nums(values: &[f32]) -> Vec<Binary32> {
    values.iter().map(|x| num(*x)).collect()
}

fn entries(c: &CommandVector) -> Vec<f32> {
    c.as_slice().iter().map(|x| val(*x)).collect()
}

fn ranges(values: &[(f32, f32)]) -> Vec<(Binary32, Binary32)> {
    values.iter().map(|r| (num(r.0), num(r.1))).collect()
}

fn payload(values: &[f32]) -> Vec<u8> {
    values.iter().flat_map(|v| v.to_le_bytes()).collect()
}

fn text(m: &Message) -> &str {
    std::str::from_utf8(&m.payload).unwrap()
}

fn joint(name: &str, min: f32, max: f32, speed: f32) -> JointConfig {
    JointConfig {
        name: name.to_string(),
        min_angle_rad: num(min),
        max_angle_rad: num(max),
        max_speed_rad_s: num(speed),
        home_angle_rad: num(0.0),
        gear_ratio: num(1.0),
        max_accel_rad_s2: None,
        max_jerk_rad_s3: None,
    }
}

fn machine(name: &str, manufacturer: &str, dof: usize) -> HardwareConfig {
    HardwareConfig {
        robot_name: name.to_string(),
        manufacturer: manufacturer.to_string(),
        dof,
        expected_hz: double(100.0),
        max_jitter_us: 1500,
        joints: (0..dof).map(|i| joint(&format!("j{}", i + 1), -3.0, 3.0, 2.0)).collect(),
        kinematic_chain: vec![],
        fieldbus: None,
        brand: None,
        gripper: None,
    }
}

fn tcp() -> FieldbusJsonConfig {
    FieldbusJsonConfig {
        protocol: "Tcp".to_string(),
        port: None,
        baud_rate: None,
        bind_addr: None,
        remote_addr: Some("192.168.1.2:7911".to_string()),
        frame_timeout_ms: 100,
        reconnect_delay_ms: 2000,
    }
}

#[test]
fn every_brand_config_resolves_its_own_profile() {
    let cases = [
        ("KUKA", 6, RobotBrand::Kuka),
        ("COMAU", 6, RobotBrand::Comau),
        ("UNIVERSAL-ROBOTS", 6, RobotBrand::UniversalRobots),
        ("FRANKA-EMIKA", 7, RobotBrand::FrankaEmika),
        ("AMR", 4, RobotBrand::Amr),
        ("GENERIC", 6, RobotBrand::Generic),
    ];
    for (profile, dof, expected) in cases {
        let config = machine("R", profile, dof);
        assert_eq!(config.resolved_brand(), expected, "{}", profile);
        assert_eq!(config.dof, config.joints.len());
        assert_eq!(expected.label(), profile);
    }
}

#[test]
fn tcp_fieldbus_maps_to_tcp_transport() {
    let mut config = machine("KUKA-KR6-R900", "KUKA", 6);
    config.fieldbus = Some(tcp());
    let fb = config.to_fieldbus_config().unwrap().unwrap();
    assert!(matches!(fb.transport, FieldbusTransport::Tcp { .. }));
    assert_eq!(fb.brand, RobotBrand::Kuka);
}

#[test]
fn from_str_maps_gripper_register_between_joints() {
    let mut config = machine("TEST-HYBRID", "Test Corp", 2);
    config.joints = vec![joint("j1", -1.0, 1.0, 2.0), joint("j2", -2.0, 2.0, 2.0)];
    config.kinematic_chain = vec![
        KinematicLink {
            parent: "base".to_string(),
            child: "j1".to_string(),
            translation_m: [num(0.0), num(0.0), num(0.1)],
            rotation_axis: [num(0.0), num(0.0), num(1.0)],
        },
        KinematicLink {
            parent: "j1".to_string(),
            child: "j2".to_string(),
            translation_m: [num(0.0), num(0.0), num(0.1)],
            rotation_axis: [num(0.0), num(1.0), num(0.0)],
        },
    ];
    config.gripper = Some(GripperConfig {
        pressure_slot: 1,
        min_pressure_n: num(0.0),
        max_pressure_n: num(100.0),
        nominal_grip_n: num(28.0),
    });
    let limits = config.register_limits();
    assert_eq!(limits, ranges(&[(-1.0, 1.0), (0.0, 100.0), (-2.0, 2.0)]));
    assert_eq!(val(config.gripper.unwrap().nominal_grip_n), 28.0);
}

#[test]
fn an_explicit_brand_beats_the_manufacturer() {
    let mut config = machine("R", "KUKA AG", 6);
    config.brand = Some("COMAU".to_string());
    assert_eq!(config.resolved_brand(), RobotBrand::Comau);
    config.brand = Some(" \t".to_string());
    assert_eq!(config.resolved_brand(), RobotBrand::Kuka);
}

#[test]
fn detects_every_brand_from_manufacturer_string() {
    assert_eq!(RobotBrand::from_manufacturer("KUKA AG"), RobotBrand::Kuka);
    assert_eq!(RobotBrand::from_manufacturer("Comau Robotics"), RobotBrand::Comau);
    assert_eq!(
        RobotBrand::from_manufacturer("Universal Robots A/S"),
        RobotBrand::UniversalRobots
    );
    assert_eq!(RobotBrand::from_manufacturer("Franka Emika GmbH"), RobotBrand::FrankaEmika);
    assert_eq!(RobotBrand::from_manufacturer("Panda"), RobotBrand::FrankaEmika);
    assert_eq!(RobotBrand::from_manufacturer("AMR platform"), RobotBrand::Amr);
    assert_eq!(RobotBrand::from_manufacturer("ThirdParty-Robotics"), RobotBrand::Generic);
}

#[test]
fn two_letters_inside_another_word_are_no_brand() {
    for name in ["Acme Manufacturing", "Future Robots"] {
        assert_eq!(RobotBrand::from_manufacturer(name), RobotBrand::Generic);
    }
    assert_eq!(RobotBrand::from_manufacturer("UR"), RobotBrand::UniversalRobots);
    assert_eq!(RobotBrand::from_manufacturer("my-UR5e"), RobotBrand::UniversalRobots);
    assert_eq!(RobotBrand::from_manufacturer("Manufacturing UR10"), RobotBrand::UniversalRobots);
    assert_eq!(RobotBrand::from_manufacturer("AGV-7"), RobotBrand::Amr);
    assert_eq!(RobotBrand::from_manufacturer("Mobile Base"), RobotBrand::Amr);
    for name in ["MobileRobots", "AMRs", "AGVs", "Future AMRs"] {
        assert_eq!(RobotBrand::from_manufacturer(name), RobotBrand::Amr);
    }
    assert_eq!(RobotBrand::from_manufacturer("PandaArm"), RobotBrand::FrankaEmika);
}

#[test]
fn case_does_not_matter_to_the_brand() {
    for name in ["KuKa", "cOMAU", "EMIKA", "my UR5e", "Mobile Base", "AGV 7", "Acme"] {
        assert_eq!(
            RobotBrand::from_manufacturer(name),
            RobotBrand::from_manufacturer(&name.to_ascii_lowercase())
        );
    }
    assert_eq!(RobotBrand::default(), RobotBrand::Generic);
}

#[test]
fn native_dofs_are_sensible() {
    assert_eq!(RobotBrand::FrankaEmika.native_dof(), 7);
    assert_eq!(RobotBrand::UniversalRobots.native_dof(), 6);
    assert_eq!(RobotBrand::Amr.native_dof(), 4);
}

#[test]
fn brands_suggest_protocol_and_transport() {
    assert_eq!(RobotBrand::FrankaEmika.native_protocol(), "FCI-UDP");
    assert_eq!(RobotBrand::FrankaEmika.default_transport(), "Udp");
    assert_eq!(RobotBrand::Kuka.native_protocol(), "Ethernet-KRL-XML");
    assert_eq!(RobotBrand::Kuka.default_transport(), "Tcp");
    assert_eq!(RobotBrand::Amr.default_transport(), "Serial");
}

#[test]
fn a_fieldbus_without_its_fields_is_refused() {
    let mut config = machine("R", "Acme", 2);
    assert!(matches!(config.to_fieldbus_config(), Ok(None)));
    let cases = [
        ("Serial", None, None, None, None, "Fieldbus 'Serial' requires the 'port' field"),
        ("rs485", Some("/dev/x"), None, None, None, "Fieldbus 'Serial' requires the 'baud_rate' field"),
        ("UDP", None, None, None, None, "Fieldbus 'Udp' requires the 'bind_addr' field"),
        ("ethernet", None, None, Some("0.0.0.0:0"), None, "Fieldbus 'Udp' requires the 'remote_addr' field"),
        ("tcp", None, None, None, None, "Fieldbus 'Tcp' requires the 'remote_addr' field"),
        ("CAN", None, None, None, None, "Unsupported fieldbus protocol: 'can'"),
    ];
    for (protocol, port, baud_rate, bind, remote, message) in cases {
        config.fieldbus = Some(FieldbusJsonConfig {
            protocol: protocol.to_string(),
            port: port.map(|s: &str| s.to_string()),
            baud_rate,
            bind_addr: bind.map(|s: &str| s.to_string()),
            remote_addr: remote.map(|s: &str| s.to_string()),
            frame_timeout_ms: default_timeout_ms(),
            reconnect_delay_ms: default_reconnect_ms(),
        });
        assert_eq!(config.to_fieldbus_config().unwrap_err(), message);
    }
}

#[test]
fn a_fieldbus_carries_the_limits_of_the_joints() {
    let mut config = machine("R", "Acme", 2);
    config.joints[1].max_accel_rad_s2 = Some(num(7.0));
    config.joints[1].max_jerk_rad_s3 = Some(num(9.0));
    config.fieldbus = Some(FieldbusJsonConfig {
        protocol: "RS232".to_string(),
        port: Some("/dev/ttyUSB0".to_string()),
        baud_rate: Some(9600),
        bind_addr: None,
        remote_addr: None,
        frame_timeout_ms: 5,
        reconnect_delay_ms: 6,
    });
    let fb = config.to_fieldbus_config().unwrap().unwrap();
    match &fb.transport {
        FieldbusTransport::Serial { port, baud_rate } => {
            assert_eq!(port, "/dev/ttyUSB0");
            assert_eq!(*baud_rate, 9600);
        }
        _ => panic!("not serial"),
    }
    assert_eq!(fb.hardware_id, "R");
    assert_eq!(fb.joint_count, 2);
    assert_eq!((fb.frame_timeout_ms, fb.reconnect_delay_ms), (5, 6));
    assert_eq!(fb.joint_limits_rad, ranges(&[(-3.0, 3.0), (-3.0, 3.0)]));
    assert_eq!(fb.max_speed_rad_s, nums(&[2.0, 2.0]));
    assert_eq!(fb.max_accel_rad_s2, nums(&[20.0, 7.0]));
    assert_eq!(fb.max_jerk_rad_s3, nums(&[200.0, 9.0]));
    assert_eq!((default_timeout_ms(), default_reconnect_ms()), (100, 2000));
}

#[test]
fn clamp_respects_limits_and_passes_through() {
    let limits = ranges(&[(-1.0, 1.0), (-2.0, 2.0), (0.0, 0.5)]);
    let cmd = clamp_to_limits(&nums(&[5.0, -7.0, 0.25]), &limits);
    assert_eq!(entries(&cmd), vec![1.0, -2.0, 0.25]);
}

#[test]
fn clamp_ignores_missing_limits() {
    let cmd = clamp_to_limits(&nums(&[42.0, -42.0]), &[]);
    assert_eq!(entries(&cmd), vec![42.0, -42.0]);
}

#[test]
fn command_vector_roundtrip() {
    let cmd = CommandVector::from_slice(&nums(&[1.5, -2.25, 3.0]));
    let mut buf = [0u8; MAX_JOINTS * 4];
    let n = cmd.write_to(&mut buf);
    let parsed = CommandVector::from_bytes(&buf[..n]);
    assert_eq!(parsed.as_slice(), cmd.as_slice());
}

#[test]
fn fixed_vector_occupies_constant_memory() {
    let small = CommandVector::zeros(2);
    let large = CommandVector::zeros(32);
    assert_eq!(std::mem::size_of_val(&small), std::mem::size_of_val(&large));
}

#[test]
fn a_vector_keeps_at_most_its_capacity() {
    let many = CommandVector::from_slice(&nums(&[1.0; 40]));
    assert_eq!(many.len, MAX_JOINTS);
    assert_eq!(CommandVector::zeros(99).len, MAX_JOINTS);
    assert_eq!(CommandVector::new().len, 0);
    let odd = CommandVector::from_bytes(&[0, 0, 128, 63, 7, 7]);
    assert_eq!(entries(&odd), vec![1.0]);
    let mut narrow = [9u8; 6];
    assert_eq!(many.write_to(&mut narrow), 4);
    assert_eq!(narrow, [0, 0, 128, 63, 9, 9]);
    let mut cmd = CommandVector::zeros(2);
    cmd.as_mut_slice()[1] = num(4.0);
    assert_eq!(entries(&cmd), vec![0.0, 4.0]);
}

#[test]
fn states_are_put_on_their_topics() {
    let state = StateVector::new("ARM", &nums(&[1.0, -2.0]));
    let m = telemetry_message(&state);
    assert_eq!(m.topic, "alpha/telemetry/ARM");
    assert_eq!(m.payload, payload(&[1.0, -2.0]));
    let m = brain_message(&state);
    assert_eq!(m.topic, "alpha/brain/ARM/input");
    assert_eq!(m.payload, payload(&[1.0, -2.0]));
    assert!(state.timestamp > 1_600_000_000_000);
}

fn bus(brand: RobotBrand, joint_count: usize) -> FieldbusConfig {
    FieldbusConfig {
        transport: FieldbusTransport::Tcp { remote_addr: "10.0.0.1:1".to_string() },
        hardware_id: "ARM".to_string(),
        joint_count,
        frame_timeout_ms: 100,
        reconnect_delay_ms: 2000,
        joint_limits_rad: ranges(&[(-1.0, 1.0), (-1.0, 1.0)]),
        expected_hz: double(100.0),
        max_speed_rad_s: vec![],
        max_accel_rad_s2: vec![],
        max_jerk_rad_s3: vec![],
        brand,
    }
}

fn sent(actions: &[LinkAction]) -> &Vec<u8> {
    match &actions[0] {
        LinkAction::Send(b) => b,
        other => panic!("{:?}", other),
    }
}

fn told(action: &LinkAction) -> &Message {
    match action {
        LinkAction::Telemetry(m) => m,
        LinkAction::Status(m) => m,
        other => panic!("{:?}", other),
    }
}

#[test]
fn commands_reach_the_robot_within_the_limits() {
    let mut l = FieldbusLoop::new(bus(RobotBrand::Generic, 2));
    let actions = l.step(LinkEvent::Command(payload(&[5.0, f32::NAN])));
    assert_eq!(actions.len(), 1);
    assert_eq!(sent(&actions), &payload(&[1.0, 0.0]));
    assert!(l.step(LinkEvent::Command(vec![])).is_empty());
}

#[test]
fn the_brand_decides_the_encoding_only() {
    let mut comau = FieldbusLoop::new(bus(RobotBrand::Comau, 2));
    let text = comau.step(LinkEvent::Command(payload(&[5.0, -0.5])));
    assert_eq!(sent(&text), &b"1.000000,-0.500000\n".to_vec());
    let mut generic = FieldbusLoop::new(bus(RobotBrand::Generic, 2));
    let binary = generic.step(LinkEvent::Command(payload(&[5.0, -0.5])));
    assert_eq!(sent(&binary), &payload(&[1.0, -0.5]));
}

#[test]
fn a_stopped_robot_gets_zeros_and_no_command() {
    let mut l = FieldbusLoop::new(bus(RobotBrand::Generic, 2));
    let actions = l.step(LinkEvent::Estop(vec![1]));
    assert_eq!(actions.len(), 2);
    assert_eq!(sent(&actions), &payload(&[0.0, 0.0]));
    assert!(text(told(&actions[1])).contains("\"estop\":true"));
    assert!(l.step(LinkEvent::Estop(vec![1])).is_empty());
    assert!(l.step(LinkEvent::Command(payload(&[0.5, 0.5]))).is_empty());
    let released = l.step(LinkEvent::Estop(vec![0]));
    assert_eq!(released.len(), 1);
    assert!(text(told(&released[0])).contains("\"estop\":false"));
    let actions = l.step(LinkEvent::Command(payload(&[0.5, 0.5])));
    assert_eq!(sent(&actions), &payload(&[0.5, 0.5]));
}

#[test]
fn the_robot_understands_its_watchdog() {
    let mut l = FieldbusLoop::new(bus(RobotBrand::Generic, 2));
    let mut w = HardWatchdog::new("ARM", 2, WatchdogConfig::default());
    let trip = w.check(50, 0);
    let orders = w.messages(trip);
    assert_eq!(orders[0].topic, command_topic("ARM"));
    assert_eq!(orders[1].topic, estop_topic("ARM"));
    let zeros = l.step(LinkEvent::Command(orders[0].payload.clone()));
    assert_eq!(sent(&zeros), &payload(&[0.0, 0.0]));
    l.step(LinkEvent::Estop(orders[1].payload.clone()));
    assert!(l.estop_active);
    let release = w.check(0, 0);
    l.step(LinkEvent::Estop(w.messages(release)[0].payload.clone()));
    assert!(!l.estop_active);
}

#[test]
fn a_published_command_arrives_unchanged() {
    let mut rt = RealTimeControlLoop::new("ARM", 2, ranges(&[]), double(100.0), 1_000);
    let mut slot = LatestCommand::new();
    slot.publish(CommandVector::from_slice(&nums(&[0.5, -0.25])));
    let m = rt.tick(&mut slot, &mut Heartbeat::new());
    assert_eq!(CommandVector::from_bytes(&m.payload).as_slice(), &nums(&[0.5, -0.25])[..]);
    let mut l = FieldbusLoop::new(bus(RobotBrand::Generic, 2));
    assert_eq!(sent(&l.step(LinkEvent::Command(m.payload))), &payload(&[0.5, -0.25]));
}

#[test]
fn telemetry_may_come_in_pieces() {
    let line = b"0.5,1.5\n-2,3\n9";
    let mut whole = FieldbusLoop::new(bus(RobotBrand::Comau, 2));
    let at_once = whole.step(LinkEvent::Received(line.to_vec()));
    assert_eq!(at_once.len(), 2);
    assert_eq!(told(&at_once[0]).topic, "alpha/telemetry/ARM");
    assert_eq!(told(&at_once[0]).payload, payload(&[0.5, 1.5]));
    assert_eq!(told(&at_once[1]).payload, payload(&[-2.0, 3.0]));
    let mut split = FieldbusLoop::new(bus(RobotBrand::Comau, 2));
    let mut got = Vec::new();
    for b in line {
        for a in split.step(LinkEvent::Received(vec![*b])) {
            got.push(told(&a).payload.clone());
        }
    }
    assert_eq!(got, vec![payload(&[0.5, 1.5]), payload(&[-2.0, 3.0])]);
    assert_eq!(split.acc, whole.acc);
    assert_eq!(split.acc, b"9".to_vec());
    assert_eq!((split.frames, whole.frames), (2, 2));
}

#[test]
fn a_lost_connection_is_reported_and_opened_again() {
    let mut l = FieldbusLoop::new(bus(RobotBrand::Generic, 1));
    let opened = l.step(LinkEvent::Opened);
    assert_eq!(opened.len(), 1);
    assert_eq!(told(&opened[0]).topic, "alpha/status/ARM");
    assert_eq!(
        text(told(&opened[0])),
        "{\"brand\":\"GENERIC\",\"estop\":false,\"frames\":0,\"online\":true,\"protocol\":\"Fixed f32 LE\",\"transport\":\"TCP\"}"
    );
    l.step(LinkEvent::Received(payload(&[1.0])));
    for event in [
        LinkEvent::Received(vec![]),
        LinkEvent::ReceiveFailed,
        LinkEvent::CommandsEnded,
        LinkEvent::EstopEnded,
    ] {
        let closed = l.step(event);
        assert_eq!(closed.len(), 2);
        assert!(text(told(&closed[0])).contains("\"online\":false"));
        assert!(text(told(&closed[0])).contains("\"frames\":1"));
        assert!(matches!(closed[1], LinkAction::Reopen(2000)));
    }
    let failed = l.step(LinkEvent::OpenFailed);
    assert!(text(told(&failed[0])).contains("\"frames\":0"));
    assert!(matches!(failed[1], LinkAction::Reopen(2000)));
}

#[test]
fn the_layer_names_transport_and_brand() {
    let h = HardwareAbstraction::new(bus(RobotBrand::Kuka, 6));
    assert_eq!(h.transport_name(), "TCP");
    assert_eq!(h.brand_label(), "KUKA");
    assert!(h.is_ready(2));
    let mut broken = bus(RobotBrand::Kuka, 6);
    broken.joint_limits_rad = ranges(&[(1.0, -1.0)]);
    let h = HardwareAbstraction::new(broken);
    assert!(h.is_ready(0));
    assert!(!h.is_ready(1));
    assert_eq!(FrameStrategy::Fixed { bytes_per_joint: 4 }.label(), "FIXED");
}

fn settings() -> BootSettings {
    BootSettings {
        serial_port: None,
        serial_baud: None,
        udp_bind: None,
        udp_remote: None,
        robot_name: None,
        robot_dof: None,
    }
}

#[test]
fn the_configuration_comes_before_the_environment() {
    let mut config = machine("R", "KUKA", 6);
    config.fieldbus = Some(tcp());
    let mut s = settings();
    s.serial_port = Some("/dev/ttyS0".to_string());
    let fb = resolve_fieldbus(&Some(config), &s).unwrap();
    assert!(matches!(fb.transport, FieldbusTransport::Tcp { .. }));
}

#[test]
fn the_environment_gives_a_serial_fieldbus() {
    let mut s = settings();
    s.serial_port = Some("/dev/ttyS0".to_string());
    let fb = resolve_fieldbus(&None, &s).unwrap();
    assert!(
        matches!(&fb.transport, FieldbusTransport::Serial { port, baud_rate } if port == "/dev/ttyS0" && *baud_rate == 115200)
    );
    assert_eq!(fb.hardware_id, "Robot");
    assert_eq!(fb.joint_count, 6);
    assert_eq!(f64::from_bits(fb.expected_hz.to_bits()), 100.0);
    s.serial_baud = Some("9600".to_string());
    s.robot_name = Some("MyArm".to_string());
    s.robot_dof = Some("4".to_string());
    let fb = resolve_fieldbus(&None, &s).unwrap();
    assert!(matches!(&fb.transport, FieldbusTransport::Serial { baud_rate: 9600, .. }));
    assert_eq!(fb.hardware_id, "MyArm");
    assert_eq!(fb.joint_count, 4);
    s.serial_baud = Some("fast".to_string());
    s.robot_dof = Some("-4".to_string());
    let fb = resolve_fieldbus(&None, &s).unwrap();
    assert!(matches!(&fb.transport, FieldbusTransport::Serial { baud_rate: 115200, .. }));
    assert_eq!(fb.joint_count, 6);
}

#[test]
fn the_environment_gives_a_udp_fieldbus() {
    let mut s = settings();
    assert!(resolve_fieldbus(&None, &s).is_none());
    s.udp_bind = Some("0.0.0.0:0".to_string());
    s.udp_remote = Some("192.168.1.2:30401".to_string());
    let fb = resolve_fieldbus(&Some(machine("Named", "Franka", 7)), &s).unwrap();
    assert!(
        matches!(&fb.transport, FieldbusTransport::Udp { bind_addr, remote_addr } if bind_addr == "0.0.0.0:0" && remote_addr == "192.168.1.2:30401")
    );
    assert_eq!(fb.hardware_id, "Named");
    assert_eq!(fb.joint_count, 7);
    assert_eq!(fb.brand, RobotBrand::FrankaEmika);
    assert_eq!(fb.max_speed_rad_s, nums(&[2.0; 7]));
}

#[test]
fn joints_without_names_are_numbered() {
    assert_eq!(default_joint_names(3), vec!["J1", "J2", "J3"]);
    assert!(default_joint_names(0).is_empty());
}
