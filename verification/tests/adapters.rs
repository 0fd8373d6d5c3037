use sonny::io_bridge::adapters::amr_ros2::{
    twist_to_wheel_speeds, wheel_speeds_to_twist, AmrRos2, DEFAULT_WHEEL_BASE_M,
};
use sonny::io_bridge::adapters::comau_pdl::ComauPdl2;
use sonny::io_bridge::adapters::franka_fci::{FrankaFci, FCI_Q_BODY_OFFSET};
use sonny::io_bridge::adapters::generic_binary::GenericBinary;
use sonny::io_bridge::adapters::kuka_eth_krl::KukaEthernetKrl;
use sonny::io_bridge::adapters::universal_robots::{UniversalRobots, UR_Q_ACTUAL_BODY_OFFSET};
use sonny::io_bridge::adapters::{adapter_for, BrandAdapter, FrameStrategy};
use sonny::io_bridge::command_vector::CommandVector;
use sonny::io_bridge::robot_brand::RobotBrand;
use sonny::numeric::binary32::Binary32;

fn num(x: f32) -> Binary32 {
    Binary32::from_bits(x.to_bits())
}

fn val(x: Binary32) -> f32 {
    f32::from_bits(x.to_bits())
}

fn nums(values: &[f32]) -> Vec<Binary32> {
    values.iter().map(|x| num(*x)).collect()
}

fn command(values: &[f32]) -> CommandVector {
    CommandVector::from_slice(&nums(values))
}

fn twist(linear: f32, angular: f32, base: f32) -> (f32, f32) {
    let (l, r) = twist_to_wheel_speeds(num(linear), num(angular), num(base));
    (val(l), val(r))
}

#[test]
fn twist_to_wheels_and_back() {
    let (l, r) = twist_to_wheel_speeds(num(0.5), num(0.2), num(0.5));
    let (v, w) = wheel_speeds_to_twist(l, r, num(0.5));
    assert!((val(v) - 0.5).abs() < 1e-5);
    assert!((val(w) - 0.2).abs() < 1e-5);
}

#[test]
fn ordinary_speeds_come_back_from_the_wheels() {
    for linear in [-4.0f32, -0.3333, 0.0, 1.7, 4.0] {
        for angular in [-8.0f32, -0.1, 0.0, 2.9, 8.0] {
            for base in [0.25f32, 0.61, 4.0] {
                let (l, r) = twist_to_wheel_speeds(num(linear), num(angular), num(base));
                let (v, w) = wheel_speeds_to_twist(l, r, num(base));
                assert!((val(v) as f64 - linear as f64).abs() < 1e-5);
                assert!((val(w) as f64 - angular as f64).abs() < 1e-5);
            }
        }
    }
}

#[test]
fn straight_line_moves_both_wheels_equal() {
    let (l, r) = twist(0.8, 0.0, 0.5);
    assert!((l - r).abs() < 1e-6);
    assert!((l - 0.8).abs() < 1e-6);
}

#[test]
fn rotation_in_place() {
    let (l, r) = twist(0.0, 1.0, 0.5);
    assert!((l + 0.25).abs() < 1e-6);
    assert!((r - 0.25).abs() < 1e-6);
}

#[test]
fn twists_are_computed_to_the_last_bit() {
    for (v, w, b) in [(0.5f32, 0.2f32, 0.5f32), (-1.7, 3.3, 0.61), (1e-3, -7.25, 0.4)] {
        let (l, r) = twist(v, w, b);
        assert_eq!(l, v - w * b / 2.0);
        assert_eq!(r, v + w * b / 2.0);
        let (linear, angular) = wheel_speeds_to_twist(num(l), num(r), num(b));
        assert_eq!(val(linear), (r + l) / 2.0);
        assert_eq!(val(angular), (r - l) / b);
    }
    assert_eq!(f32::from_bits(DEFAULT_WHEEL_BASE_M), 0.5);
}

#[test]
fn decodes_fixed_wheel_vector() {
    let mut frame = Vec::new();
    for v in [0.5f32, -0.5] {
        frame.extend_from_slice(&v.to_le_bytes());
    }
    let adapter = AmrRos2;
    let (consumed, values, n) = adapter.decode_telemetry(&frame, 2).unwrap();
    assert_eq!(consumed, 8);
    assert_eq!(&values[..n], &nums(&[0.5, -0.5])[..]);
}

#[test]
fn decodes_csv_line() {
    let frame = b"0.1234,-1.5708,3.1416\n";
    let adapter = ComauPdl2;
    let (consumed, values, n) = adapter.decode_telemetry(frame, 6).unwrap();
    assert_eq!(consumed, frame.len());
    assert_eq!(n, 3);
    assert!((val(values[0]) - 0.1234).abs() < 1e-5);
    assert!((val(values[1]) + 1.5708).abs() < 1e-5);
    assert!((val(values[2]) - 3.1416).abs() < 1e-5);
}

#[test]
fn waits_for_newline() {
    let adapter = ComauPdl2;
    assert!(adapter.decode_telemetry(b"0.5,1.0", 6).is_none());
}

#[test]
fn encodes_csv_command() {
    let adapter = ComauPdl2;
    let cmd = command(&[0.5, -1.0]);
    let mut out = [0u8; 256];
    let n = adapter.encode_command(&cmd, &mut out);
    let msg = std::str::from_utf8(&out[..n]).unwrap();
    assert_eq!(msg, "0.500000,-1.000000\n");
}

#[test]
fn csv_fields_that_do_not_count_are_passed_over() {
    let adapter = ComauPdl2;
    let (consumed, values, n) = adapter.decode_telemetry(b"1,,3,oops\n9", 3).unwrap();
    assert_eq!(consumed, 10);
    assert_eq!(n, 3);
    assert_eq!(&values[..4], &nums(&[1.0, 0.0, 3.0, 0.0])[..]);
    let (consumed, values, n) = adapter.decode_telemetry(b"1,oops\n", 3).unwrap();
    assert_eq!((consumed, n), (7, 1));
    assert_eq!(&values[..2], &nums(&[1.0, 0.0])[..]);
    let (consumed, values, n) = adapter.decode_telemetry(b"oops,2\n", 3).unwrap();
    assert_eq!((consumed, n), (7, 2));
    assert_eq!(&values[..2], &nums(&[0.0, 2.0])[..]);
    let (consumed, _, n) = adapter.decode_telemetry(b"abc\n", 3).unwrap();
    assert_eq!((consumed, n), (4, 0));
    assert!(adapter.decode_telemetry(b"1,oops", 3).is_none());
}

#[test]
fn a_csv_line_reads_back_with_six_decimals() {
    let adapter = ComauPdl2;
    let values = [0.1f32, -2.5, 1.0e-7, 3.1415927, 1234567.9, -0.0];
    let mut out = [0u8; 256];
    let n = adapter.encode_command(&command(&values), &mut out);
    let (consumed, read, active) = adapter.decode_telemetry(&out[..n], 6).unwrap();
    assert_eq!(consumed, n);
    assert_eq!(active, 6);
    for i in 0..6 {
        let want: f32 = format!("{:.6}", values[i]).parse().unwrap();
        assert_eq!(read[i].to_bits(), want.to_bits());
    }
}

#[test]
fn a_csv_command_is_cut_to_the_room() {
    let adapter = ComauPdl2;
    let mut out = [0u8; 5];
    let n = adapter.encode_command(&command(&[0.5, -1.0]), &mut out);
    assert_eq!(&out[..n], b"0.500");
    let mut long = [0u8; 256];
    let n = adapter.encode_command(&command(&[1.0; 8]), &mut long);
    assert_eq!(
        std::str::from_utf8(&long[..n]).unwrap(),
        "1.000000,1.000000,1.000000,1.000000,1.000000,1.000000\n"
    );
}

fn build_fci_state(q: [f64; 7], dq: [f64; 7]) -> Vec<u8> {
    let mut body = vec![0u8; 192];
    for (i, v) in q.iter().enumerate() {
        let off = FCI_Q_BODY_OFFSET + i * 8;
        body[off..off + 8].copy_from_slice(&v.to_be_bytes());
    }
    for (i, v) in dq.iter().enumerate() {
        let off = FCI_Q_BODY_OFFSET + 7 * 8 + i * 8;
        body[off..off + 8].copy_from_slice(&v.to_be_bytes());
    }
    let size = (body.len() + 4) as u32;
    let mut packet = Vec::with_capacity(body.len() + 4);
    packet.extend_from_slice(&size.to_be_bytes());
    packet.extend_from_slice(&body);
    packet
}

#[test]
fn decodes_fci_robot_state() {
    let q = [0.1, -0.2, 0.3, -0.4, 0.5, -0.6, 0.7];
    let dq = [0.0; 7];
    let packet = build_fci_state(q, dq);
    let adapter = FrankaFci;
    let (consumed, values, n) = adapter.decode_telemetry(&packet, 7).unwrap();
    assert_eq!(consumed, packet.len());
    assert_eq!(n, 7);
    for i in 0..7 {
        assert!((val(values[i]) - q[i] as f32).abs() < 1e-4);
    }
}

#[test]
fn doubles_are_narrowed_as_the_processor_does() {
    let q = [0.1, -1e-300, 1e39, -7.5e-42, 16777217.0, f64::MIN_POSITIVE, -3.4028236e38];
    let (_, values, n) = FrankaFci.decode_telemetry(&build_fci_state(q, [0.0; 7]), 7).unwrap();
    assert_eq!(n, 7);
    for i in 0..7 {
        assert_eq!(values[i].to_bits(), (q[i] as f32).to_bits());
    }
}

#[test]
fn waits_for_full_state_packet() {
    let packet = build_fci_state([0.0; 7], [0.0; 7]);
    let adapter = FrankaFci;
    assert!(adapter.decode_telemetry(&packet[..4], 7).is_none());
}

#[test]
fn encodes_fixed_192_byte_command() {
    let adapter = FrankaFci;
    let cmd = command(&[0.5, -0.5, 1.0, -1.0, 2.0, -2.0, 0.0]);
    let mut out = [0u8; 512];
    let n = adapter.encode_command(&cmd, &mut out);
    assert_eq!(n, 192);
    let q0 = f32::from_le_bytes([out[22], out[23], out[24], out[25]]);
    assert!((q0 - 0.5).abs() < 1e-6);
}

#[test]
fn decodes_fixed_f32_le_frame() {
    let mut frame = Vec::new();
    for v in [1.0f32, -2.5, 3.25] {
        frame.extend_from_slice(&v.to_le_bytes());
    }
    let adapter = GenericBinary;
    let (consumed, values, n) = adapter.decode_telemetry(&frame, 3).unwrap();
    assert_eq!(consumed, 12);
    assert_eq!(n, 3);
    assert_eq!(&values[..n], &nums(&[1.0, -2.5, 3.25])[..]);
}

#[test]
fn waits_for_more_bytes_when_incomplete() {
    let adapter = GenericBinary;
    let partial = 1.0f32.to_le_bytes();
    assert!(adapter.decode_telemetry(&partial, 3).is_none());
}

#[test]
fn command_roundtrip() {
    let adapter = GenericBinary;
    let cmd = command(&[0.1, -0.2, 0.3]);
    let mut out = [0u8; 256];
    let n = adapter.encode_command(&cmd, &mut out);
    let (_, values, count) = adapter.decode_telemetry(&out[..n], 3).unwrap();
    assert_eq!(&values[..count], cmd.as_slice());
}

#[test]
fn decodes_kuka_send_frame() {
    let frame = br#"<?xml version="1.0" encoding="UTF-8"?><Rob><Data>
            <Var Name="SEND[1]">-0.1234</Var><Var Name="SEND[2]">1.5708</Var>
            <Var Name="SEND[3]">3.1416</Var></Data></Rob>"#;
    let adapter = KukaEthernetKrl;
    let (consumed, values, n) = adapter.decode_telemetry(frame, 6).unwrap();
    assert_eq!(consumed, frame.len());
    assert_eq!(n, 3);
    assert!((val(values[0]) - (-0.1234)).abs() < 1e-5);
    assert!((val(values[1]) - 1.5708).abs() < 1e-5);
    assert!((val(values[2]) - 3.1416).abs() < 1e-5);
}

#[test]
fn waits_for_complete_xml_frame() {
    let partial = br#"<?xml version="1.0"?><Rob><Data><Var Name="SEND[1]">0.5</Var>"#;
    let adapter = KukaEthernetKrl;
    assert!(adapter.decode_telemetry(partial, 6).is_none());
}

#[test]
fn kuka_variables_find_their_joints() {
    let adapter = KukaEthernetKrl;
    let frame = br#"<Rob><Var Name="SEND[3]"> 3.5 </Var><Var Name="MODE">7</Var><Var Name="SEND">4</Var><Var Name="SEND[40]">5</Var></Rob>rest"#;
    let (consumed, values, n) = adapter.decode_telemetry(frame, 6).unwrap();
    assert_eq!(consumed, frame.len() - 4);
    assert_eq!(n, 5);
    assert_eq!(&values[..5], &nums(&[0.0, 0.0, 3.5, 4.0, 5.0])[..]);
    let (_, values, n) = adapter.decode_telemetry(frame, 2).unwrap();
    assert_eq!(n, 3);
    assert_eq!(val(values[2]), 3.5);
    let broken = br#"<Var Name="SEND[1]">x</Var><Var Name="SEND[2]">1</Var></Rob>"#;
    assert_eq!(adapter.decode_telemetry(broken, 6).unwrap().2, 0);
}

#[test]
fn encodes_a_commands_xml() {
    let adapter = KukaEthernetKrl;
    let cmd = command(&[0.25, -1.0]);
    let mut out = [0u8; 512];
    let n = adapter.encode_command(&cmd, &mut out);
    let msg = std::str::from_utf8(&out[..n]).unwrap();
    assert!(msg.contains("<Var Name=\"A1\">0.250000</Var>"));
    assert!(msg.contains("<Var Name=\"A2\">-1.000000</Var>"));
    assert!(msg.ends_with("</Rob>"));
}

fn build_ur_packet(q_actual: [f64; 6]) -> Vec<u8> {
    let mut body = vec![0u8; 320];
    for (i, v) in q_actual.iter().enumerate() {
        let off = UR_Q_ACTUAL_BODY_OFFSET + i * 8;
        body[off..off + 8].copy_from_slice(&v.to_be_bytes());
    }
    let size = (body.len() + 4) as u32;
    let mut packet = Vec::with_capacity(body.len() + 4);
    packet.extend_from_slice(&size.to_be_bytes());
    packet.extend_from_slice(&body);
    packet
}

#[test]
fn decodes_q_actual_from_rt_client_packet() {
    let q_actual = [0.1, -0.2, 0.3, -0.4, 0.5, -0.6];
    let packet = build_ur_packet(q_actual);
    let adapter = UniversalRobots;
    let (consumed, values, n) = adapter.decode_telemetry(&packet, 6).unwrap();
    assert_eq!(consumed, packet.len());
    assert_eq!(n, 6);
    for i in 0..6 {
        assert!((val(values[i]) - q_actual[i] as f32).abs() < 1e-4);
    }
}

#[test]
fn waits_for_full_message() {
    let packet = build_ur_packet([0.0; 6]);
    let adapter = UniversalRobots;
    assert!(adapter.decode_telemetry(&packet[..packet.len() - 4], 6).is_none());
}

#[test]
fn a_complete_frame_that_is_too_short_is_consumed() {
    let mut packet = vec![0, 0, 0, 20];
    packet.extend_from_slice(&[7u8; 16]);
    let (consumed, _, n) = UniversalRobots.decode_telemetry(&packet, 6).unwrap();
    assert_eq!((consumed, n), (20, 0));
    let mut state = vec![0, 0, 0, 28];
    state.extend_from_slice(&[0u8; 8]);
    state.extend_from_slice(&1.5f64.to_be_bytes());
    state.extend_from_slice(&(-2.0f64).to_be_bytes());
    let (consumed, values, n) = FrankaFci.decode_telemetry(&state, 7).unwrap();
    assert_eq!((consumed, n), (28, 2));
    assert_eq!(&values[..3], &nums(&[1.5, -2.0, 0.0])[..]);
    assert!(FrankaFci.decode_telemetry(&state[..27], 7).is_none());
    assert!(FrankaFci.decode_telemetry(&[0, 0, 0, 3, 1, 2], 7).is_none());
}

#[test]
fn numbers_are_written_as_text_in_place() {
    let values = [f32::NAN, f32::NEG_INFINITY, -0.0, 3.4028235e38, 16777216.5, 1.0e-7];
    let cmd = command(&values);
    let mut out = [b'#'; 256];
    let n = ComauPdl2.encode_command(&cmd, &mut out);
    let want: Vec<String> = values.iter().map(|x| format!("{:.6}", x)).collect();
    assert_eq!(std::str::from_utf8(&out[..n]).unwrap(), want.join(",") + "\n");
    assert!(out[n..].iter().all(|b| *b == b'#'));
    for room in 0..n {
        let mut short = [b'#'; 256];
        assert_eq!(ComauPdl2.encode_command(&cmd, &mut short[..room]), room);
        assert_eq!(&short[..room], &out[..room]);
    }
}

#[test]
fn encodes_urscript_servoj() {
    let adapter = UniversalRobots;
    let cmd = command(&[0.5, -1.5, 0.0, 1.0, -0.5, 0.25]);
    let mut out = [0u8; 256];
    let n = adapter.encode_command(&cmd, &mut out);
    let msg = std::str::from_utf8(&out[..n]).unwrap();
    assert!(msg.starts_with("servoj(["));
    assert!(msg.contains("0.500000, -1.500000"));
    assert!(msg.ends_with("], 0, 0, 0.008, 0.05, 100)\n"));
}

#[test]
fn adapter_selection_matches_brand() {
    assert_eq!(adapter_for(RobotBrand::Kuka).brand(), RobotBrand::Kuka);
    assert_eq!(adapter_for(RobotBrand::UniversalRobots).brand(), RobotBrand::UniversalRobots);
    assert_eq!(adapter_for(RobotBrand::FrankaEmika).brand(), RobotBrand::FrankaEmika);
    assert_eq!(adapter_for(RobotBrand::Comau).brand(), RobotBrand::Comau);
    assert_eq!(adapter_for(RobotBrand::Amr).brand(), RobotBrand::Amr);
    assert_eq!(adapter_for(RobotBrand::Generic).brand(), RobotBrand::Generic);
}

#[test]
fn frame_strategies_are_consistent() {
    assert_eq!(
        adapter_for(RobotBrand::Kuka).frame_strategy(),
        FrameStrategy::Delimited { terminator: b"</Rob>" }
    );
    assert_eq!(
        adapter_for(RobotBrand::UniversalRobots).frame_strategy(),
        FrameStrategy::LengthPrefixed { header_bytes: 4 }
    );
    assert_eq!(
        adapter_for(RobotBrand::FrankaEmika).frame_strategy(),
        FrameStrategy::LengthPrefixed { header_bytes: 4 }
    );
    assert_eq!(
        adapter_for(RobotBrand::Comau).frame_strategy(),
        FrameStrategy::Delimited { terminator: b"\n" }
    );
    assert_eq!(
        adapter_for(RobotBrand::Amr).frame_strategy(),
        FrameStrategy::Fixed { bytes_per_joint: 4 }
    );
}

#[test]
fn what_follows_a_message_does_not_change_it() {
    let adapter = GenericBinary;
    let mut frame = Vec::new();
    for v in [1.0f32, 2.0, 3.0] {
        frame.extend_from_slice(&v.to_le_bytes());
    }
    let alone = adapter.decode_telemetry(&frame, 3);
    frame.extend_from_slice(b"more");
    assert_eq!(adapter.decode_telemetry(&frame, 3), alone);
}
