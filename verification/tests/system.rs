use sonny::chaos::chaos_test::{
    build_register_names, frame_survives_radio, frame_wait_us, tolerance_us, ChaosRun, Failure,
    FrameResult, FrameTiming, CORRUPT_FRAME, FRAMES, JITTER_FRAME,
};
use sonny::diagnostics::atomic_health::{CycleSnapshot, HealthSnapshot};
use sonny::diagnostics::frequency_enforcer::LatestCommand;
use sonny::diagnostics::terminal_ui::{joint_bar, tail_matches, JointView, TerminalUi, UiState};
use sonny::io_bridge::hal_loader::{GripperConfig, HardwareConfig, JointConfig};
use sonny::mocks::virtual_hardware_mock::VirtualHardwareMock;
use sonny::numeric::binary32::Binary32;
use sonny::numeric::binary64::Binary64;
use sonny::registry::wasm_runner::{evaluate_reward, run_skill, skill_command};
use sonny::ros2_bridge::topic_converter::{fieldbus_parse_modbus_frame, is_well_formed};
use sonny::system::rt_thread::{first_call, pin_critical_thread, PinAnswer, PinCall, PinReport};
use std::time::{Duration, Instant};

fn num(x: f32) -> Binary32 {
    Binary32::from_bits(x.to_bits())
}

fn val(x: Binary32) -> f32 {
    f32::from_bits(x.to_bits())
}

fn double(x: f64) -> Binary64 {
    Binary64::from_bits(x.to_bits())
}

fn nums(values: &[f32]) -> Vec<Binary32> {
    values.iter().map(|x| num(*x)).collect()
}

fn payload(values: &[f32]) -> Vec<u8> {
    values.iter().flat_map(|v| v.to_le_bytes()).collect()
}

fn joint(name: &str, limit: f32) -> JointConfig {
    JointConfig {
        name: name.to_string(),
        min_angle_rad: num(-limit),
        max_angle_rad: num(limit),
        max_speed_rad_s: num(3.14),
        home_angle_rad: num(0.0),
        gear_ratio: num(1.0),
        max_accel_rad_s2: None,
        max_jerk_rad_s3: None,
    }
}

fn hybrid() -> HardwareConfig {
    let names = [
        ("shoulder_pan", 3.1416),
        ("shoulder_lift", 2.3562),
        ("elbow", 2.3562),
        ("wrist_1", 3.1416),
        ("wrist_2", 3.1416),
        ("wrist_3", 3.1416),
        ("wheel_left", 6.2832),
        ("wheel_right", 6.2832),
        ("caster_1", 6.2832),
        ("caster_2", 6.2832),
    ];
    HardwareConfig {
        robot_name: "HYBRID-AMR-PICKING-6DOF".to_string(),
        manufacturer: "Alpha Robotics".to_string(),
        dof: 10,
        expected_hz: double(100.0),
        max_jitter_us: 1500,
        joints: names.iter().map(|(n, l)| joint(n, *l)).collect(),
        kinematic_chain: vec![],
        fieldbus: None,
        brand: Some("GENERIC".to_string()),
        gripper: Some(GripperConfig {
            pressure_slot: 6,
            min_pressure_n: num(0.0),
            max_pressure_n: num(100.0),
            nominal_grip_n: num(28.0),
        }),
    }
}

#[test]
fn three_of_ten_frames_get_through() {
    let through: Vec<usize> = (1..=FRAMES).filter(|f| frame_survives_radio(*f)).collect();
    assert_eq!(through, vec![1, 8, 10]);
    assert_eq!(frame_wait_us(JITTER_FRAME), 18_000);
    assert_eq!(frame_wait_us(1), 10_000);
    assert_eq!(tolerance_us(), 1_500);
}

#[test]
fn the_pressure_register_stands_at_its_slot() {
    let names = build_register_names(&hybrid());
    assert_eq!(names.len(), 11);
    assert_eq!(names[5], "wrist_3");
    assert_eq!(names[6], "grip_pressure");
    assert_eq!(names[7], "wheel_left");
    let mut plain = hybrid();
    plain.gripper = None;
    assert_eq!(build_register_names(&plain).len(), 10);
}

#[test]
fn the_stress_test_passes_without_hardware() {
    let mut run = ChaosRun::new(&hybrid()).ok().unwrap();
    assert!(run.is_simulable());
    let topic = "alpha/telemetry/HYBRID-AMR-PICKING-6DOF";
    for frame in 1..=FRAMES {
        match run.assess(frame_wait_us(frame)) {
            FrameTiming::Jitter(report) => {
                assert_eq!(frame, JITTER_FRAME);
                assert_eq!(report.diff_us, 8_000);
            }
            FrameTiming::OnTime => assert_ne!(frame, JITTER_FRAME),
            FrameTiming::Drift { .. } => panic!("frame {}", frame),
        }
        let out = match run.run_frame(frame) {
            FrameResult::Lost { response_us } => {
                assert!(!frame_survives_radio(frame));
                assert!(response_us <= run.worst_failsafe_us);
                assert!(run.failsafe.is_engaged());
                assert_eq!(val(run.failsafe.held_grip_n()), 28.0);
                continue;
            }
            FrameResult::Passed(out) => out,
        };
        let pressure = if frame == CORRUPT_FRAME { 100.0 } else { 28.0 };
        assert_eq!(val(out.raw_pressure), if frame == CORRUPT_FRAME { 120.5 } else { 28.0 });
        assert_eq!(val(out.clean_pressure), pressure);
        assert_eq!(out.anomaly, frame == CORRUPT_FRAME);
        assert_eq!(out.healthy, frame != CORRUPT_FRAME);
        assert_eq!(out.message.topic, topic);
        assert_eq!(
            out.message.payload,
            payload(&[0.0, -1.5708, 1.5708, 0.0, 0.0, 0.0, pressure, 0.0, 0.0, 0.0, 0.0])
        );
        assert_eq!(run.close_frame(true), frame != 1);
        assert!(!run.failsafe.is_engaged());
    }
    assert_eq!(run.lost_frames, 7);
    assert_eq!(run.failsafe.interventions(), 7);
    assert_eq!(run.published_frames, 3);
    assert_eq!(run.published_bytes, 132);
    assert_eq!(run.sanitized_anomalies, 1);
    run.worst_failsafe_us = 1_999;
    assert!(run.verdict().is_ok());
    run.worst_failsafe_us = 2_000;
    assert_eq!(
        run.verdict().unwrap_err(),
        "TEST FAILED: failsafe beyond the 2 ms deadline"
    );
}

#[test]
fn a_test_that_did_not_run_fails_for_every_reason_but_time() {
    let run = ChaosRun::new(&hybrid()).ok().unwrap();
    assert_eq!(run.enforcer.hardware_id, "HYBRID-AMR-PICKING-6DOF");
    assert_eq!(run.failsafe.last_response_us, 0);
    assert!(run.state.values.iter().all(|x| x.to_bits() == 0));
    assert_eq!(
        run.verdict().unwrap_err(),
        "TEST FAILED: Zenoh round-trip failed, no failsafe intervention recorded, no anomaly sanitized"
    );
    assert_eq!(Failure::RoundTrip.label(), "Zenoh round-trip failed");
    match run.assess(11_200) {
        FrameTiming::Drift { late_us } => assert_eq!(late_us, 1_200),
        other => panic!("{:?}", other),
    }
}

#[test]
fn a_machine_without_its_pressure_register_cannot_be_simulated() {
    let mut run = ChaosRun::new(&hybrid()).ok().unwrap();
    run.limits.truncate(6);
    assert!(!run.is_simulable());
    let mut config = hybrid();
    config.joints[3].min_angle_rad = num(4.0);
    assert!(!ChaosRun::new(&config).ok().unwrap().is_simulable());
}

#[test]
fn the_stress_test_needs_a_gripper() {
    let mut config = hybrid();
    config.gripper = None;
    assert_eq!(
        ChaosRun::new(&config).err().unwrap(),
        "HAL JSON without `gripper` section: impossible to inject the pressure anomaly"
    );
}

#[test]
fn a_simulated_robot_follows_its_commands() {
    let mock = VirtualHardwareMock::new("SIM", 2);
    assert!(mock.fieldbus.is_none());
    let mut sim = mock.simulation();
    let waves = nums(&[0.25, -0.25]);
    let (m, _) = sim.tick(&waves);
    assert_eq!(m.topic, "alpha/telemetry/SIM");
    assert_eq!(m.payload, payload(&[0.25, -0.25]));
    assert!(sim.on_command(&payload(&[1.0, 2.0])));
    let (m, _) = sim.tick(&waves);
    let first = 0.0f32 + (1.0 - 0.0) * 0.2;
    let second = 0.0f32 + (2.0 - 0.0) * 0.2;
    assert_eq!(m.payload, payload(&[first, second]));
    let (m, _) = sim.tick(&waves);
    let next = [first + (1.0 - first) * 0.2, second + (2.0 - second) * 0.2];
    assert_eq!(m.payload, payload(&next));
    assert!(!sim.on_command(&[1, 2, 3]));
}

#[test]
fn a_simulation_reports_its_status_every_hundred_frames() {
    let mut sim = VirtualHardwareMock::new("SIM", 1).simulation();
    let waves = nums(&[0.5]);
    for frame in 1..=200 {
        let (_, status) = sim.tick(&waves);
        assert_eq!(status.is_some(), frame % 100 == 0);
        if let Some(m) = status {
            let text = String::from_utf8(m.payload).unwrap();
            assert!(text.contains(&format!("\"frames\":{}", frame)));
        }
    }
}

#[test]
fn a_stopped_simulation_reports_zero() {
    let mut sim = VirtualHardwareMock::new("SIM", 2).simulation();
    let waves = nums(&[0.25, -0.25]);
    let status = sim.on_estop(&[1]).unwrap();
    assert_eq!(status.topic, "alpha/status/SIM");
    assert_eq!(
        std::str::from_utf8(&status.payload).unwrap(),
        "{\"estop\":true,\"frames\":0,\"online\":true,\"transport\":\"SIMULATED\"}"
    );
    let (m, _) = sim.tick(&waves);
    assert_eq!(m.payload, payload(&[0.0, 0.0]));
    assert!(sim.on_estop(&[0]).is_some());
    let (m, _) = sim.tick(&waves);
    assert_eq!(m.payload, payload(&[0.25, -0.25]));
}

#[test]
fn a_skill_is_rewarded_by_the_length_of_its_code() {
    assert_eq!(val(evaluate_reward(&[])), 0.0);
    assert_eq!(val(evaluate_reward(&[1])), -1.0);
    assert_eq!(val(evaluate_reward(&[1, 2])), 1.0);
    assert_eq!(val(evaluate_reward(&[1, 2, 3])), 0.0);
    assert_eq!(skill_command(&[1, 2]).as_slice(), &nums(&[1.0, -1.0, 0.5])[..]);
    let mut slot = LatestCommand::new();
    run_skill(&[1], &mut slot);
    assert_eq!(slot.take().unwrap().as_slice(), &nums(&[-1.0, 1.0, -0.5])[..]);
}

#[test]
fn register_frames_become_numbers() {
    assert_eq!(fieldbus_parse_modbus_frame(&[1, 2]), vec![0u8; 16]);
    assert_eq!(
        fieldbus_parse_modbus_frame(&[3, 5, 1, 2, 3, 4, 5, 9, 9]),
        vec![1, 2, 3, 4, 5, 0, 0, 0]
    );
    assert_eq!(fieldbus_parse_modbus_frame(&[4, 200, 1, 2]), vec![0u8; 16]);
    assert_eq!(
        fieldbus_parse_modbus_frame(&[16, 0, 0, 0, 2, 0, 4, 1, 0, 0, 7]),
        payload(&[256.0, 7.0])
    );
    assert_eq!(fieldbus_parse_modbus_frame(&[16, 0, 0, 0, 2, 0, 8, 1, 0]), vec![0u8; 16]);
    let mut other = vec![7u8; 20];
    other[0] = 1;
    assert_eq!(fieldbus_parse_modbus_frame(&other), other[..16].to_vec());
    assert!(is_well_formed(&[16, 0, 0]));
    assert!(!is_well_formed(&[16, 0, 0, 0]));
    assert!(!is_well_formed(&[16, 0, 0, 0, 0, 0, 1, 5]));
}

#[test]
fn a_thread_asks_for_a_core_and_for_priority() {
    assert_eq!(first_call(), PinCall::CountCores);
    assert_eq!(
        pin_critical_thread(1, PinAnswer::Cores(4)),
        (PinReport::Nothing, Some(PinCall::Confine { core: 1 }))
    );
    assert_eq!(pin_critical_thread(1, PinAnswer::Cores(0)), (PinReport::CoresUnknown, None));
    assert_eq!(
        pin_critical_thread(4, PinAnswer::Cores(4)),
        (PinReport::CoreUnavailable { online: 4 }, None)
    );
    for core in [i64::MAX as usize, i64::MAX as usize + 1, usize::MAX] {
        assert_eq!(
            pin_critical_thread(core, PinAnswer::Cores(8)),
            (PinReport::CoreUnavailable { online: 8 }, None)
        );
    }
    assert_eq!(pin_critical_thread(1, PinAnswer::Confined(-1)), (PinReport::AffinityRejected, None));
    assert_eq!(
        pin_critical_thread(1, PinAnswer::Confined(0)),
        (PinReport::Nothing, Some(PinCall::Confirm { core: 1 }))
    );
    assert_eq!(
        pin_critical_thread(1, PinAnswer::Confirmed { code: 0, contains: true }),
        (PinReport::AffinityConfirmed, Some(PinCall::PriorityRange))
    );
    assert_eq!(
        pin_critical_thread(1, PinAnswer::Confirmed { code: 0, contains: false }),
        (PinReport::AffinityNotConfirmed, Some(PinCall::PriorityRange))
    );
    assert_eq!(
        pin_critical_thread(1, PinAnswer::Priorities { min: -1, max: 99 }),
        (PinReport::PrioritiesUnknown, None)
    );
    assert_eq!(
        pin_critical_thread(1, PinAnswer::Priorities { min: 1, max: 99 }),
        (PinReport::Nothing, Some(PinCall::RealTime { priority: 99 }))
    );
    assert_eq!(
        pin_critical_thread(1, PinAnswer::RealTime { code: 0, priority: 99 }),
        (PinReport::RealTimeActive { priority: 99 }, None)
    );
    assert_eq!(
        pin_critical_thread(1, PinAnswer::RealTime { code: 1, priority: 99 }),
        (PinReport::Nothing, Some(PinCall::Niceness { value: -20 }))
    );
    assert_eq!(pin_critical_thread(1, PinAnswer::Niceness(0)), (PinReport::NicenessActive, None));
    assert_eq!(pin_critical_thread(1, PinAnswer::Niceness(-1)), (PinReport::NoPriority, None));
}

#[test]
fn the_health_line_is_laid_out() {
    let zero = CycleSnapshot { last_ns: 0, max_ns: 0, avg_ns: 0, count: 0 };
    let snapshot = HealthSnapshot {
        sanitizer: CycleSnapshot { last_ns: 42_000, max_ns: 43_000, avg_ns: 41_000, count: 3 },
        wasm: zero,
        rt_frame: zero,
        zenoh_tx: zero,
        zenoh_rx_frames: 5,
        zenoh_tx_errors: 6,
        rt_age_ms: None,
        wasm_age_ms: Some(12),
    };
    let mut line = String::from("stale");
    snapshot.render(&mut line);
    assert!(line.starts_with("[HEALTH]"), "{}", line);
    assert!(line.contains("12"));
    assert!(line.contains('5') && line.contains('6'));
}

fn ui() -> TerminalUi {
    TerminalUi::new(
        "ARM",
        double(100.0),
        vec!["base".to_string(), "elbow".to_string()],
        vec![(num(-1.0), num(1.0))],
    )
}

fn state() -> UiState {
    UiState::new(&vec!["base".to_string(), "elbow".to_string()], &vec![(num(-1.0), num(1.0))])
}

#[test]
fn a_bar_marks_the_place_of_a_joint() {
    let view = |value: f32, min: f32, max: f32| JointView {
        name: "j".to_string(),
        value: num(value),
        min: num(min),
        max: num(max),
    };
    assert_eq!(joint_bar(&view(-1.0, -1.0, 1.0)), "[X---------------]");
    assert_eq!(joint_bar(&view(9.0, -1.0, 1.0)), "[---------------X]");
    assert_eq!(joint_bar(&view(0.0, -1.0, 1.0)), "[--------X-------]");
    assert_eq!(joint_bar(&view(0.0, 1.0, 1.0)), "[]");
}

#[test]
fn telemetry_of_the_robot_moves_the_joints() {
    let ui = ui();
    let mut s = state();
    assert_eq!(ui.expected_interval_us(), 10_000);
    ui.on_telemetry(&mut s, "alpha/telemetry/OTHER", &payload(&[0.5, 0.5]));
    assert_eq!(s.frames, 0);
    ui.on_telemetry(&mut s, "alpha/telemetry/ARM", &payload(&[0.5, -0.25]));
    assert_eq!(s.frames, 1);
    assert_eq!(val(s.joints[0].value), 0.5);
    assert_eq!(val(s.joints[1].value), -0.25);
    assert!(tail_matches("alpha/telemetry/ARM", "ARM"));
    assert!(!tail_matches("alpha/telemetry/ARM/x", "ARM"));
    assert!(ui.takes_telemetry("alpha/telemetry/ARM", &payload(&[0.5])));
    assert!(!ui.takes_telemetry("alpha/telemetry/OTHER", &payload(&[0.5])));
    assert!(!ui.takes_telemetry("alpha/telemetry/ARM", &[1, 2]));
}

#[test]
fn the_interval_between_frames_is_measured() {
    let ui = ui();
    let mut s = state();
    ui.on_telemetry(&mut s, "alpha/telemetry/ARM", &payload(&[0.5]));
    assert_eq!(s.last_interval_us, None);
    let start = Instant::now();
    while start.elapsed() < Duration::from_millis(2) {}
    ui.on_telemetry(&mut s, "alpha/telemetry/ARM", &payload(&[0.25]));
    assert!(s.last_interval_us.unwrap() >= 2_000);
    assert_eq!(s.max_jitter_us, s.last_interval_us.unwrap());
    assert_eq!(val(s.joints[0].value), 0.25);
}

#[test]
fn a_status_report_is_read_back() {
    let ui = ui();
    let mut s = state();
    let mut sim = VirtualHardwareMock::new("ARM", 2).simulation();
    let m = sim.on_estop(&[1]).unwrap();
    ui.on_status(&mut s, &m.topic, &m.payload);
    assert!(s.online && s.estop);
    assert_eq!(s.transport, "SIMULATED");
    s.frames = 9;
    s.apply_status(b"{\"frames\":4,\"online\":\"yes\",\"estop\":false}");
    assert_eq!(s.frames, 9);
    assert!(s.online && !s.estop);
    s.apply_status(b"{\"frames\":40}");
    assert_eq!(s.frames, 40);
    s.apply_status(b"[1]");
    s.apply_status(b"no json");
    assert_eq!(s.frames, 40);
}

#[test]
fn the_newest_warnings_are_kept() {
    let mut s = state();
    for i in 0..12 {
        s.push_warning(format!("w{}", i));
    }
    assert_eq!(s.warnings.len(), 8);
    assert_eq!(s.warnings[0], "w11");
    assert_eq!(s.warnings[7], "w4");
}

#[test]
fn an_anomalous_interval_is_a_warning() {
    let mut s = state();
    s.note_interval(10_500, 10_000);
    assert!(s.warnings.is_empty());
    assert_eq!(s.last_interval_us, Some(10_500));
    s.note_interval(40_000, 10_000);
    assert_eq!(s.warnings[0], "Jitter anomalo: intervallo 40000 us (atteso ~10000 us)");
}

#[test]
fn the_dashboard_shows_the_robot() {
    let ui = ui();
    let mut s = state();
    let quiet = ui.render(&s);
    assert!(quiet.contains(" HARDWARE NODE:    ARM\n"));
    assert!(quiet.contains("OFFLINE"));
    assert!(quiet.contains(" NESSUN ALLARME\n"));
    s.show_simulated(&nums(&[0.5]), 10_000);
    s.push_warning("hot".to_string());
    let busy = ui.render(&s);
    assert!(busy.contains("ONLINE"));
    assert!(busy.contains("[CHAOS-SIM]"));
    assert!(busy.contains(" TELEMETRY RATE:   100.0 Hz (atteso 100.0) | intervallo 10.00 ms | jitter max 10.00 ms\n"));
    assert!(busy.contains(" FRAMES RICEVUTI:  1\n"));
    assert!(busy.contains(" base            +0.500 rad  [-----------X----]\n"));
    assert!(busy.contains(" [WARN] hot\n"));
    s.estop = true;
    assert!(ui.render(&s).contains("ESTOP"));
}
