use sonny::io_bridge::command_vector::{CommandVector, MAX_JOINTS};
use sonny::io_bridge::failsafe::FailsafeGuard;
use sonny::io_bridge::jerk_limiter::JerkLimiter;
use sonny::io_bridge::state_vector::StateVector;
use sonny::io_bridge::vector_sanitizer::VectorSanitizer;
use sonny::io_bridge::watchdog_timer::{
    HardWatchdog, Heartbeat, WatchdogAction, WatchdogConfig, DEFAULT_CHECK_INTERVAL_MS,
    DEFAULT_HEARTBEAT_TIMEOUT_MS, DEFAULT_REASSERT_INTERVAL_MS,
};
use sonny::numeric::binary32::Binary32;
use std::time::{Duration, Instant};

const DT: f32 = 0.01;

fn num(x: f32) -> Binary32 {
    Binary32::from_bits(x.to_bits())
}

fn val(x: Binary32) -> f32 {
    f32::from_bits(x.to_bits())
}

fn nums(values: &[f32]) -> Vec<Binary32> {
    values.iter().map(|x| num(*x)).collect()
}

fn command(values: &[f32]) -> CommandVector {
    CommandVector::from_slice(&nums(values))
}

fn entries(c: &CommandVector) -> Vec<f32> {
    c.as_slice().iter().map(|x| val(*x)).collect()
}

fn ranges(values: &[(f32, f32)]) -> Vec<(Binary32, Binary32)> {
    values.iter().map(|r| (num(r.0), num(r.1))).collect()
}

#[test]
fn blackout_holds_last_stable_pressure() {
    let mut failsafe = FailsafeGuard::new(2, num(28.0), num(100.0));
    let state = StateVector::new("T", &nums(&[1.0, 2.0, 28.0, 4.0]));
    failsafe.snapshot_healthy(&state);

    failsafe.on_blackout();
    let mut cmd = command(&[99.0, 99.0, 99.0, 99.0]);
    let us = failsafe.enforce(&mut cmd);
    assert!(us < 2000, "failsafe beyond 2ms: {}us", us);
    assert_eq!(entries(&cmd), vec![1.0, 2.0, 28.0, 4.0]);
    assert!(failsafe.is_engaged());
    assert_eq!(val(failsafe.held_grip_n()), 28.0);
    assert_eq!(failsafe.interventions(), 1);
}

#[test]
fn healthy_frames_do_not_intervene() {
    let mut failsafe = FailsafeGuard::new(0, num(28.0), num(100.0));
    let mut cmd = command(&[1.0, 2.0]);
    let us = failsafe.enforce(&mut cmd);
    assert_eq!(entries(&cmd), vec![1.0, 2.0]);
    assert_eq!(failsafe.interventions(), 0);
    assert_eq!(failsafe.blackout_frames(), 0);
    assert!(us < 2000);
}

#[test]
fn disengage_stops_hold() {
    let mut failsafe = FailsafeGuard::new(0, num(28.0), num(100.0));
    failsafe.on_blackout();
    failsafe.disengage();
    let mut cmd = command(&[5.0]);
    failsafe.enforce(&mut cmd);
    assert_eq!(entries(&cmd), vec![5.0]);
    assert!(!failsafe.is_engaged());
}

#[test]
fn the_held_pressure_stays_within_its_limits() {
    let mut failsafe = FailsafeGuard::new(1, num(150.0), num(100.0));
    assert_eq!(val(failsafe.held_grip_n()), 100.0);
    failsafe.snapshot_healthy(&StateVector::new("T", &nums(&[0.5, -3.0])));
    assert_eq!(val(failsafe.held_grip_n()), 0.0);
    failsafe.on_blackout();
    let mut cmd = command(&[9.0, 9.0, 9.0]);
    failsafe.hold(&mut cmd);
    assert_eq!(entries(&cmd), vec![0.5, 0.0, 0.0]);
    assert_eq!(failsafe.blackout_frames(), 1);
    assert_eq!(failsafe.last_response_us(), 0);
}

#[test]
fn nan_replaced_with_last_safe_value() {
    let mut sanitizer = VectorSanitizer::new();
    let limits = ranges(&[(0.0, 1.0), (0.0, 1.0), (0.0, 1.0)]);
    let mut cmd = command(&[0.5, f32::NAN, 2.0]);
    sanitizer.sanitize_and_clamp(&mut cmd, &limits);
    assert_eq!(entries(&cmd), vec![0.5, 0.0, 1.0]);
}

#[test]
fn infinite_restores_previous_tick_value() {
    let mut sanitizer = VectorSanitizer::new();
    let limits = ranges(&[(-1.0, 1.0)]);

    let mut ok = command(&[0.7]);
    sanitizer.sanitize_and_clamp(&mut ok, &limits);
    assert_eq!(entries(&ok), vec![0.7]);

    let mut bad = command(&[f32::INFINITY]);
    sanitizer.sanitize_and_clamp(&mut bad, &limits);
    assert_eq!(entries(&bad), vec![0.7]);
}

#[test]
fn newest_safe_value_is_the_reference() {
    let mut sanitizer = VectorSanitizer::new();
    let limits = ranges(&[(-1.0, 1.0)]);

    let mut a = command(&[0.3]);
    sanitizer.sanitize_and_clamp(&mut a, &limits);

    let mut b = command(&[-0.9]);
    sanitizer.sanitize_and_clamp(&mut b, &limits);

    let mut bad = command(&[f32::NAN]);
    sanitizer.sanitize_and_clamp(&mut bad, &limits);
    assert_eq!(entries(&bad), vec![-0.9]);
}

#[test]
fn clamps_out_of_range_values() {
    let mut sanitizer = VectorSanitizer::new();
    let limits = ranges(&[(-2.0, 2.0), (0.0, 1.0)]);
    let mut cmd = command(&[10.0, -5.0]);
    sanitizer.sanitize_and_clamp(&mut cmd, &limits);
    assert_eq!(entries(&cmd), vec![2.0, 0.0]);
}

#[test]
fn missing_limits_pass_through() {
    let mut sanitizer = VectorSanitizer::new();
    let mut cmd = command(&[42.0, -42.0]);
    sanitizer.sanitize_and_clamp(&mut cmd, &[]);
    assert_eq!(entries(&cmd), vec![42.0, -42.0]);
}

#[test]
fn sanitizing_twice_changes_nothing() {
    let mut sanitizer = VectorSanitizer::new();
    let limits = ranges(&[(-1.0, 1.0)]);
    let mut cmd = command(&[f32::NEG_INFINITY, 3.5, f32::NAN]);
    sanitizer.sanitize_and_clamp(&mut cmd, &limits);
    let once = entries(&cmd);
    assert_eq!(once, vec![0.0, 3.5, 0.0]);
    sanitizer.sanitize_and_clamp(&mut cmd, &limits);
    assert_eq!(entries(&cmd), once);
}

fn limiter(vel: &[f32], acc: &[f32], jerk: &[f32]) -> JerkLimiter {
    let mut lim = JerkLimiter::new(num(DT));
    lim.set_limits(&nums(vel), &nums(acc), &nums(jerk));
    lim
}

#[test]
fn passes_through_without_limits() {
    let mut lim = JerkLimiter::new(num(DT));
    let mut cmd = command(&[0.7, -0.2]);
    lim.limit(&mut cmd, &[]);
    assert!((val(cmd.target_actuators[0]) - 0.7).abs() < 1e-4);
    assert!((val(cmd.target_actuators[1]) + 0.2).abs() < 1e-4);
}

#[test]
fn a_joint_without_motion_limits_stays_finite() {
    let mut lim = JerkLimiter::new(num(DT));
    let limits = ranges(&[(-65536.0, 65536.0)]);
    for k in 0..200 {
        let target = if k % 2 == 0 { 65536.0 } else { -65536.0 };
        let mut cmd = command(&[target]);
        lim.limit(&mut cmd, &limits);
        assert!(val(cmd.target_actuators[0]).abs() <= 65536.0);
        assert!(val(lim.prev_vel[0]).abs() <= 1.1e12);
        assert!(val(lim.prev_acc[0]).is_finite());
    }
}

#[test]
fn a_free_joint_is_commanded_to_the_target() {
    let mut lim = JerkLimiter::new(num(DT));
    let mut position = 0.0f64;
    let mut velocity = 0.0f64;
    for target in [0.7f32, -0.2, 3.1415927, 3.0, -1000.5, 65536.0, 0.0] {
        let mut cmd = command(&[target]);
        lim.limit(&mut cmd, &[]);
        let reached = val(cmd.target_actuators[0]) as f64;
        let t = target as f64;
        let bound = 2.0 * t.abs() + 11.0 * (t - position).abs() + 7.0 * velocity.abs() * DT as f64;
        assert!((reached - t).abs() <= bound / 16777216.0 + 1e-30);
        position = reached;
        velocity = val(lim.prev_vel[0]) as f64;
    }
}

#[test]
fn braking_starts_in_time() {
    let mut lim = limiter(&[10.0], &[2.0], &[]);
    let mut previous = 0.0f64;
    for _ in 0..4000 {
        let mut cmd = command(&[1.0]);
        lim.limit(&mut cmd, &[]);
        let q = val(cmd.target_actuators[0]) as f64;
        let stopping = (2.0 * 2.0 * (1.0 - previous).abs()).sqrt();
        assert!(val(lim.prev_vel[0]) as f64 <= stopping + 2.0 * DT as f64);
        previous = q;
    }
    assert!((previous - 1.0).abs() < 1e-2);
}

#[test]
fn geometric_limits_are_respected() {
    let mut lim = JerkLimiter::new(num(DT));
    let mut cmd = command(&[5.0]);
    lim.limit(&mut cmd, &ranges(&[(-1.0, 1.0)]));
    assert!((val(cmd.target_actuators[0]) - 1.0).abs() < 1e-6);
}

#[test]
fn velocity_is_bounded() {
    let mut lim = limiter(&[1.0], &[], &[]);

    let mut cmd = command(&[1000.0]);
    lim.limit(&mut cmd, &[]);
    assert!((val(cmd.target_actuators[0]) - 1.0 * DT).abs() < 1e-6);

    let mut cmd = command(&[1000.0]);
    lim.limit(&mut cmd, &[]);
    assert!((val(cmd.target_actuators[0]) - 2.0 * DT).abs() < 1e-6);
}

#[test]
fn acceleration_is_bounded() {
    let mut lim = limiter(&[], &[5.0], &[]);

    let mut cmd = command(&[1000.0]);
    lim.limit(&mut cmd, &[]);
    let q1 = val(cmd.target_actuators[0]);
    assert!((q1 - 5.0 * DT * DT).abs() < 1e-8);

    let mut cmd = command(&[1000.0]);
    lim.limit(&mut cmd, &[]);
    let q2 = val(cmd.target_actuators[0]);
    let implied_a = (q2 - 2.0 * q1) / (DT * DT);
    assert!((implied_a - 5.0).abs() < 1e-3);
}

#[test]
fn jerk_is_bounded() {
    let mut lim = limiter(&[], &[100.0], &[100.0]);

    let mut pos = Vec::with_capacity(200);
    let mut cmd = command(&[1.0]);
    for _ in 0..200 {
        cmd.target_actuators[0] = num(1.0);
        lim.limit(&mut cmd, &[]);
        pos.push(val(cmd.target_actuators[0]));
    }

    let mut max_jerk = 0.0f32;
    for k in 3..pos.len() {
        let a_n = (pos[k] - 2.0 * pos[k - 1] + pos[k - 2]) / (DT * DT);
        let a_p = (pos[k - 1] - 2.0 * pos[k - 2] + pos[k - 3]) / (DT * DT);
        let jerk = (a_n - a_p).abs() / DT;
        max_jerk = max_jerk.max(jerk);
    }
    assert!(max_jerk <= 100.0 * 1.05, "jerk {:.3} exceeds the limit", max_jerk);
}

#[test]
fn step_response_does_not_overshoot() {
    let mut lim = limiter(&[2.0], &[10.0], &[100.0]);

    let mut max_pos = 0.0f32;
    let mut cmd = command(&[1.0]);
    for _ in 0..2000 {
        cmd.target_actuators[0] = num(1.0);
        lim.limit(&mut cmd, &[]);
        max_pos = max_pos.max(val(cmd.target_actuators[0]));
    }
    assert!(max_pos <= 1.0 + 1e-3, "overshoot {:.4}", max_pos);
}

#[test]
fn converges_to_target_smoothly() {
    let mut lim = limiter(&[2.0], &[10.0], &[100.0]);

    let mut cmd = command(&[1.0]);
    for _ in 0..500 {
        cmd.target_actuators[0] = num(1.0);
        lim.limit(&mut cmd, &[]);
    }
    assert!((val(cmd.target_actuators[0]) - 1.0).abs() < 1e-3);
}

#[test]
fn a_period_that_is_not_positive_becomes_ten_milliseconds() {
    assert_eq!(val(JerkLimiter::new(num(0.0)).dt), 0.01);
    assert_eq!(val(JerkLimiter::new(num(-1.0)).dt), 0.01);
    assert_eq!(val(JerkLimiter::new(num(f32::NAN)).dt), 0.01);
    assert_eq!(val(JerkLimiter::new(num(0.002)).dt), 0.002);
}

#[test]
fn limits_must_not_be_negative_to_be_usable() {
    assert!(limiter(&[1.0], &[1.0], &[1.0]).is_usable(0));
    assert!(!limiter(&[-1.0], &[], &[]).is_usable(0));
    assert!(limiter(&[], &[f32::NAN], &[]).is_usable(0));
    assert!(!limiter(&[], &[], &[-5.0]).is_usable(0));
    assert!(limiter(&[-1.0], &[], &[]).is_usable(1));
}

#[test]
fn defaults_match_spec() {
    let cfg = WatchdogConfig::default();
    assert_eq!(cfg.heartbeat_timeout_ms, DEFAULT_HEARTBEAT_TIMEOUT_MS);
    assert_eq!(cfg.check_interval_ms, DEFAULT_CHECK_INTERVAL_MS);
    assert_eq!(cfg.reassert_interval_ms, DEFAULT_REASSERT_INTERVAL_MS);
}

#[test]
fn heartbeat_ages_when_silent_and_resets_on_ping() {
    let mut hb = Heartbeat::new();
    hb.ping();
    assert!(hb.age_ms() <= 1);

    let start = Instant::now();
    while start.elapsed() < Duration::from_millis(15) {}
    let age = hb.age_ms();
    assert!(age >= 15, "heartbeat must age: age {}", age);

    hb.ping();
    assert!(hb.age_ms() <= 1, "ping must reset the age");
}

#[test]
fn heartbeat_age_is_the_time_since_the_ping() {
    let mut hb = Heartbeat::new();
    hb.ping_at(1_000);
    assert_eq!(hb.age_at(1_012), 12);
    assert_eq!(hb.age_at(999), 0);
    assert_eq!(Heartbeat::new_at(1_000).age_at(1_012), 12);
}

#[test]
fn zero_vector_is_encoded_as_all_zero_bytes() {
    let cmd = CommandVector::zeros(3);
    let mut buf = [0u8; MAX_JOINTS * 4];
    let n = cmd.write_to(&mut buf);
    assert_eq!(&buf[..n], &[0u8; 12][..]);
}

fn watchdog() -> HardWatchdog {
    HardWatchdog::new("ARM", 3, WatchdogConfig::default())
}

#[test]
fn silence_zeroes_the_drives_and_latches_the_stop() {
    let mut w = watchdog();
    assert_eq!(w.check(10, 0), WatchdogAction::Watch);
    let action = w.check(11, 0);
    assert_eq!(action, WatchdogAction::Intervene);
    assert!(w.is_tripped());
    assert_eq!(w.trips(), 1);
    let m = w.messages(action);
    assert_eq!(m.len(), 3);
    assert_eq!(m[0].topic, "alpha/cmd/ARM");
    assert_eq!(m[0].payload, vec![0u8; 12]);
    assert_eq!(m[1].topic, "alpha/cmd/ARM/estop");
    assert_eq!(m[1].payload, vec![1u8]);
    assert_eq!(m[2].topic, "alpha/watchdog/status/ARM");
    let text = std::str::from_utf8(&m[2].payload).unwrap();
    assert_eq!(
        text,
        "{\"hardware_id\":\"ARM\",\"timeout_ms\":10,\"tripped\":true,\"trips\":1}"
    );
}

#[test]
fn zero_is_commanded_again_while_the_silence_lasts() {
    let mut w = watchdog();
    w.check(20, 0);
    assert_eq!(w.check(25, 9), WatchdogAction::Watch);
    let action = w.check(30, 10);
    assert_eq!(action, WatchdogAction::Reassert);
    assert_eq!(w.trips(), 1);
    let m = w.messages(action);
    assert_eq!(m.len(), 1);
    assert_eq!(m[0].payload, vec![0u8; 12]);
}

#[test]
fn a_beat_releases_the_stop() {
    let mut w = watchdog();
    w.check(20, 0);
    let action = w.check(3, 0);
    assert_eq!(action, WatchdogAction::Release);
    assert!(!w.is_tripped());
    let m = w.messages(action);
    assert_eq!(m.len(), 1);
    assert_eq!(m[0].topic, "alpha/cmd/ARM/estop");
    assert_eq!(m[0].payload, vec![0u8]);
    assert_eq!(w.check(3, 0), WatchdogAction::Watch);
    assert_eq!(w.check(11, 0), WatchdogAction::Intervene);
    assert_eq!(w.trips(), 2);
}

#[test]
fn the_watchdog_ends_without_a_latched_stop() {
    let mut quiet = watchdog();
    quiet.shutdown();
    let action = quiet.check(0, 0);
    assert_eq!(action, WatchdogAction::Halt);
    assert_eq!(quiet.messages(action).len(), 0);

    let mut tripped = watchdog();
    tripped.check(20, 0);
    tripped.shutdown();
    let action = tripped.check(20, 0);
    assert_eq!(action, WatchdogAction::ReleaseAndHalt);
    assert_eq!(tripped.messages(action)[0].payload, vec![0u8]);
    assert!(!tripped.is_tripped());
}
