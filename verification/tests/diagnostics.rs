use sonny::diagnostics::atomic_health::{AtomicHealth, CycleMetric, ThreadBeat};
use sonny::diagnostics::frequency_enforcer::{
    compute_jitter, FrequencyEnforcer, JitterReport, LatestCommand, RealTimeControlLoop,
    RT_CONTROL_CORE, WASM_RUNTIME_CORE,
};
use sonny::diagnostics::telemetry_logger::TelemetryLogger;
use sonny::io_bridge::command_vector::CommandVector;
use sonny::io_bridge::state_vector::StateVector;
use sonny::io_bridge::watchdog_timer::Heartbeat;
use sonny::numeric::binary32::Binary32;
use sonny::numeric::binary64::Binary64;

fn num(x: f32) -> Binary32 {
    Binary32::from_bits(x.to_bits())
}

fn double(x: f64) -> Binary64 {
    Binary64::from_bits(x.to_bits())
}

fn command(values: &[f32]) -> CommandVector {
    let v: Vec<Binary32> = values.iter().map(|x| num(*x)).collect();
    CommandVector::from_slice(&v)
}

fn entries(c: &CommandVector) -> Vec<f32> {
    c.as_slice().iter().map(|x| f32::from_bits(x.to_bits())).collect()
}

fn payload(values: &[f32]) -> Vec<u8> {
    values.iter().flat_map(|v| v.to_le_bytes()).collect()
}

#[test]
fn metrics_track_last_max_avg_count() {
    let mut m = CycleMetric::new();
    m.record(100);
    m.record(300);
    m.record(200);
    let s = m.snapshot();
    assert_eq!(s.last_ns, 200);
    assert_eq!(s.max_ns, 300);
    assert_eq!(s.avg_ns, 200);
    assert_eq!(s.count, 3);
}

#[test]
fn a_metric_without_durations_is_zero() {
    let s = CycleMetric::new().snapshot();
    assert_eq!((s.last_ns, s.max_ns, s.avg_ns, s.count), (0, 0, 0, 0));
}

#[test]
fn thread_beat_reports_age_or_never() {
    let mut b = ThreadBeat::new();
    assert!(b.age_ms().is_none());
    b.ping();
    assert!(b.age_ms().is_some());
}

#[test]
fn thread_beat_counts_milliseconds() {
    let mut b = ThreadBeat::new();
    assert_eq!(b.age_at(Some(5_000_000)), None);
    b.ping_at(Some(2_000_000));
    assert_eq!(b.age_at(Some(9_999_999)), Some(7));
    assert_eq!(b.age_at(Some(2_000_000)), Some(0));
}

#[test]
fn the_health_line_is_written_in_place() {
    let health = AtomicHealth::new();
    let mut line = String::with_capacity(1024);
    line.push_str("what was there before");
    let place = line.as_ptr();
    health.render_line(&mut line);
    assert_eq!(line.as_ptr(), place);
    assert!(line.starts_with("[HEALTH] RT(core1): frame 0 us (max 0 us) | beat never"));
}

#[test]
fn render_line_contains_all_sections_without_panicking() {
    let mut health = AtomicHealth::new();
    health.sanitizer_cycle.0.record(42);
    health.wasm_thread_beat.0.ping();
    let mut line = String::new();
    health.render_line(&mut line);
    assert!(line.contains("[HEALTH]"));
    assert!(line.contains("RT(core1)"));
    assert!(line.contains("WASM(core2)"));
    assert!(line.contains("ZENOH"));
}

#[test]
fn empty_slot_falls_back_to_last_valid() {
    let mut buf = LatestCommand::new();
    let last = command(&[1.0, 2.0, 3.0]);
    let got = buf.take_or(last);
    assert_eq!(entries(&got), vec![1.0, 2.0, 3.0]);
    assert!(buf.take().is_none());
}

#[test]
fn published_command_is_consumed_once() {
    let mut buf = LatestCommand::new();
    buf.publish(command(&[0.5, -0.5]));
    assert_eq!(entries(&buf.take().unwrap()), vec![0.5, -0.5]);
    assert!(buf.take().is_none());
}

#[test]
fn newest_publish_wins_and_frees_previous() {
    let mut buf = LatestCommand::new();
    buf.publish(command(&[1.0]));
    buf.publish(command(&[2.0]));
    buf.publish(command(&[3.0]));
    assert_eq!(entries(&buf.take().unwrap()), vec![3.0]);
}

#[test]
fn a_slow_producer_leaves_the_command_in_force() {
    let mut buf = LatestCommand::new();
    let mut last = CommandVector::zeros(1);
    for i in 0..10_000 {
        if i % 3 == 0 {
            buf.publish(command(&[i as f32]));
        }
        let cmd = buf.take_or(last);
        assert_eq!(cmd.len, 1);
        assert_eq!(entries(&cmd), vec![(i - i % 3) as f32]);
        last = cmd;
    }
}

#[test]
fn analysis_reports_jitter_only_outside_window() {
    assert!(compute_jitter(10_000, 1_000, 10_000).is_none());
    assert!(compute_jitter(10_000, 1_000, 10_100).is_none());
    let report = compute_jitter(10_000, 1_000, 11_100).unwrap();
    assert_eq!(report.expected_us, 10_000);
    assert_eq!(report.diff_us, 1_100);
    assert_eq!(report.deviation_pct(), 11);
}

#[test]
fn jitter_at_the_edges_of_the_window() {
    assert!(compute_jitter(10_000, 1_000, 11_000).is_none());
    assert!(compute_jitter(10_000, 1_000, 9_000).is_none());
    let late = compute_jitter(10_000, 1_000, 11_001).unwrap();
    assert_eq!(late.measured_us, 11_001);
    assert_eq!(late.diff_us, 1_001);
    let early = compute_jitter(10_000, 1_000, 8_999).unwrap();
    assert_eq!(early.diff_us, 1_001);
}

#[test]
fn jitter_in_milliseconds_and_percent() {
    let report = JitterReport { expected_us: 10_000, measured_us: 18_000, diff_us: 8_000 };
    assert_eq!(f64::from_bits(report.jitter_ms().to_bits()), 8.0);
    assert_eq!(report.deviation_pct(), 80);
    let odd = JitterReport { expected_us: 0, measured_us: 3, diff_us: 3 };
    assert_eq!(odd.deviation_pct(), 0);
    assert_eq!(f64::from_bits(odd.jitter_ms().to_bits()), 3.0 / 1000.0);
}

#[test]
fn the_period_follows_the_frequency() {
    for hz in [100.0, 500.0, 1000.0, 3.0, 0.5] {
        let e = FrequencyEnforcer::new("R", double(hz), 7);
        assert_eq!(e.expected_interval_us, (1_000_000.0 / hz) as u64);
        assert_eq!(e.max_jitter_us, 7);
        assert_eq!(e.hardware_id, "R");
    }
}

#[test]
fn the_first_frame_is_not_measured() {
    let e = FrequencyEnforcer::new("R", double(100.0), 1_000);
    assert!(e.observe(None).is_none());
    assert!(e.observe(Some(10_500)).is_none());
    assert_eq!(e.observe(Some(12_000)).unwrap().diff_us, 2_000);
}

#[test]
fn the_control_loop_publishes_safe_commands() {
    let limits = vec![(num(-1.0), num(1.0)), (num(-1.0), num(1.0))];
    let mut rt = RealTimeControlLoop::new("R", 2, limits, double(100.0), 1_000);
    let mut buf = LatestCommand::new();
    let mut heart = Heartbeat::new();
    assert_eq!(rt.period_ms(), 10);
    assert_eq!(rt.tick(&mut buf, &mut heart).payload, payload(&[0.0, 0.0]));
    buf.publish(command(&[5.0, f32::NAN]));
    let m = rt.tick(&mut buf, &mut heart);
    assert_eq!(m.topic, "alpha/cmd/R");
    assert_eq!(m.payload, payload(&[1.0, 0.0]));
    assert!(buf.take().is_none());
    assert_eq!(rt.tick(&mut buf, &mut heart).payload, payload(&[1.0, 0.0]));
    assert!(heart.age_ms() <= 1_000);
    rt.tick_at(&mut buf, &mut heart, 77);
    assert_eq!(heart.age_at(80), 3);
}

#[test]
fn the_loops_have_cores_of_their_own() {
    assert_ne!(RT_CONTROL_CORE, WASM_RUNTIME_CORE);
}

#[test]
fn a_state_is_logged_as_one_line() {
    let log = TelemetryLogger::new("/tmp/states.log");
    assert_eq!(log.file_path, "/tmp/states.log");
    let mut state = StateVector::new("ARM", &[]);
    state.set_values_at(&[num(0.5), num(-1.25)], 1_234);
    let numbers = vec![format!("{:?}", 0.5f32), format!("{:?}", -1.25f32)];
    assert_eq!(
        log.log_line(&state, &numbers),
        format!(
            "{{\"timestamp\":{},\"hardware\":\"{}\",\"values\":{:?}}}\n",
            1_234,
            "ARM",
            [0.5f32, -1.25]
        )
    );
    state.set_values_at(&[], 7);
    assert_eq!(
        log.log_line(&state, &vec![]),
        "{\"timestamp\":7,\"hardware\":\"ARM\",\"values\":[]}\n"
    );
}
