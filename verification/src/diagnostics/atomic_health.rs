//! Health probe of the isolated threads and the bus.
//!
//! Every isolated core writes its own timings and beats; the operator's command reads
//! all of them and prints one line.

use crate::system::clock::{cut, low_bits, nanos_since_epoch};
use crate::text::{lemma_brackets, lemma_grows, number_text, occurs, push_number};
use vstd::prelude::*;
use vstd::string::*;

verus! {

/// Keeps the counters of one core together.
#[derive(Debug)]
pub struct CachePadded<T>(pub T);

/// Timings of one cycle, in nanoseconds.
#[derive(Debug)]
pub struct CycleMetric {
    pub last_ns: u64,
    pub max_ns: u64,
    pub total_ns: u64,
    pub count: u64,
}

/// What an operator sees of a `CycleMetric`.
#[derive(Debug, Clone, Copy)]
pub struct CycleSnapshot {
    pub last_ns: u64,
    pub max_ns: u64,
    pub avg_ns: u64,
    pub count: u64,
}

impl CycleMetric {
    pub open spec fn zero(self) -> bool {
        self.last_ns == 0 && self.max_ns == 0 && self.total_ns == 0 && self.count == 0
    }

    pub fn new() -> (m: CycleMetric)
        ensures
            m.zero(),
    {
        CycleMetric { last_ns: 0, max_ns: 0, total_ns: 0, count: 0 }
    }

    /// The metric after a duration was recorded. Sum and count start over beyond their
    /// largest value.
    pub open spec fn recorded(self, duration_ns: u64) -> CycleMetric {
        CycleMetric {
            last_ns: duration_ns,
            max_ns: if duration_ns > self.max_ns {
                duration_ns
            } else {
                self.max_ns
            },
            total_ns: low_bits((self.total_ns + duration_ns) as nat) as u64,
            count: low_bits((self.count + 1) as nat) as u64,
        }
    }

    /// Records one duration.
    pub fn record(&mut self, duration_ns: u64)
        ensures
            *final(self) == old(self).recorded(duration_ns),
    {
        self.last_ns = duration_ns;
        if duration_ns > self.max_ns {
            self.max_ns = duration_ns;
        }
        self.total_ns = cut(self.total_ns as u128 + duration_ns as u128);
        self.count = cut(self.count as u128 + 1);
    }

    /// What an operator sees: the mean in place of the sum.
    pub open spec fn seen(self) -> CycleSnapshot {
        CycleSnapshot {
            last_ns: self.last_ns,
            max_ns: self.max_ns,
            avg_ns: if self.count == 0 {
                0
            } else {
                self.total_ns / self.count
            },
            count: self.count,
        }
    }

    pub fn snapshot(&self) -> (s: CycleSnapshot)
        ensures
            s == self.seen(),
    {
        CycleSnapshot {
            last_ns: self.last_ns,
            max_ns: self.max_ns,
            avg_ns: if self.count == 0 {
                0
            } else {
                self.total_ns / self.count
            },
            count: self.count,
        }
    }
}

/// Sum of some durations.
pub open spec fn total(durations: Seq<u64>) -> nat
    decreases durations.len(),
{
    if durations.len() == 0 {
        0
    } else {
        total(durations.drop_last()) + durations.last() as nat
    }
}

/// The metric is what recording `durations` one after the other leaves behind.
pub open spec fn records(m: CycleMetric, durations: Seq<u64>) -> bool {
    &&& m.count == durations.len()
    &&& m.total_ns == total(durations)
    &&& durations.len() == 0 ==> m.last_ns == 0 && m.max_ns == 0
    &&& durations.len() > 0 ==> m.last_ns == durations.last() && durations.contains(m.max_ns)
    &&& forall|i: int| 0 <= i < durations.len() ==> #[trigger] durations[i] <= m.max_ns
}

/// As long as sum and count do not start over, a metric holds the last, the largest,
/// the sum and the number of the durations recorded since it was made.
pub proof fn law_metric_tracks_durations(m: CycleMetric, durations: Seq<u64>, duration_ns: u64)
    requires
        records(m, durations),
        m.count < u64::MAX,
        m.total_ns + duration_ns <= u64::MAX,
    ensures
        records(m.recorded(duration_ns), durations.push(duration_ns)),
{
    let before = m;
    let after = m.recorded(duration_ns);
    let all = durations.push(duration_ns);
    assert(all.drop_last() =~= durations);
    assert(all.last() == duration_ns);
    if after.max_ns == duration_ns {
        assert(all[durations.len() as int] == after.max_ns);
    } else {
        let k = choose|k: int| 0 <= k < durations.len() && durations[k] == before.max_ns;
        assert(durations.len() > 0);
        assert(all[k] == before.max_ns);
    }
    assert forall|i: int| 0 <= i < all.len() implies #[trigger] all[i] <= after.max_ns by {
        if i < durations.len() {
            assert(durations[i] <= before.max_ns);
        }
    }
}

/// Liveness stamp of one thread: nanoseconds since the Unix epoch, 0 before the first
/// beat.
#[derive(Debug)]
pub struct ThreadBeat {
    pub last_beat_unix_ns: u64,
}

impl ThreadBeat {
    pub fn new() -> (b: ThreadBeat)
        ensures
            b.last_beat_unix_ns == 0,
    {
        ThreadBeat { last_beat_unix_ns: 0 }
    }

    /// Stamps the present time, of which nothing is claimed; `ping_at` says what a time
    /// leaves behind.
    pub fn ping(&mut self) {
        let now: Option<u128> = nanos_since_epoch();
        self.ping_at(now);
    }

    /// Stamps the time `now`; 0 if there is none.
    pub fn ping_at(&mut self, now: Option<u128>)
        ensures
            final(self).last_beat_unix_ns == match now {
                Some(n) => low_bits(n as nat),
                None => 0,
            },
    {
        self.last_beat_unix_ns =
        match now {
            Some(n) => cut(n),
            None => 0,
        };
    }

    /// Age of the last beat in milliseconds, at the present time; none before the first
    /// beat. Nothing is claimed of that time.
    pub fn age_ms(&self) -> (age: Option<u64>)
        ensures
            exists|now: Option<u128>| age == #[trigger] self.age(now),
    {
        let now: Option<u128> = nanos_since_epoch();
        self.age_at(now)
    }

    /// Age of the last beat at the time `now`. A beat in the future, or a clock that
    /// gives no time, makes it 0.
    pub open spec fn age(self, now: Option<u128>) -> Option<u64> {
        if self.last_beat_unix_ns == 0 {
            None
        } else {
            match now {
                None => Some(0),
                Some(n) => {
                    let t = low_bits(n as nat);
                    if t < self.last_beat_unix_ns {
                        Some(0)
                    } else {
                        Some(((t - self.last_beat_unix_ns) / 1_000_000) as u64)
                    }
                },
            }
        }
    }

    pub fn age_at(&self, now: Option<u128>) -> (age: Option<u64>)
        ensures
            age == self.age(now),
    {
        if self.last_beat_unix_ns == 0 {
            return None;
        }
        match now {
            None => Some(0),
            Some(n) => {
                let t: u64 = cut(n);
                if t < self.last_beat_unix_ns {
                    Some(0)
                } else {
                    Some((t - self.last_beat_unix_ns) / 1_000_000)
                }
            },
        }
    }
}

/// The health registry.
#[derive(Debug)]
pub struct AtomicHealth {
    /// Duration of each sanitizing of a command.
    pub sanitizer_cycle: CachePadded<CycleMetric>,
    /// Duration of each evaluation of a skill.
    pub wasm_cycle: CachePadded<CycleMetric>,
    /// Duration of each frame of the control loop.
    pub rt_frame: CachePadded<CycleMetric>,
    /// Duration of each publication of a command.
    pub zenoh_tx_latency: CachePadded<CycleMetric>,
    /// Telemetry frames received from the bus.
    pub zenoh_rx_frames: CachePadded<u64>,
    pub zenoh_tx_errors: CachePadded<u64>,
    /// Beat of the control loop.
    pub rt_thread_beat: CachePadded<ThreadBeat>,
    /// Beat of the skill runtime.
    pub wasm_thread_beat: CachePadded<ThreadBeat>,
}

/// What an operator sees of the registry.
#[derive(Debug, Clone, Copy)]
pub struct HealthSnapshot {
    pub sanitizer: CycleSnapshot,
    pub wasm: CycleSnapshot,
    pub rt_frame: CycleSnapshot,
    pub zenoh_tx: CycleSnapshot,
    pub zenoh_rx_frames: u64,
    pub zenoh_tx_errors: u64,
    pub rt_age_ms: Option<u64>,
    pub wasm_age_ms: Option<u64>,
}

impl AtomicHealth {
    pub fn new() -> (h: AtomicHealth)
        ensures
            h.sanitizer_cycle.0.zero(),
            h.wasm_cycle.0.zero(),
            h.rt_frame.0.zero(),
            h.zenoh_tx_latency.0.zero(),
            h.zenoh_rx_frames.0 == 0,
            h.zenoh_tx_errors.0 == 0,
            h.rt_thread_beat.0.last_beat_unix_ns == 0,
            h.wasm_thread_beat.0.last_beat_unix_ns == 0,
    {
        AtomicHealth {
            sanitizer_cycle: CachePadded(CycleMetric::new()),
            wasm_cycle: CachePadded(CycleMetric::new()),
            rt_frame: CachePadded(CycleMetric::new()),
            zenoh_tx_latency: CachePadded(CycleMetric::new()),
            zenoh_rx_frames: CachePadded(0),
            zenoh_tx_errors: CachePadded(0),
            rt_thread_beat: CachePadded(ThreadBeat::new()),
            wasm_thread_beat: CachePadded(ThreadBeat::new()),
        }
    }

    /// What an operator sees, with the given ages of the beats.
    pub open spec fn seen(self, rt_age_ms: Option<u64>, wasm_age_ms: Option<u64>)
        -> HealthSnapshot {
        HealthSnapshot {
            sanitizer: self.sanitizer_cycle.0.seen(),
            wasm: self.wasm_cycle.0.seen(),
            rt_frame: self.rt_frame.0.seen(),
            zenoh_tx: self.zenoh_tx_latency.0.seen(),
            zenoh_rx_frames: self.zenoh_rx_frames.0,
            zenoh_tx_errors: self.zenoh_tx_errors.0,
            rt_age_ms,
            wasm_age_ms,
        }
    }

    pub fn snapshot(&self) -> (s: HealthSnapshot)
        ensures
            s == self.seen(s.rt_age_ms, s.wasm_age_ms),
            exists|now: Option<u128>| s.rt_age_ms == #[trigger] self.rt_thread_beat.0.age(now),
            exists|now: Option<u128>| s.wasm_age_ms == #[trigger] self.wasm_thread_beat.0.age(now),
    {
        HealthSnapshot {
            sanitizer: self.sanitizer_cycle.0.snapshot(),
            wasm: self.wasm_cycle.0.snapshot(),
            rt_frame: self.rt_frame.0.snapshot(),
            zenoh_tx: self.zenoh_tx_latency.0.snapshot(),
            zenoh_rx_frames: self.zenoh_rx_frames.0,
            zenoh_tx_errors: self.zenoh_tx_errors.0,
            rt_age_ms: self.rt_thread_beat.0.age_ms(),
            wasm_age_ms: self.wasm_thread_beat.0.age_ms(),
        }
    }

    /// Replaces `out` by the report in one line.
    pub fn render_line(&self, out: &mut String)
        ensures
            exists|rt: Option<u128>, wasm: Option<u128>|
                final(out)@ == self.seen(
                    #[trigger] self.rt_thread_beat.0.age(rt),
                    #[trigger] self.wasm_thread_beat.0.age(wasm),
                ).line(),
    {
        let s: HealthSnapshot = self.snapshot();
        s.render(out);
    }
}

/// Text of an age.
pub open spec fn age_text(age: Option<u64>) -> Seq<char> {
    match age {
        Some(ms) => number_text(ms as nat) + " ms"@,
        None => "never"@,
    }
}

fn push_age(out: &mut String, age: Option<u64>)
    ensures
        final(out)@ == old(out)@ + age_text(age),
{
    match age {
        Some(ms) => {
            push_number(out, ms);
            out.append(" ms");
        },
        None => {
            out.append("never");
        },
    }
    assert(out@ =~= old(out)@ + age_text(age));
}

impl HealthSnapshot {
    /// The report in one line.
    pub open spec fn line(self) -> Seq<char> {
        "[HEALTH] RT(core1): frame "@ + number_text((self.rt_frame.last_ns / 1_000) as nat)
            + " us (max "@ + number_text((self.rt_frame.max_ns / 1_000) as nat) + " us) | beat "@
            + age_text(self.rt_age_ms) + " ms | SANITIZER: "@ + number_text(
            self.sanitizer.last_ns as nat,
        ) + " ns (max "@ + number_text(self.sanitizer.max_ns as nat) + ") | WASM(core2): "@
            + number_text((self.wasm.last_ns / 1_000) as nat) + " us (max "@ + number_text(
            (self.wasm.max_ns / 1_000) as nat,
        ) + ") | beat "@ + age_text(self.wasm_age_ms) + " ms | ZENOH: tx "@ + number_text(
            (self.zenoh_tx.last_ns / 1_000) as nat,
        ) + " us (max "@ + number_text((self.zenoh_tx.max_ns / 1_000) as nat) + ", err "@
            + number_text(self.zenoh_tx_errors as nat) + ") rx "@ + number_text(
            self.zenoh_rx_frames as nat,
        ) + " frames"@
    }

    /// Replaces `out` by the report in one line.
    pub fn render(&self, out: &mut String)
        ensures
            final(out)@ == self.line(),
    {
        out.clear();
        out.append("[HEALTH] RT(core1): frame ");
        push_number(out, self.rt_frame.last_ns / 1_000);
        out.append(" us (max ");
        push_number(out, self.rt_frame.max_ns / 1_000);
        out.append(" us) | beat ");
        push_age(out, self.rt_age_ms);
        out.append(" ms | SANITIZER: ");
        push_number(out, self.sanitizer.last_ns);
        out.append(" ns (max ");
        push_number(out, self.sanitizer.max_ns);
        out.append(") | WASM(core2): ");
        push_number(out, self.wasm.last_ns / 1_000);
        out.append(" us (max ");
        push_number(out, self.wasm.max_ns / 1_000);
        out.append(") | beat ");
        push_age(out, self.wasm_age_ms);
        out.append(" ms | ZENOH: tx ");
        push_number(out, self.zenoh_tx.last_ns / 1_000);
        out.append(" us (max ");
        push_number(out, self.zenoh_tx.max_ns / 1_000);
        out.append(", err ");
        push_number(out, self.zenoh_tx_errors);
        out.append(") rx ");
        push_number(out, self.zenoh_rx_frames);
        out.append(" frames");
        assert(out@ =~= self.line());
    }
}

impl Default for AtomicHealth {
    fn default() -> (h: AtomicHealth)
        ensures
            h.sanitizer_cycle.0.zero(),
            h.wasm_cycle.0.zero(),
            h.rt_frame.0.zero(),
            h.zenoh_tx_latency.0.zero(),
            h.zenoh_rx_frames.0 == 0,
            h.zenoh_tx_errors.0 == 0,
            h.rt_thread_beat.0.last_beat_unix_ns == 0,
            h.wasm_thread_beat.0.last_beat_unix_ns == 0,
    {
        AtomicHealth::new()
    }
}

/// The mean that an operator sees is that of the durations, cut to whole nanoseconds; the last
/// and the largest are shown as they are.
pub proof fn law_mean_is_shown(m: CycleMetric, durations: Seq<u64>)
    requires
        records(m, durations),
        durations.len() > 0,
    ensures
        m.seen().count == durations.len(),
        m.seen().last_ns == durations.last(),
        durations.contains(m.seen().max_ns),
        forall|i: int| 0 <= i < durations.len() ==> #[trigger] durations[i] <= m.seen().max_ns,
        m.seen().avg_ns * durations.len() <= total(durations),
        total(durations) < (m.seen().avg_ns + 1) * durations.len(),
{
    let n = m.count as int;
    let t = m.total_ns as int;
    assert((t / n) * n <= t < (t / n + 1) * n) by (nonlinear_arith)
        requires
            n > 0,
            t >= 0,
    ;
}

/// Each metric is shown in its own place.
pub proof fn law_metrics_keep_their_places(h: AtomicHealth, rt: Option<u64>, wasm: Option<u64>)
    ensures
        ({
            let s = h.seen(rt, wasm);
            &&& s.sanitizer.last_ns == h.sanitizer_cycle.0.last_ns
            &&& s.sanitizer.count == h.sanitizer_cycle.0.count
            &&& s.wasm.last_ns == h.wasm_cycle.0.last_ns
            &&& s.wasm.count == h.wasm_cycle.0.count
            &&& s.rt_frame.last_ns == h.rt_frame.0.last_ns
            &&& s.rt_frame.count == h.rt_frame.0.count
            &&& s.zenoh_tx.last_ns == h.zenoh_tx_latency.0.last_ns
            &&& s.zenoh_tx.count == h.zenoh_tx_latency.0.count
            &&& s.zenoh_rx_frames == h.zenoh_rx_frames.0
            &&& s.zenoh_tx_errors == h.zenoh_tx_errors.0
            &&& s.rt_age_ms == rt
            &&& s.wasm_age_ms == wasm
        }),
{
}

/// The age of a beat is the time since then in whole milliseconds, and there is one as soon as
/// there was a beat.
pub proof fn law_age_since_beat(b: ThreadBeat, now: u128)
    requires
        b.last_beat_unix_ns <= now <= u64::MAX,
    ensures
        b.last_beat_unix_ns == 0 <==> b.age(Some(now)) is None,
        b.age(Some(now)) matches Some(ms) ==> 1_000_000 * ms <= now - b.last_beat_unix_ns
            < 1_000_000 * (ms + 1),
{
}

/// Each reading stands in the line behind its own label: times of the frame, the skills and the
/// bus in microseconds, that of the sanitizer in nanoseconds.
pub proof fn law_line_shows_the_readings(h: HealthSnapshot)
    ensures
        occurs(
            h.line(),
            "[HEALTH] RT(core1): frame "@ + number_text((h.rt_frame.last_ns / 1_000) as nat),
        ),
        occurs(h.line(), " us) | beat "@ + age_text(h.rt_age_ms)),
        occurs(h.line(), " ms | SANITIZER: "@ + number_text(h.sanitizer.last_ns as nat)),
        occurs(h.line(), ") | WASM(core2): "@ + number_text((h.wasm.last_ns / 1_000) as nat)),
        occurs(h.line(), ") | beat "@ + age_text(h.wasm_age_ms)),
        occurs(h.line(), " ms | ZENOH: tx "@ + number_text((h.zenoh_tx.last_ns / 1_000) as nat)),
        occurs(h.line(), ", err "@ + number_text(h.zenoh_tx_errors as nat)),
        occurs(h.line(), ") rx "@ + number_text(h.zenoh_rx_frames as nat)),
{
    lemma_reading(h, 0);
    lemma_reading(h, 4);
    lemma_reading(h, 6);
    lemma_reading(h, 10);
    lemma_reading(h, 14);
    lemma_reading(h, 16);
    lemma_reading(h, 20);
    lemma_reading(h, 22);
}

/// A piece of the line and the next one stand side by side in it.
proof fn lemma_reading(h: HealthSnapshot, i: int)
    requires
        0 <= i < 24,
    ensures
        occurs(h.line(), pieces(h)[i] + pieces(h)[i + 1]),
{
    let p = pieces(h);
    let w = p[i] + p[i + 1];
    assert(line_until(p, i + 1) == line_until(p, i) + p[i + 1]);
    if i == 0 {
        lemma_grows(w, w, w);
    } else {
        let front = line_until(p, i - 1);
        assert(line_until(p, i) == front + p[i]);
        lemma_brackets(front, p[i], p[i + 1], w);
        lemma_grows(front, w, w);
    }
    lemma_line_keeps(h, i + 1, w);
}

/// The pieces of the line.
spec fn pieces(h: HealthSnapshot) -> Seq<Seq<char>> {
    seq![
        "[HEALTH] RT(core1): frame "@,
        number_text((h.rt_frame.last_ns / 1_000) as nat),
        " us (max "@,
        number_text((h.rt_frame.max_ns / 1_000) as nat),
        " us) | beat "@,
        age_text(h.rt_age_ms),
        " ms | SANITIZER: "@,
        number_text(h.sanitizer.last_ns as nat),
        " ns (max "@,
        number_text(h.sanitizer.max_ns as nat),
        ") | WASM(core2): "@,
        number_text((h.wasm.last_ns / 1_000) as nat),
        " us (max "@,
        number_text((h.wasm.max_ns / 1_000) as nat),
        ") | beat "@,
        age_text(h.wasm_age_ms),
        " ms | ZENOH: tx "@,
        number_text((h.zenoh_tx.last_ns / 1_000) as nat),
        " us (max "@,
        number_text((h.zenoh_tx.max_ns / 1_000) as nat),
        ", err "@,
        number_text(h.zenoh_tx_errors as nat),
        ") rx "@,
        number_text(h.zenoh_rx_frames as nat),
        " frames"@,
    ]
}

/// The line up to piece `k`.
spec fn line_until(parts: Seq<Seq<char>>, k: int) -> Seq<char>
    decreases k,
{
    if k <= 0 {
        parts[0]
    } else {
        line_until(parts, k - 1) + parts[k]
    }
}

/// What stands in the beginning of the line stands in the line.
proof fn lemma_line_keeps(h: HealthSnapshot, k: int, w: Seq<char>)
    requires
        0 <= k < 25,
        occurs(line_until(pieces(h), k), w),
    ensures
        occurs(h.line(), w),
    decreases 25 - k,
{
    if k < 24 {
        lemma_grows(line_until(pieces(h), k), pieces(h)[k + 1], w);
        lemma_line_keeps(h, k + 1, w);
    } else {
        lemma_line(h);
    }
}

proof fn lemma_line(h: HealthSnapshot)
    ensures
        line_until(pieces(h), 24) == h.line(),
{
    reveal_with_fuel(line_until, 26);
}

} // verus!
