//! The dashboard's state: the latest reading, peaks, session totals, the
//! graph histories and the long-lived memory-trend buffer.
use std::collections::VecDeque;

use vstd::prelude::*;

use crate::config::{
    BYTES_PER_MB, HISTORY_LEN, MEM_TREND_MAX_SAMPLES, MEM_TREND_SAMPLE_INTERVAL_SECS,
    MEM_TREND_WINDOW_SECS, NANOS_PER_SEC,
};
use crate::input::Key;
use crate::monitor::{MonitorError, Sample};

verus! {

/// `s` after appending `v` to a buffer that holds at most `cap` items: the
/// oldest item leaves first when the buffer is full.
pub open spec fn push_bounded<T>(s: Seq<T>, v: T, cap: nat) -> Seq<T> {
    if s.len() == cap && cap > 0 {
        s.drop_first().push(v)
    } else {
        s.push(v)
    }
}

/// A bounded buffer stays within its bound and holds the newest items in
/// order, the pushed one last.
pub proof fn lemma_push_bounded<T>(s: Seq<T>, v: T, cap: nat)
    requires
        s.len() <= cap,
        cap > 0,
    ensures
        push_bounded(s, v, cap).len() == (if s.len() < cap {
            s.len() + 1
        } else {
            cap
        }),
        push_bounded(s, v, cap).last() == v,
        push_bounded(s, v, cap) == s.push(v).subrange(
            s.len() + 1 - push_bounded(s, v, cap).len(),
            s.len() as int + 1,
        ),
{
    let r = push_bounded(s, v, cap);
    assert(r =~= s.push(v).subrange(s.len() + 1 - r.len(), s.len() as int + 1));
}

/// Appends `value` to `buf`, first dropping the oldest item when `buf`
/// already holds `cap` items.
pub fn push_bounded_back<T>(buf: &mut VecDeque<T>, value: T, cap: usize)
    ensures
        final(buf)@ == push_bounded(old(buf)@, value, cap as nat),
{
    if buf.len() == cap && cap > 0 {
        let _ = buf.pop_front();
        assert(buf@ =~= old(buf)@.drop_first());
    }
    buf.push_back(value);
}

/// `a - b`, or 0 when `b > a`.
pub open spec fn sat_sub(a: u64, b: u64) -> u64 {
    if a >= b {
        (a - b) as u64
    } else {
        0
    }
}

/// Whole MB in `bytes`.
pub open spec fn mb_of(bytes: u64) -> u64 {
    (bytes / BYTES_PER_MB) as u64
}

/// MB in use on a disk of `total` bytes with `available` bytes free.
pub open spec fn used_mb_of(total: u64, available: u64) -> u64 {
    mb_of(sat_sub(total, available))
}

/// The trend-sampling interval in nanoseconds.
pub open spec fn trend_interval_ns() -> nat {
    (MEM_TREND_SAMPLE_INTERVAL_SECS as nat) * (NANOS_PER_SEC as nat)
}

/// The trend samples lie exactly one sampling interval apart.
pub open spec fn evenly_spaced(s: Seq<(u64, u64)>) -> bool {
    forall|k: int| 0 <= k < s.len() ==> (#[trigger] s[k]).0 == s[0].0 + k * trend_interval_ns()
}

/// A reading taken before the next trend sample is due, or exactly when it
/// is due, keeps the trend samples exactly one interval apart; when one is
/// taken, the buffer gains the new reading last and keeps at most
/// `MEM_TREND_MAX_SAMPLES` samples.
pub proof fn lemma_on_time_trend_update<C>(old: App<C>, new: App<C>, sample: Sample<C>, now_ns: u64)
    requires
        old.mem_trend_samples@.len() >= 1,
        old.mem_trend_samples@.len() <= MEM_TREND_MAX_SAMPLES,
        old.mem_trend_samples@.last().0 == old.last_mem_trend_sample_at,
        evenly_spaced(old.mem_trend_samples@),
        updated(old, new, sample, now_ns),
        sat_sub(now_ns, old.last_mem_trend_sample_at) < trend_interval_ns() || now_ns
            == old.last_mem_trend_sample_at + trend_interval_ns(),
    ensures
        evenly_spaced(new.mem_trend_samples@),
        now_ns == old.last_mem_trend_sample_at + trend_interval_ns() ==> {
            &&& new.mem_trend_samples@.last() == (now_ns, mb_of(sample.memory_bytes))
            &&& new.mem_trend_samples@.len() == (if old.mem_trend_samples@.len()
                < MEM_TREND_MAX_SAMPLES {
                old.mem_trend_samples@.len() + 1
            } else {
                MEM_TREND_MAX_SAMPLES as nat
            })
        },
{
    let o = old.mem_trend_samples@;
    let n = new.mem_trend_samples@;
    let i = trend_interval_ns();
    if now_ns == old.last_mem_trend_sample_at + i {
        assert(sat_sub(now_ns, old.last_mem_trend_sample_at) >= i);
        let last = o.len() - 1;
        assert(o[last].0 == o[0].0 + last * i);
        if o.len() == MEM_TREND_MAX_SAMPLES {
            assert(n == o.drop_first().push((now_ns, mb_of(sample.memory_bytes))));
            assert(o[1].0 == o[0].0 + i);
            assert forall|k: int| 0 <= k < n.len() implies (#[trigger] n[k]).0 == n[0].0 + k * i by {
                assert(n[0] == o[1]);
                if k < n.len() - 1 {
                    assert(n[k] == o[k + 1]);
                    assert(o[k + 1].0 == o[0].0 + (k + 1) * i);
                    assert((k + 1) * i == k * i + i) by (nonlinear_arith);
                } else {
                    assert(last * i == (k + 1) * i - i) by (nonlinear_arith)
                        requires
                            last == k + 1 - 1,
                    ;
                    assert((k + 1) * i == k * i + i) by (nonlinear_arith);
                }
            }
        } else {
            assert(n == o.push((now_ns, mb_of(sample.memory_bytes))));
            assert forall|k: int| 0 <= k < n.len() implies (#[trigger] n[k]).0 == n[0].0 + k * i by {
                assert(n[0] == o[0]);
                if k < o.len() {
                    assert(n[k] == o[k]);
                } else {
                    assert(k == last + 1);
                    assert((last + 1) * i == last * i + i) by (nonlinear_arith);
                }
            }
        }
    } else {
        assert(n == o);
    }
}

/// Evenly spaced samples filling the buffer span exactly one trend window:
/// the newest is `MEM_TREND_WINDOW_SECS` after the oldest.
pub proof fn lemma_full_trend_spans_window(s: Seq<(u64, u64)>)
    requires
        evenly_spaced(s),
        s.len() == MEM_TREND_MAX_SAMPLES,
    ensures
        s.last().0 == s[0].0 + MEM_TREND_WINDOW_SECS * NANOS_PER_SEC,
        sat_sub(s.last().0, s[0].0) == MEM_TREND_WINDOW_SECS * NANOS_PER_SEC,
{
    crate::config::lemma_trend_capacity_covers_window();
    let k = s.len() - 1;
    assert(k == 60);
    assert(s[k].0 == s[0].0 + k * trend_interval_ns());
}

/// The memory trend that the samples `s` give: none until they span one
/// sampling interval, then the oldest and newest readings and the time
/// between them.
pub open spec fn trend_of(s: Seq<(u64, u64)>) -> Option<MemTrend> {
    let elapsed = sat_sub(s.last().0, s[0].0);
    if elapsed < trend_interval_ns() {
        None
    } else {
        Some(MemTrend { oldest_mb: s[0].1, newest_mb: s.last().1, elapsed_ns: elapsed })
    }
}

/// `states` is a dashboard started at `t0` (as `App::new` starts it) that
/// then took reading `samples[k]` at `t0 + (k + 1)` sampling intervals, for
/// each `k`: one reading every minute.
pub open spec fn on_time_run<C>(states: Seq<App<C>>, samples: Seq<Sample<C>>, t0: u64) -> bool {
    &&& states.len() == samples.len() + 1
    &&& t0 + samples.len() * trend_interval_ns() <= u64::MAX
    &&& states[0].mem_trend_samples@ == seq![(t0, states[0].mem_current_mb)]
    &&& states[0].last_mem_trend_sample_at == t0
    &&& forall|k: int|
        0 <= k < samples.len() ==> updated(
            #[trigger] states[k],
            states[k + 1],
            samples[k],
            (t0 + (k + 1) * trend_interval_ns()) as u64,
        )
}

/// The memory, in MB, of reading `k` of a run: the first reading for 0,
/// else `samples[k - 1]`.
pub open spec fn run_reading_mb<C>(states: Seq<App<C>>, samples: Seq<Sample<C>>, k: int) -> u64 {
    if k == 0 {
        states[0].mem_current_mb
    } else {
        mb_of(samples[k - 1].memory_bytes)
    }
}

/// How many trend samples are kept after reading `n` of a run.
pub open spec fn kept_samples(n: int) -> int {
    if n + 1 < MEM_TREND_MAX_SAMPLES {
        n + 1
    } else {
        MEM_TREND_MAX_SAMPLES as int
    }
}

/// After reading `n` of an on-time run the trend buffer holds the last
/// `kept_samples(n)` readings, each with its time.
pub open spec fn trend_after_run<C>(
    states: Seq<App<C>>,
    samples: Seq<Sample<C>>,
    t0: u64,
    n: int,
) -> bool {
    let s = states[n].mem_trend_samples@;
    let first = n - kept_samples(n) + 1;
    &&& s.len() == kept_samples(n)
    &&& states[n].last_mem_trend_sample_at == t0 + n * trend_interval_ns()
    &&& forall|j: int|
        0 <= j < kept_samples(n) ==> #[trigger] s[j] == (
            (t0 + (first + j) * trend_interval_ns()) as u64,
            run_reading_mb(states, samples, first + j),
        )
}

#[verifier::spinoff_prover]
#[verifier::rlimit(30)]
proof fn lemma_run_prefix<C>(states: Seq<App<C>>, samples: Seq<Sample<C>>, t0: u64, n: int)
    requires
        on_time_run(states, samples, t0),
        0 <= n <= samples.len(),
    ensures
        trend_after_run(states, samples, t0, n),
    decreases n,
{
    crate::config::lemma_trend_capacity_covers_window();
    let i = trend_interval_ns();
    if n == 0 {
        let s = states[0].mem_trend_samples@;
        assert forall|j: int| 0 <= j < kept_samples(0) implies #[trigger] s[j] == (
            (t0 + (0 - kept_samples(0) + 1 + j) * i) as u64,
            run_reading_mb(states, samples, 0 - kept_samples(0) + 1 + j),
        ) by {
            assert(j == 0);
        }
    } else {
        lemma_run_prefix(states, samples, t0, n - 1);
        let k = n - 1;
        assert(updated(states[k], states[k + 1], samples[k], (t0 + (k + 1) * i) as u64));
        let old = states[k].mem_trend_samples@;
        let new = states[n].mem_trend_samples@;
        let now = (t0 + n * i) as u64;
        assert(t0 + n * i <= t0 + samples.len() * i) by (nonlinear_arith)
            requires
                n <= samples.len(),
                i >= 0,
        ;
        assert(now == t0 + n * i);
        assert(states[k].last_mem_trend_sample_at == t0 + k * i);
        assert(sat_sub(now, states[k].last_mem_trend_sample_at) == i);
        let mb = mb_of(samples[k].memory_bytes);
        assert(run_reading_mb(states, samples, n) == mb);
        let first_old = k - kept_samples(k) + 1;
        let first = n - kept_samples(n) + 1;
        if kept_samples(k) < MEM_TREND_MAX_SAMPLES {
            assert(new == old.push((now, mb)));
            assert(first == first_old);
            assert forall|j: int| 0 <= j < kept_samples(n) implies #[trigger] new[j] == (
                (t0 + (first + j) * i) as u64,
                run_reading_mb(states, samples, first + j),
            ) by {
                if j < old.len() {
                    assert(new[j] == old[j]);
                } else {
                    assert(first + j == n);
                }
            }
        } else {
            assert(new == old.drop_first().push((now, mb)));
            assert(first == first_old + 1);
            assert forall|j: int| 0 <= j < kept_samples(n) implies #[trigger] new[j] == (
                (t0 + (first + j) * i) as u64,
                run_reading_mb(states, samples, first + j),
            ) by {
                if j < old.len() - 1 {
                    assert(new[j] == old[j + 1]);
                } else {
                    assert(first + j == n);
                }
            }
        }
    }
}

/// Memory readings taken once a minute: after `N` of them, following the
/// first reading at `t0`, the trend buffer holds the last `min(N + 1, 61)`
/// readings, one minute apart, the newest last at the time of the latest
/// reading. From one hour of readings on (`N >= 60`), the trend spans
/// exactly one hour, from the reading 60 minutes back to the newest one.
pub proof fn lemma_on_time_updates_span_window<C>(
    states: Seq<App<C>>,
    samples: Seq<Sample<C>>,
    t0: u64,
)
    requires
        on_time_run(states, samples, t0),
    ensures
        ({
            let n = samples.len() as int;
            let s = states[n].mem_trend_samples@;
            let first = n - kept_samples(n) + 1;
            &&& s.len() == kept_samples(n)
            &&& forall|j: int|
                0 <= j < s.len() ==> #[trigger] s[j] == (
                    (t0 + (first + j) * trend_interval_ns()) as u64,
                    run_reading_mb(states, samples, first + j),
                )
            &&& s.last().0 == t0 + n * trend_interval_ns()
            &&& evenly_spaced(s)
            &&& n >= 60 ==> trend_of(s) == Some(
                MemTrend {
                    oldest_mb: run_reading_mb(states, samples, n - 60),
                    newest_mb: run_reading_mb(states, samples, n),
                    elapsed_ns: (MEM_TREND_WINDOW_SECS * NANOS_PER_SEC) as u64,
                },
            )
        }),
{
    crate::config::lemma_trend_capacity_covers_window();
    let n = samples.len() as int;
    lemma_run_prefix(states, samples, t0, n);
    let i = trend_interval_ns();
    let s = states[n].mem_trend_samples@;
    let first = n - kept_samples(n) + 1;
    let last = s.len() - 1;
    assert(s[last] == ((t0 + (first + last) * i) as u64, run_reading_mb(states, samples, first + last)));
    assert(first + last == n);
    assert(t0 + n * i <= t0 + samples.len() * i);
    assert(s[0] == ((t0 + (first + 0) * i) as u64, run_reading_mb(states, samples, first + 0)));
    assert(first * i + (first + last - first) * i == (first + last) * i) by (nonlinear_arith);
    assert(first >= 0);
    assert(t0 + first * i <= t0 + n * i) by (nonlinear_arith)
        requires
            first <= n,
            i >= 0,
    ;
    assert forall|j: int| 0 <= j < s.len() implies (#[trigger] s[j]).0 == s[0].0 + j * i by {
        assert(s[j] == ((t0 + (first + j) * i) as u64, run_reading_mb(states, samples, first + j)));
        assert(t0 + (first + j) * i <= t0 + n * i) by (nonlinear_arith)
            requires
                first + j <= n,
                i >= 0,
        ;
        assert((first + j) * i == first * i + j * i) by (nonlinear_arith);
    }
    if n >= 60 {
        assert(kept_samples(n) == 61);
        assert(first == n - 60);
        assert(s.last().0 - s[0].0 == 60 * i);
    }
}

/// What the dashboard's timer asks for at a point of its loop.
#[derive(Clone, Copy, Debug, PartialEq, Eq, Structural)]
pub enum TimerAction {
    /// The tick interval has not passed yet.
    Wait,
    /// The interval has passed but the dashboard is paused: restart the
    /// interval without taking a reading, so the display stays frozen.
    Skip,
    /// The interval has passed: take a reading and restart the interval.
    TakeReading,
}

/// A tick interval of `ms` milliseconds, in nanoseconds.
pub open spec fn interval_ns(ms: u64) -> nat {
    (ms as nat) * 1_000_000
}

/// Whether `since_ns` nanoseconds cover an interval of `ms` milliseconds,
/// without overflow.
pub fn interval_passed(since_ns: u64, ms: u64) -> (r: bool)
    ensures
        r == (since_ns as nat >= interval_ns(ms)),
{
    if ms > u64::MAX / 1_000_000 {
        false
    } else {
        since_ns >= ms * 1_000_000
    }
}

/// Disk traffic since the previous reading, over the time between them.
pub struct DiskDelta {
    pub read_bytes: u64,
    pub written_bytes: u64,
    pub elapsed_ns: u64,
}

/// The memory trend over the trend buffer: the oldest and newest memory
/// readings and the time between them.
pub struct MemTrend {
    pub oldest_mb: u64,
    pub newest_mb: u64,
    pub elapsed_ns: u64,
}

/// State of the dashboard for one process. Times are nanoseconds on the
/// caller's monotonic clock. `C` is the CPU-usage reading, kept as given.
pub struct App<C> {
    pub pid: u32,
    pub process_name: String,
    pub exe_path: String,
    pub started_at_unix_secs: u64,
    pub mem_total_mb: u64,
    pub tick_interval_ms: u64,
    pub status: String,
    pub run_time_secs: u64,
    pub cpu_history: VecDeque<C>,
    /// Memory readings in MB.
    pub mem_history: VecDeque<u64>,
    /// Long-lived, coarsely sampled `(time, MB)` readings, independent of the
    /// short display window, behind the "memory over 1h" trend badge.
    pub mem_trend_samples: VecDeque<(u64, u64)>,
    pub last_mem_trend_sample_at: u64,
    pub cpu_current: C,
    pub mem_current_mb: u64,
    pub mem_peak_mb: u64,
    pub storage_total_mb: u64,
    pub storage_used_mb: u64,
    pub storage_mount_point: String,
    pub disk_read_bytes_session: u64,
    pub disk_write_bytes_session: u64,
    pub baseline_read_bytes: u64,
    pub baseline_write_bytes: u64,
    pub last_read_bytes: u64,
    pub last_write_bytes: u64,
    pub last_sample_at: u64,
    pub paused: bool,
    pub should_quit: bool,
    pub exited: bool,
}

/// The trend samples are taken at least one sampling interval apart.
pub open spec fn trend_spaced(s: Seq<(u64, u64)>) -> bool {
    forall|k: int| 0 <= k < s.len() - 1 ==> (#[trigger] s[k + 1]).0 >= s[k].0 + trend_interval_ns()
}

/// Samples taken at least one interval apart span at least one interval per
/// gap: a full trend buffer covers the whole trend window.
pub proof fn lemma_trend_span(s: Seq<(u64, u64)>)
    requires
        s.len() >= 1,
        trend_spaced(s),
    ensures
        s.last().0 >= s[0].0 + (s.len() - 1) * trend_interval_ns(),
        s.len() == MEM_TREND_MAX_SAMPLES ==> s.last().0 >= s[0].0 + MEM_TREND_WINDOW_SECS
            * NANOS_PER_SEC,
    decreases s.len(),
{
    if s.len() > 1 {
        let p = s.drop_last();
        assert(trend_spaced(p)) by {
            assert forall|k: int| 0 <= k < p.len() - 1 implies (#[trigger] p[k + 1]).0 >= p[k].0
                + trend_interval_ns() by {
                assert(p[k + 1] == s[k + 1]);
                assert(p[k] == s[k]);
            }
        }
        lemma_trend_span(p);
        let k = s.len() - 2;
        assert(s[k + 1].0 >= s[k].0 + trend_interval_ns());
        assert(p.last() == s[s.len() - 2]);
        assert(p[0] == s[0]);
        assert((s.len() - 1) * trend_interval_ns() == (p.len() - 1) * trend_interval_ns()
            + trend_interval_ns()) by (nonlinear_arith)
            requires
                p.len() == s.len() - 1,
        ;
    }
}

/// The disk traffic that a reading taken at `now_ns` reports against the
/// previous one, when some time has passed since it.
pub open spec fn disk_delta<C>(old: App<C>, sample: Sample<C>, now_ns: u64) -> Option<DiskDelta> {
    if sat_sub(now_ns, old.last_sample_at) > 0 {
        Some(
            DiskDelta {
                read_bytes: sat_sub(sample.disk_total_read_bytes, old.last_read_bytes),
                written_bytes: sat_sub(sample.disk_total_written_bytes, old.last_write_bytes),
                elapsed_ns: sat_sub(now_ns, old.last_sample_at),
            },
        )
    } else {
        None
    }
}

/// The fields that only key presses and the exit change are the same in `a`
/// and `b`.
pub open spec fn same_controls<C>(a: App<C>, b: App<C>) -> bool {
    &&& a.paused == b.paused
    &&& a.should_quit == b.should_quit
    &&& a.exited == b.exited
}

/// The identity of the process and the session baselines are the same in
/// `a` and `b`.
pub open spec fn same_identity<C>(a: App<C>, b: App<C>) -> bool {
    &&& a.pid == b.pid
    &&& a.process_name == b.process_name
    &&& a.exe_path == b.exe_path
    &&& a.started_at_unix_secs == b.started_at_unix_secs
    &&& a.mem_total_mb == b.mem_total_mb
    &&& a.tick_interval_ms == b.tick_interval_ms
    &&& a.baseline_read_bytes == b.baseline_read_bytes
    &&& a.baseline_write_bytes == b.baseline_write_bytes
}

/// Every reading-derived field but the two graph histories is the same in
/// `a` and `b`.
pub open spec fn same_readings_but_graphs<C>(a: App<C>, b: App<C>) -> bool {
    &&& a.status == b.status
    &&& a.run_time_secs == b.run_time_secs
    &&& a.mem_trend_samples@ == b.mem_trend_samples@
    &&& a.last_mem_trend_sample_at == b.last_mem_trend_sample_at
    &&& a.cpu_current == b.cpu_current
    &&& a.mem_current_mb == b.mem_current_mb
    &&& a.mem_peak_mb == b.mem_peak_mb
    &&& a.storage_total_mb == b.storage_total_mb
    &&& a.storage_used_mb == b.storage_used_mb
    &&& a.storage_mount_point == b.storage_mount_point
    &&& a.disk_read_bytes_session == b.disk_read_bytes_session
    &&& a.disk_write_bytes_session == b.disk_write_bytes_session
    &&& a.last_read_bytes == b.last_read_bytes
    &&& a.last_write_bytes == b.last_write_bytes
    &&& a.last_sample_at == b.last_sample_at
}

/// Every reading-derived field is the same in `a` and `b`.
pub open spec fn same_readings<C>(a: App<C>, b: App<C>) -> bool {
    &&& same_readings_but_graphs(a, b)
    &&& a.cpu_history@ == b.cpu_history@
    &&& a.mem_history@ == b.mem_history@
}

/// `new` is `old` after taking in `sample`, read at `now_ns`: the reading
/// replaces the current values, peaks and session totals follow it, both
/// histories get it appended, and the trend buffer gets it when one
/// sampling interval has passed since its last sample.
pub open spec fn updated<C>(old: App<C>, new: App<C>, sample: Sample<C>, now_ns: u64) -> bool {
    let mem_mb = mb_of(sample.memory_bytes);
    &&& new.last_read_bytes == sample.disk_total_read_bytes
    &&& new.last_write_bytes == sample.disk_total_written_bytes
    &&& new.last_sample_at == now_ns
    &&& new.disk_read_bytes_session == sat_sub(sample.disk_total_read_bytes, old.baseline_read_bytes)
    &&& new.disk_write_bytes_session == sat_sub(
        sample.disk_total_written_bytes,
        old.baseline_write_bytes,
    )
    &&& new.status == sample.status
    &&& new.run_time_secs == sample.run_time_secs
    &&& new.cpu_current == sample.cpu_usage
    &&& new.mem_current_mb == mem_mb
    &&& new.mem_peak_mb == (if old.mem_peak_mb >= mem_mb {
        old.mem_peak_mb
    } else {
        mem_mb
    })
    &&& new.storage_total_mb == mb_of(sample.storage_total_bytes)
    &&& new.storage_used_mb == used_mb_of(
        sample.storage_total_bytes,
        sample.storage_available_bytes,
    )
    &&& new.storage_mount_point == sample.storage_mount_point
    &&& new.cpu_history@ == push_bounded(old.cpu_history@, sample.cpu_usage, HISTORY_LEN as nat)
    &&& new.mem_history@ == push_bounded(old.mem_history@, mem_mb, HISTORY_LEN as nat)
    &&& if sat_sub(now_ns, old.last_mem_trend_sample_at) >= trend_interval_ns() {
        &&& new.mem_trend_samples@ == push_bounded(
            old.mem_trend_samples@,
            (now_ns, mem_mb),
            MEM_TREND_MAX_SAMPLES as nat,
        )
        &&& new.last_mem_trend_sample_at == now_ns
    } else {
        &&& new.mem_trend_samples@ == old.mem_trend_samples@
        &&& new.last_mem_trend_sample_at == old.last_mem_trend_sample_at
    }
    &&& same_identity(old, new)
    &&& same_controls(old, new)
}

/// `states` is a dashboard started from the reading `initial` (as
/// `App::new` starts it) that then took in reading `samples[k]` at
/// `nows[k]`, for each `k`, in order.
pub open spec fn run_from<C>(
    states: Seq<App<C>>,
    initial: Sample<C>,
    samples: Seq<Sample<C>>,
    nows: Seq<u64>,
) -> bool {
    &&& states.len() == samples.len() + 1
    &&& nows.len() == samples.len()
    &&& states[0].baseline_read_bytes == initial.disk_total_read_bytes
    &&& states[0].baseline_write_bytes == initial.disk_total_written_bytes
    &&& forall|k: int|
        0 <= k < samples.len() ==> updated(#[trigger] states[k], states[k + 1], samples[k], nows[k])
}

proof fn lemma_run_keeps_baselines<C>(
    states: Seq<App<C>>,
    initial: Sample<C>,
    samples: Seq<Sample<C>>,
    nows: Seq<u64>,
    n: int,
)
    requires
        run_from(states, initial, samples, nows),
        0 <= n <= samples.len(),
    ensures
        states[n].baseline_read_bytes == initial.disk_total_read_bytes,
        states[n].baseline_write_bytes == initial.disk_total_written_bytes,
    decreases n,
{
    if n > 0 {
        lemma_run_keeps_baselines(states, initial, samples, nows, n - 1);
        assert(updated(states[n - 1], states[n], samples[n - 1], nows[n - 1]));
    }
}

/// The session disk totals count from the first reading: after any run of
/// readings, each is the latest counter less the counter of the first
/// reading (0 where the counter fell below it), not what was read since the
/// previous reading. So while the counters grow, the session totals never
/// decrease.
pub proof fn lemma_session_totals_over_run<C>(
    states: Seq<App<C>>,
    initial: Sample<C>,
    samples: Seq<Sample<C>>,
    nows: Seq<u64>,
)
    requires
        run_from(states, initial, samples, nows),
    ensures
        forall|k: int|
            1 <= k <= samples.len() ==> {
                &&& (#[trigger] states[k]).disk_read_bytes_session == sat_sub(
                    samples[k - 1].disk_total_read_bytes,
                    initial.disk_total_read_bytes,
                )
                &&& states[k].disk_write_bytes_session == sat_sub(
                    samples[k - 1].disk_total_written_bytes,
                    initial.disk_total_written_bytes,
                )
            },
        forall|j: int, k: int|
            1 <= j <= k <= samples.len() && samples[j - 1].disk_total_read_bytes
                <= samples[k - 1].disk_total_read_bytes ==> (#[trigger] states[j]).disk_read_bytes_session
                <= (#[trigger] states[k]).disk_read_bytes_session,
        forall|j: int, k: int|
            1 <= j <= k <= samples.len() && samples[j - 1].disk_total_written_bytes
                <= samples[k - 1].disk_total_written_bytes
                ==> (#[trigger] states[j]).disk_write_bytes_session
                <= (#[trigger] states[k]).disk_write_bytes_session,
{
    assert forall|k: int| 1 <= k <= samples.len() implies {
        &&& (#[trigger] states[k]).disk_read_bytes_session == sat_sub(
            samples[k - 1].disk_total_read_bytes,
            initial.disk_total_read_bytes,
        )
        &&& states[k].disk_write_bytes_session == sat_sub(
            samples[k - 1].disk_total_written_bytes,
            initial.disk_total_written_bytes,
        )
    } by {
        lemma_run_keeps_baselines(states, initial, samples, nows, k - 1);
        assert(updated(states[k - 1], states[k], samples[k - 1], nows[k - 1]));
    }
}

impl<C: Copy> App<C> {
    /// What every state of the dashboard keeps: bounded histories, a trend
    /// buffer of at most `MEM_TREND_MAX_SAMPLES` samples taken at least one
    /// interval apart and ending at the last trend time, and a memory peak no
    /// lower than the current reading.
    pub open spec fn wf(&self) -> bool {
        &&& self.cpu_history@.len() <= HISTORY_LEN
        &&& self.mem_history@.len() <= HISTORY_LEN
        &&& 1 <= self.mem_trend_samples@.len() <= MEM_TREND_MAX_SAMPLES
        &&& self.mem_trend_samples@.last().0 == self.last_mem_trend_sample_at
        &&& trend_spaced(self.mem_trend_samples@)
        &&& self.mem_peak_mb >= self.mem_current_mb
    }

    /// Starts the dashboard from the first reading `initial`, taken at
    /// `now_ns`.
    pub fn new(
        pid: u32,
        process_name: String,
        exe_path: String,
        started_at_unix_secs: u64,
        mem_total_mb: u64,
        tick_interval_ms: u64,
        initial: Sample<C>,
        now_ns: u64,
    ) -> (app: Self)
        ensures
            app.wf(),
            app.pid == pid,
            app.process_name == process_name,
            app.exe_path == exe_path,
            app.started_at_unix_secs == started_at_unix_secs,
            app.mem_total_mb == mem_total_mb,
            app.tick_interval_ms == tick_interval_ms,
            app.status == initial.status,
            app.run_time_secs == initial.run_time_secs,
            app.cpu_history@ == Seq::<C>::empty(),
            app.mem_history@ == Seq::<u64>::empty(),
            app.mem_trend_samples@ == seq![(now_ns, mb_of(initial.memory_bytes))],
            evenly_spaced(app.mem_trend_samples@),
            app.last_mem_trend_sample_at == now_ns,
            app.cpu_current == initial.cpu_usage,
            app.mem_current_mb == mb_of(initial.memory_bytes),
            app.mem_peak_mb == mb_of(initial.memory_bytes),
            app.storage_total_mb == mb_of(initial.storage_total_bytes),
            app.storage_used_mb == used_mb_of(
                initial.storage_total_bytes,
                initial.storage_available_bytes,
            ),
            app.storage_mount_point == initial.storage_mount_point,
            app.disk_read_bytes_session == 0,
            app.disk_write_bytes_session == 0,
            app.baseline_read_bytes == initial.disk_total_read_bytes,
            app.baseline_write_bytes == initial.disk_total_written_bytes,
            app.last_read_bytes == initial.disk_total_read_bytes,
            app.last_write_bytes == initial.disk_total_written_bytes,
            app.last_sample_at == now_ns,
            !app.paused,
            !app.should_quit,
            !app.exited,
    {
        let mem_mb = initial.memory_bytes / BYTES_PER_MB;
        let mut trend: VecDeque<(u64, u64)> = VecDeque::new();
        trend.push_back((now_ns, mem_mb));
        assert(trend@ =~= seq![(now_ns, mem_mb)]);
        assert(evenly_spaced(trend@)) by {
            assert forall|k: int| 0 <= k < trend@.len() implies (#[trigger] trend@[k]).0 == trend@[0].0
                + k * trend_interval_ns() by {
                assert(k == 0);
            }
        }
        App {
            pid,
            process_name,
            exe_path,
            started_at_unix_secs,
            mem_total_mb,
            tick_interval_ms,
            status: initial.status,
            run_time_secs: initial.run_time_secs,
            cpu_history: VecDeque::with_capacity(HISTORY_LEN),
            mem_history: VecDeque::with_capacity(HISTORY_LEN),
            mem_trend_samples: trend,
            last_mem_trend_sample_at: now_ns,
            cpu_current: initial.cpu_usage,
            mem_current_mb: mem_mb,
            mem_peak_mb: mem_mb,
            storage_total_mb: initial.storage_total_bytes / BYTES_PER_MB,
            storage_used_mb: initial.storage_total_bytes.saturating_sub(
                initial.storage_available_bytes,
            ) / BYTES_PER_MB,
            storage_mount_point: initial.storage_mount_point,
            disk_read_bytes_session: 0,
            disk_write_bytes_session: 0,
            baseline_read_bytes: initial.disk_total_read_bytes,
            baseline_write_bytes: initial.disk_total_written_bytes,
            last_read_bytes: initial.disk_total_read_bytes,
            last_write_bytes: initial.disk_total_written_bytes,
            last_sample_at: now_ns,
            paused: false,
            should_quit: false,
            exited: false,
        }
    }

    /// Takes in a new reading taken at `now_ns`. Returns the disk traffic
    /// since the previous reading when some time has passed since it.
    pub fn update(&mut self, sample: Sample<C>, now_ns: u64) -> (delta: Option<DiskDelta>)
        requires
            old(self).wf(),
        ensures
            final(self).wf(),
            delta == disk_delta(*old(self), sample, now_ns),
            updated(*old(self), *final(self), sample, now_ns),
            final(self).baseline_read_bytes == old(self).baseline_read_bytes,
            final(self).baseline_write_bytes == old(self).baseline_write_bytes,
            final(self).disk_read_bytes_session == sat_sub(
                sample.disk_total_read_bytes,
                old(self).baseline_read_bytes,
            ),
            final(self).disk_write_bytes_session == sat_sub(
                sample.disk_total_written_bytes,
                old(self).baseline_write_bytes,
            ),
    {
        let elapsed = now_ns.saturating_sub(self.last_sample_at);
        let delta = if elapsed > 0 {
            Some(
                DiskDelta {
                    read_bytes: sample.disk_total_read_bytes.saturating_sub(self.last_read_bytes),
                    written_bytes: sample.disk_total_written_bytes.saturating_sub(
                        self.last_write_bytes,
                    ),
                    elapsed_ns: elapsed,
                },
            )
        } else {
            None
        };

        self.last_read_bytes = sample.disk_total_read_bytes;
        self.last_write_bytes = sample.disk_total_written_bytes;
        self.last_sample_at = now_ns;

        self.disk_read_bytes_session = sample.disk_total_read_bytes.saturating_sub(
            self.baseline_read_bytes,
        );
        self.disk_write_bytes_session = sample.disk_total_written_bytes.saturating_sub(
            self.baseline_write_bytes,
        );

        self.status = sample.status;
        self.run_time_secs = sample.run_time_secs;

        self.cpu_current = sample.cpu_usage;
        self.mem_current_mb = sample.memory_bytes / BYTES_PER_MB;
        if self.mem_current_mb > self.mem_peak_mb {
            self.mem_peak_mb = self.mem_current_mb;
        }
        self.storage_total_mb = sample.storage_total_bytes / BYTES_PER_MB;
        self.storage_used_mb = sample.storage_total_bytes.saturating_sub(
            sample.storage_available_bytes,
        ) / BYTES_PER_MB;
        self.storage_mount_point = sample.storage_mount_point;

        push_bounded_back(&mut self.cpu_history, self.cpu_current, HISTORY_LEN);
        push_bounded_back(&mut self.mem_history, self.mem_current_mb, HISTORY_LEN);

        let interval_ns: u64 = MEM_TREND_SAMPLE_INTERVAL_SECS * NANOS_PER_SEC;
        if now_ns.saturating_sub(self.last_mem_trend_sample_at) >= interval_ns {
            let ghost before = self.mem_trend_samples@;
            push_bounded_back(
                &mut self.mem_trend_samples,
                (now_ns, self.mem_current_mb),
                MEM_TREND_MAX_SAMPLES,
            );
            self.last_mem_trend_sample_at = now_ns;
            proof {
                let after = self.mem_trend_samples@;
                assert(trend_spaced(after)) by {
                    assert forall|k: int| 0 <= k < after.len() - 1 implies (#[trigger] after[k
                        + 1]).0 >= after[k].0 + trend_interval_ns() by {
                        if before.len() == MEM_TREND_MAX_SAMPLES {
                            if k + 1 < after.len() - 1 {
                                assert(after[k + 1] == before[k + 2]);
                                assert(after[k] == before[k + 1]);
                            } else {
                                assert(after[k] == before[before.len() - 1]);
                            }
                        } else {
                            if k + 1 < after.len() - 1 {
                                assert(after[k + 1] == before[k + 1]);
                                assert(after[k] == before[k]);
                            } else {
                                assert(after[k] == before[before.len() - 1]);
                            }
                        }
                    }
                }
            }
        }
        delta
    }

    /// Applies the outcome of one tick's reading: a reading updates the
    /// state, a process that is gone marks the dashboard as exited.
    pub fn tick(&mut self, reading: Result<Sample<C>, MonitorError>, now_ns: u64) -> (delta: Option<
        DiskDelta,
    >)
        requires
            old(self).wf(),
        ensures
            final(self).wf(),
            match reading {
                Ok(sample) => {
                    &&& delta == disk_delta(*old(self), sample, now_ns)
                    &&& updated(*old(self), *final(self), sample, now_ns)
                },
                Err(_) => {
                    &&& delta is None
                    &&& final(self).exited
                    &&& final(self).paused == old(self).paused
                    &&& final(self).should_quit == old(self).should_quit
                    &&& same_readings(*old(self), *final(self))
                    &&& same_identity(*old(self), *final(self))
                },
            },
    {
        match reading {
            Ok(sample) => self.update(sample, now_ns),
            Err(MonitorError::ProcessExited) => {
                self.exited = true;
                None
            },
        }
    }

    /// The memory trend over the trend buffer, once its samples span at least
    /// one sampling interval (a single sample cannot describe a trend).
    pub fn mem_trend(&self) -> (r: Option<MemTrend>)
        requires
            self.wf(),
        ensures
            r == trend_of(self.mem_trend_samples@),
    {
        let n = self.mem_trend_samples.len();
        let oldest = self.mem_trend_samples[0];
        let newest = self.mem_trend_samples[n - 1];
        let elapsed = newest.0.saturating_sub(oldest.0);
        let interval_ns: u64 = MEM_TREND_SAMPLE_INTERVAL_SECS * NANOS_PER_SEC;
        if elapsed < interval_ns {
            None
        } else {
            Some(MemTrend { oldest_mb: oldest.1, newest_mb: newest.1, elapsed_ns: elapsed })
        }
    }

    /// Dashboard keys: `q` quits, `p` pauses or resumes, `r` clears the
    /// CPU and memory graphs. Any other key does nothing.
    pub fn handle_key(&mut self, key: Key)
        requires
            old(self).wf(),
        ensures
            final(self).wf(),
            final(self).should_quit == (old(self).should_quit || key == Key::Char('q')),
            final(self).paused == (if key == Key::Char('p') {
                !old(self).paused
            } else {
                old(self).paused
            }),
            final(self).exited == old(self).exited,
            same_identity(*old(self), *final(self)),
            key == Key::Char('r') ==> {
                &&& final(self).cpu_history@ == Seq::<C>::empty()
                &&& final(self).mem_history@ == Seq::<u64>::empty()
                &&& same_readings_but_graphs(*old(self), *final(self))
            },
            key != Key::Char('r') ==> same_readings(*old(self), *final(self)),
    {
        match key {
            Key::Char('q') => {
                self.should_quit = true;
            },
            Key::Char('p') => {
                self.paused = !self.paused;
            },
            Key::Char('r') => {
                self.cpu_history.clear();
                self.mem_history.clear();
            },
            _ => {},
        }
    }

    /// The timer's decision `since_last_tick_ns` after the last tick: wait
    /// until the tick interval has passed, then take a reading, or, while
    /// paused, take none (a paused dashboard takes no readings).
    pub fn timer_action(&self, since_last_tick_ns: u64) -> (a: TimerAction)
        ensures
            (since_last_tick_ns as nat) < interval_ns(self.tick_interval_ms) ==> a == TimerAction::Wait,
            (since_last_tick_ns as nat) >= interval_ns(self.tick_interval_ms) && self.paused ==> a
                == TimerAction::Skip,
            (since_last_tick_ns as nat) >= interval_ns(self.tick_interval_ms) && !self.paused ==> a
                == TimerAction::TakeReading,
    {
        if !interval_passed(since_last_tick_ns, self.tick_interval_ms) {
            TimerAction::Wait
        } else if self.paused {
            TimerAction::Skip
        } else {
            TimerAction::TakeReading
        }
    }

    /// Whether the dashboard loop is over: the user quit or the process exited.
    pub fn should_stop(&self) -> (r: bool)
        ensures
            r == (self.should_quit || self.exited),
    {
        self.should_quit || self.exited
    }

    /// Free space shown on the storage panel: the total (at least 1 MB) less
    /// the space in use, or 0.
    pub fn storage_free_mb(&self) -> (r: u64)
        ensures
            r == sat_sub(
                if self.storage_total_mb >= 1 {
                    self.storage_total_mb
                } else {
                    1
                },
                self.storage_used_mb,
            ),
    {
        let total = if self.storage_total_mb >= 1 {
            self.storage_total_mb
        } else {
            1
        };
        total.saturating_sub(self.storage_used_mb)
    }
}

/// Whole MB in `bytes`, with the binary MB of `BYTES_PER_MB`.
pub fn bytes_to_mb(bytes: u64) -> (r: u64)
    ensures
        r == mb_of(bytes),
{
    bytes / BYTES_PER_MB
}

} // verus!
