use pview::app::{bytes_to_mb, App, TimerAction};
use pview::config::{HISTORY_LEN, MEM_TREND_MAX_SAMPLES};
use pview::input::Key;
use pview::monitor::{MonitorError, Sample};

const MB: u64 = 1_048_576;
const SEC: u64 = 1_000_000_000;

fn sample(cpu: f32, mem_mb: u64, read: u64, written: u64) -> Sample<f32> {
    Sample {
        cpu_usage: cpu,
        memory_bytes: mem_mb * MB,
        disk_total_read_bytes: read,
        disk_total_written_bytes: written,
        status: "Run".to_string(),
        run_time_secs: 5,
        storage_total_bytes: 100 * 1024 * MB,
        storage_available_bytes: 40 * 1024 * MB,
        storage_mount_point: "/".to_string(),
    }
}

fn new_app(now: u64) -> App<f32> {
    App::new(
        42,
        "worker".to_string(),
        "/usr/bin/worker".to_string(),
        1_700_000_000,
        16 * 1024,
        1000,
        sample(3.5, 200, 1000, 500),
        now,
    )
}

#[test]
fn new_app_starts_from_the_first_reading() {
    let app = new_app(7);
    assert_eq!(app.mem_current_mb, 200);
    assert_eq!(app.mem_peak_mb, 200);
    assert_eq!(app.cpu_current, 3.5);
    assert_eq!(app.storage_total_mb, 100 * 1024);
    assert_eq!(app.storage_used_mb, 60 * 1024);
    assert_eq!(app.storage_free_mb(), 40 * 1024);
    assert_eq!(app.disk_read_bytes_session, 0);
    assert_eq!(app.disk_write_bytes_session, 0);
    assert!(app.cpu_history.is_empty() && app.mem_history.is_empty());
    assert_eq!(app.mem_trend_samples.len(), 1);
    assert!(!app.paused && !app.should_quit && !app.exited);
    assert!(app.mem_trend().is_none());
}

#[test]
fn update_tracks_deltas_sessions_and_peaks() {
    let mut app = new_app(0);
    let delta = app.update(sample(10.0, 300, 1000 + 4 * MB, 500 + MB), SEC / 2).expect("time passed");
    assert_eq!(delta.read_bytes, 4 * MB);
    assert_eq!(delta.written_bytes, MB);
    assert_eq!(delta.elapsed_ns, SEC / 2);
    assert_eq!(app.disk_read_bytes_session, 4 * MB);
    assert_eq!(app.disk_write_bytes_session, MB);
    assert_eq!(app.mem_peak_mb, 300);
    // memory drops: the peak stays
    app.update(sample(1.0, 250, 1000 + 4 * MB, 500 + MB), SEC);
    assert_eq!(app.mem_current_mb, 250);
    assert_eq!(app.mem_peak_mb, 300);
    // counters that go backwards saturate at zero
    let delta = app.update(sample(1.0, 250, 10, 10), 2 * SEC).unwrap();
    assert_eq!(delta.read_bytes, 0);
    assert_eq!(app.disk_read_bytes_session, 0);
    // no time elapsed: no rate
    assert!(app.update(sample(1.0, 250, 10, 10), 2 * SEC).is_none());
    assert_eq!(app.cpu_history.iter().copied().collect::<Vec<_>>(), vec![10.0, 1.0, 1.0, 1.0]);
    assert_eq!(app.mem_history.iter().copied().collect::<Vec<_>>(), vec![300, 250, 250, 250]);
}

#[test]
fn histories_keep_the_latest_window() {
    let mut app = new_app(0);
    for i in 0..(HISTORY_LEN as u64 + 15) {
        app.update(sample(i as f32, i, 0, 0), (i + 1) * SEC);
        assert!(app.mem_history.len() <= HISTORY_LEN);
        assert!(app.cpu_history.len() <= HISTORY_LEN);
    }
    assert_eq!(app.mem_history.len(), HISTORY_LEN);
    assert_eq!(app.mem_history.front().copied(), Some(15));
    assert_eq!(app.mem_history.back().copied(), Some(HISTORY_LEN as u64 + 14));
}

#[test]
fn memory_trend_samples_once_per_interval() {
    let mut app = new_app(0);
    // ticks every second for 59 seconds: no trend sample yet
    for s in 1..60u64 {
        app.update(sample(0.0, 200 + s, 0, 0), s * SEC);
    }
    assert_eq!(app.mem_trend_samples.len(), 1);
    assert!(app.mem_trend().is_none());
    app.update(sample(0.0, 320, 0, 0), 60 * SEC);
    assert_eq!(app.mem_trend_samples.len(), 2);
    let trend = app.mem_trend().expect("a full interval has passed");
    assert_eq!(trend.oldest_mb, 200);
    assert_eq!(trend.newest_mb, 320);
    assert_eq!(trend.elapsed_ns, 60 * SEC);
    // two hours later the buffer is full and spans one hour
    for m in 2..=120u64 {
        app.update(sample(0.0, 200 + m, 0, 0), m * 60 * SEC);
    }
    assert_eq!(app.mem_trend_samples.len(), MEM_TREND_MAX_SAMPLES);
    let trend = app.mem_trend().unwrap();
    assert_eq!(trend.elapsed_ns, 3600 * SEC);
    assert_eq!(trend.newest_mb, 320);
    assert_eq!(trend.oldest_mb, 260);
}

#[test]
fn keys_quit_pause_and_reset() {
    let mut app = new_app(0);
    app.update(sample(50.0, 400, 0, 0), SEC);
    app.handle_key(Key::Char('p'));
    assert!(app.paused);
    app.handle_key(Key::Char('p'));
    assert!(!app.paused);
    app.handle_key(Key::Char('r'));
    assert!(app.cpu_history.is_empty() && app.mem_history.is_empty());
    assert_eq!(app.mem_peak_mb, 400);
    app.handle_key(Key::Char('x'));
    app.handle_key(Key::Up);
    assert!(!app.should_quit && !app.should_stop());
    app.handle_key(Key::Char('q'));
    assert!(app.should_quit && app.should_stop());
}

#[test]
fn tick_marks_an_exited_process() {
    let mut app = new_app(0);
    assert!(app.tick(Ok(sample(1.0, 210, 0, 0)), SEC).is_some());
    assert!(!app.exited);
    assert!(app.tick(Err(MonitorError::ProcessExited), 2 * SEC).is_none());
    assert!(app.exited && app.should_stop());
    assert_eq!(app.mem_current_mb, 210);
}

#[test]
fn bytes_to_mb_is_binary() {
    assert_eq!(bytes_to_mb(0), 0);
    assert_eq!(bytes_to_mb(MB - 1), 0);
    assert_eq!(bytes_to_mb(3 * MB + 5), 3);
}

#[test]
fn timer_waits_skips_while_paused_and_reads() {
    let mut app = new_app(0);
    assert_eq!(app.timer_action(0), TimerAction::Wait);
    assert_eq!(app.timer_action(999_999_999), TimerAction::Wait);
    assert_eq!(app.timer_action(SEC), TimerAction::TakeReading);
    app.handle_key(Key::Char('p'));
    assert_eq!(app.timer_action(500_000_000), TimerAction::Wait);
    assert_eq!(app.timer_action(5 * SEC), TimerAction::Skip);
    app.handle_key(Key::Char('p'));
    assert_eq!(app.timer_action(5 * SEC), TimerAction::TakeReading);
    // an interval too long for the clock is never reached
    let mut long = new_app(0);
    long.tick_interval_ms = u64::MAX;
    assert_eq!(long.timer_action(u64::MAX), TimerAction::Wait);
}

#[test]
fn trend_over_a_full_window_spans_exactly_one_hour() {
    let mut app = new_app(0);
    let mem = |k: u64| 200 + 3 * k;
    for k in 1..=90u64 {
        app.update(sample(0.0, mem(k), 0, 0), k * 60 * SEC);
    }
    assert_eq!(app.mem_trend_samples.len(), MEM_TREND_MAX_SAMPLES);
    let trend = app.mem_trend().unwrap();
    assert_eq!(trend.elapsed_ns, 3600 * SEC);
    assert_eq!(trend.newest_mb, mem(90));
    assert_eq!(trend.oldest_mb, mem(30));
    let times: Vec<u64> = app.mem_trend_samples.iter().map(|s| s.0).collect();
    for w in times.windows(2) {
        assert_eq!(w[1] - w[0], 60 * SEC);
    }
}
