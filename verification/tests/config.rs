use pview::config::{
    BYTES_PER_MB, HISTORY_LEN, MEM_TREND_MAX_SAMPLES, MEM_TREND_SAMPLE_INTERVAL_SECS,
    MEM_TREND_WINDOW_SECS,
};

#[test]
fn memory_trend_capacity_covers_full_window() {
    let covered_intervals = MEM_TREND_MAX_SAMPLES.saturating_sub(1) as u64;
    assert_eq!(
        covered_intervals * MEM_TREND_SAMPLE_INTERVAL_SECS,
        MEM_TREND_WINDOW_SECS
    );
}

#[test]
fn configured_units_and_sizes() {
    assert_eq!(BYTES_PER_MB, 1024 * 1024);
    assert_eq!(HISTORY_LEN, 60);
    assert_eq!(MEM_TREND_MAX_SAMPLES, 61);
}
