//! Fixed settings of the monitor: refresh bounds, history sizes and units.
use vstd::prelude::*;

verus! {

/// Refresh interval used when none is given, in milliseconds.
pub const DEFAULT_INTERVAL_MS: u64 = 1000;

/// Smallest accepted refresh interval, in milliseconds.
pub const MIN_INTERVAL_MS: u64 = 250;

/// Largest accepted refresh interval, in milliseconds.
pub const MAX_INTERVAL_MS: u64 = 1000;

/// Number of ticks kept in the CPU and memory graph histories.
pub const HISTORY_LEN: usize = 60;

/// Spacing between samples of the long-lived memory-trend buffer, which is
/// sampled far less often than the dashboard ticks so that a modest,
/// fixed-size buffer covers a full hour.
pub const MEM_TREND_SAMPLE_INTERVAL_SECS: u64 = 60;

/// Time span covered by the memory-trend buffer.
pub const MEM_TREND_WINDOW_SECS: u64 = 60 * 60;

/// Most samples kept in the memory-trend buffer. Covering the window needs
/// both of its endpoints: minute zero plus the following 60 minute marks.
pub const MEM_TREND_MAX_SAMPLES: usize = (MEM_TREND_WINDOW_SECS / MEM_TREND_SAMPLE_INTERVAL_SECS) as usize + 1;

/// Binary (1024-based) bytes per MB, used wherever bytes become MB or GB so
/// that the units match those of the Windows system tools.
pub const BYTES_PER_MB: u64 = 1_048_576;

/// Nanoseconds per second, the unit of the monitor's clock.
pub const NANOS_PER_SEC: u64 = 1_000_000_000;

/// The memory-trend buffer covers its whole window: a full buffer spans
/// `MEM_TREND_MAX_SAMPLES - 1` sampling intervals, which make exactly one
/// window.
pub proof fn lemma_trend_capacity_covers_window()
    ensures
        (MEM_TREND_MAX_SAMPLES - 1) * MEM_TREND_SAMPLE_INTERVAL_SECS == MEM_TREND_WINDOW_SECS,
        MEM_TREND_MAX_SAMPLES == MEM_TREND_WINDOW_SECS / MEM_TREND_SAMPLE_INTERVAL_SECS + 1,
{
}

} // verus!
