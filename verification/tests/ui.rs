use pview::ui::{
    bar_segment, format_duration, format_mb_as_gb, format_unix_secs, label_bounds, lift_visible,
    resample_to_width, status_display, trend_minutes, truncate_exe_path, StatusTone,
};

#[test]
fn format_duration_pads_each_field() {
    assert_eq!(format_duration(0), "00:00:00");
    assert_eq!(format_duration(59), "00:00:59");
    assert_eq!(format_duration(3661), "01:01:01");
    assert_eq!(format_duration(86399), "23:59:59");
    assert_eq!(format_duration(360000), "100:00:00");
    for t in [0u64, 7, 61, 3599, 3600, 45296, 999_999] {
        let expected = format!("{:02}:{:02}:{:02}", t / 3600, (t % 3600) / 60, t % 60);
        assert_eq!(format_duration(t), expected);
    }
}

#[test]
fn format_unix_secs_shows_utc_time_of_day() {
    assert_eq!(format_unix_secs(0), "00:00:00 UTC");
    assert_eq!(format_unix_secs(1_725_029_869), "14:57:49 UTC");
    assert_eq!(format_unix_secs(86400 + 3723), "01:02:03 UTC");
    // the same time one day later
    assert_eq!(format_unix_secs(1234), format_unix_secs(1234 + 86400));
    assert_eq!(format_unix_secs(90061), format!("{} UTC", format_duration(90061 % 86400)));
}

#[test]
fn format_mb_as_gb_rounds_near_whole_numbers() {
    assert_eq!(format_mb_as_gb(32768), "32 GB");
    assert_eq!(format_mb_as_gb(16384 - 40), "16 GB");
    assert_eq!(format_mb_as_gb(16384 + 51), "16 GB");
    assert_eq!(format_mb_as_gb(16384 + 52), "16.1 GB");
    assert_eq!(format_mb_as_gb(1536), "1.5 GB");
    assert_eq!(format_mb_as_gb(0), "0 GB");
    assert_eq!(format_mb_as_gb(500), "0.5 GB");
    assert_eq!(format_mb_as_gb(u64::MAX / 1_048_576 + 1), "17179869184 GB");
}

#[test]
fn format_mb_as_gb_matches_float_formatting() {
    for mb in (0u64..70_000).chain([1_000_000, 123_456_789, 7_654_321_001]) {
        let total_gb = mb as f64 / 1024.0;
        let expected = if (total_gb - total_gb.round()).abs() < 0.05 {
            format!("{:.0} GB", total_gb.round())
        } else {
            format!("{total_gb:.1} GB")
        };
        assert_eq!(format_mb_as_gb(mb), expected, "mb = {mb}");
    }
}

#[test]
fn resample_to_width_right_aligns_samples() {
    // an empty or zero-sized graph
    assert!(resample_to_width(&[1, 2, 3], 0, 60).is_empty());
    assert!(resample_to_width(&[1, 2, 3], 10, 0).is_empty());
    // no data: all columns empty
    assert_eq!(resample_to_width(&[], 4, 60), vec![0, 0, 0, 0]);
    // a full history on as many columns as ticks is copied
    let full: Vec<u64> = (1..=60).collect();
    assert_eq!(resample_to_width(&full, 60, 60), full);
    // half a history fills the right half
    let half: Vec<u64> = (1..=30).collect();
    let r = resample_to_width(&half, 60, 60);
    assert_eq!(r.len(), 60);
    assert!(r[..30].iter().all(|&v| v == 0));
    assert_eq!(&r[30..], &half[..]);
    // two columns per tick
    assert_eq!(resample_to_width(&[5, 7], 8, 4), vec![0, 0, 0, 0, 5, 5, 7, 7]);
    // more ticks than columns: nearest sample
    assert_eq!(resample_to_width(&[1, 2, 3, 4], 2, 4), vec![1, 3]);
}

#[test]
fn resample_width_is_exact() {
    for n in 0..=60usize {
        let data: Vec<u64> = (0..n as u64).map(|v| v + 1).collect();
        for width in 1..=130usize {
            let r = resample_to_width(&data, width, 60);
            assert_eq!(r.len(), width);
            let filled = (n * width / 60).min(width);
            assert!(r[..width - filled].iter().all(|&v| v == 0));
            assert!(r[width - filled..].iter().all(|&v| v > 0));
        }
    }
}

#[test]
fn lift_visible_raises_only_nonzero_samples() {
    // one row: 8 levels against 100, so the smallest visible value is 13
    assert_eq!(lift_visible(vec![0, 1, 12, 13, 50], 100, 1), vec![0, 13, 13, 13, 50]);
    // two rows: 16 levels, ceil(100 / 16) = 7
    assert_eq!(lift_visible(vec![0, 3, 7, 9], 100, 2), vec![0, 7, 7, 9]);
    // no rows: nothing is raised
    assert_eq!(lift_visible(vec![0, 3], 100, 0), vec![0, 3]);
    // a zero maximum still shows nonzero samples
    assert_eq!(lift_visible(vec![0, 0], 0, 3), vec![0, 0]);
    assert_eq!(lift_visible(vec![1], 0, 3), vec![1]);
    // every lifted nonzero sample reaches at least one level
    for height in 1u16..6 {
        let lifted = lift_visible((0..=100).collect(), 100, height);
        for (v, l) in (0u64..=100).zip(lifted) {
            if v > 0 {
                assert!(l * height as u64 * 8 / 100 >= 1);
            } else {
                assert_eq!(l, 0);
            }
        }
    }
}

#[test]
fn bar_segments_split_at_the_fill() {
    assert_eq!(bar_segment(0, 10, 4), (4, 6));
    assert_eq!(bar_segment(0, 10, 0), (0, 10));
    assert_eq!(bar_segment(0, 10, 15), (10, 0));
    assert_eq!(bar_segment(6, 10, 4), (0, 4));
    assert_eq!(bar_segment(6, 10, 8), (2, 2));
    assert_eq!(bar_segment(5, 5, 3), (0, 0));
    assert_eq!(bar_segment(7, 3, 3), (0, 0));
}

#[test]
fn labels_are_centred_on_bars() {
    assert_eq!(label_bounds(20, 6), (7, 13));
    assert_eq!(label_bounds(20, 7), (6, 13));
    assert_eq!(label_bounds(4, 10), (0, 4));
    assert_eq!(label_bounds(0, 3), (0, 0));
    // the label and the cells around it make up the whole bar
    for width in 0..30usize {
        for label in 0..35usize {
            for filled in 0..32usize {
                let (start, end) = label_bounds(width, label);
                let (f0, t0) = bar_segment(0, start, filled);
                let (f1, t1) = bar_segment(end, width, filled);
                assert_eq!(f0 + t0 + (end - start) + f1 + t1, width);
            }
        }
    }
}

#[test]
fn truncate_exe_path_keeps_last_three_components() {
    assert_eq!(
        truncate_exe_path(r"C:\Games\Ascension\bin\worldserver.exe"),
        r"...\Ascension\bin\worldserver.exe"
    );
    assert_eq!(
        truncate_exe_path("/usr/local/lib/app/run"),
        r"...\lib\app\run"
    );
    assert_eq!(truncate_exe_path(r"C:\bin\x.exe"), r"C:\bin\x.exe");
    assert_eq!(truncate_exe_path("/a//b/"), "/a//b/");
    assert_eq!(truncate_exe_path("<unknown>"), "<unknown>");
    assert_eq!(truncate_exe_path("//a//b//c//d//"), r"...\b\c\d");
    assert_eq!(truncate_exe_path(""), "");
}

#[test]
fn status_badge_shows_paused_over_status() {
    let (text, tone) = status_display(true, &"Run".to_string());
    assert_eq!(text, "PAUSED");
    assert!(tone == StatusTone::Paused);
    let (text, tone) = status_display(false, &"Sleep".to_string());
    assert_eq!(text, "Sleep");
    assert!(tone == StatusTone::Live);
}

#[test]
fn trend_minutes_only_while_warming_up() {
    assert_eq!(trend_minutes(0), Some(1));
    assert_eq!(trend_minutes(59), Some(1));
    assert_eq!(trend_minutes(60), Some(1));
    assert_eq!(trend_minutes(720), Some(12));
    assert_eq!(trend_minutes(3599), Some(59));
    assert_eq!(trend_minutes(3600), None);
    assert_eq!(trend_minutes(100_000), None);
}

#[test]
fn truncating_twice_is_truncating_once() {
    for p in [
        r"C:\Games\Ascension\bin\worldserver.exe",
        "/usr/local/lib/app/run",
        "//a//b//c//d//",
        r"C:\bin\x.exe",
        "",
        "a/b/c/d/e/f",
    ] {
        let once = truncate_exe_path(p);
        assert_eq!(truncate_exe_path(&once), once);
    }
}

#[test]
fn shown_gb_is_within_a_twentieth() {
    for mb in 0u64..50_000 {
        let text = format_mb_as_gb(mb);
        let number: f64 = text.trim_end_matches(" GB").parse().unwrap();
        assert!((number - mb as f64 / 1024.0).abs() <= 0.05 + 1e-12, "mb = {mb}");
        if let Some((_, decimals)) = text.trim_end_matches(" GB").split_once('.') {
            assert_eq!(decimals.len(), 1);
            assert_ne!(decimals, "0");
        }
    }
}
