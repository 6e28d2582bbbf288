use pview::input::Key;
use pview::picker::{
    format_mem, mark_group_roots, more_below_hint, refresh_due, search_summary, snapshot_processes,
    sort_by_name, split_extension, visible_rows, PickerAction, PickerEntry, PickerState,
};

fn entry(pid: u32, name: &str, parent: Option<u32>) -> PickerEntry<f32> {
    PickerEntry {
        pid,
        name: name.to_string(),
        parent,
        is_group_root: false,
        cpu_usage: pid as f32 / 10.0,
        memory_bytes: pid as u64 * 1_048_576,
    }
}

fn pids(entries: &[PickerEntry<f32>]) -> Vec<u32> {
    entries.iter().map(|e| e.pid).collect()
}

fn listed_pids(state: &PickerState<f32>) -> Vec<u32> {
    state.filtered.iter().map(|&i| state.all[i].pid).collect()
}

#[test]
fn sort_by_name_ignores_case_and_is_stable() {
    let mut entries = vec![
        entry(1, "b", None),
        entry(2, "A", None),
        entry(3, "a", None),
        entry(4, "B", None),
        entry(5, "c", None),
        entry(6, "Ab", None),
    ];
    sort_by_name(&mut entries);
    assert_eq!(pids(&entries), vec![2, 3, 6, 1, 4, 5]);
    // the moved entries keep their fields
    assert_eq!(entries[0].name, "A");
    assert_eq!(entries[0].memory_bytes, 2 * 1_048_576);
}

#[test]
fn sort_by_name_uses_unicode_lowercase() {
    let mut entries = vec![entry(1, "Émile", None), entry(2, "éa", None), entry(3, "z", None)];
    sort_by_name(&mut entries);
    assert_eq!(pids(&entries), vec![3, 2, 1]);
}

#[test]
fn group_roots_are_namesakes_without_a_namesake_parent() {
    let mut entries = vec![
        entry(100, "explorer.exe", Some(1)),
        entry(200, "chrome.exe", Some(100)),
        entry(201, "chrome.exe", Some(200)),
        entry(202, "Chrome.exe", Some(200)),
        entry(300, "solo.exe", Some(100)),
        entry(400, "svc", None),
        entry(401, "svc", None),
    ];
    entries[4].is_group_root = true;
    mark_group_roots(&mut entries);
    let marks: Vec<bool> = entries.iter().map(|e| e.is_group_root).collect();
    assert_eq!(marks, vec![false, true, false, false, true, true, true]);
    assert_eq!(pids(&entries), vec![100, 200, 201, 202, 300, 400, 401]);
}

#[test]
fn snapshot_leaves_out_own_process() {
    let raw = vec![
        entry(1, "a", None),
        entry(2, "pview", None),
        entry(3, "a", Some(1)),
    ];
    let snap = snapshot_processes(raw, 2);
    assert_eq!(pids(&snap), vec![1, 3]);
    assert!(snap[0].is_group_root);
    assert!(!snap[1].is_group_root);
}

fn sample_state(query: &str) -> PickerState<f32> {
    PickerState::new(
        vec![
            entry(30, "firefox", None),
            entry(10, "chrome", None),
            entry(20, "Chromium", None),
            entry(40, "bash", None),
        ],
        query.to_string(),
    )
}

#[test]
fn new_picker_sorts_and_lists_everything_without_query() {
    let state = sample_state("");
    assert_eq!(pids(&state.all), vec![40, 10, 20, 30]);
    assert_eq!(state.filtered, vec![0, 1, 2, 3]);
    assert_eq!(state.selected, 0);
}

#[test]
fn query_filters_with_fuzzy_matching() {
    let state = sample_state("chr");
    assert_eq!(listed_pids(&state), vec![10, 20]);
    let state = sample_state("ffx");
    assert_eq!(listed_pids(&state), vec![30]);
    let state = sample_state("zzz");
    assert!(state.filtered.is_empty());
}

#[test]
fn typing_and_erasing_update_the_list() {
    let mut state = sample_state("");
    state.selected = 2;
    assert!(matches!(state.handle_key(Key::Char('c')), PickerAction::Continue));
    assert_eq!(state.query, "c");
    assert_eq!(state.selected, 0);
    assert!(matches!(state.handle_key(Key::Char('h')), PickerAction::Continue));
    assert_eq!(listed_pids(&state), vec![10, 20]);
    assert!(matches!(state.handle_key(Key::Backspace), PickerAction::Continue));
    assert_eq!(state.query, "c");
    assert_eq!(listed_pids(&state), sample_state("c").filtered.iter().map(|&i| state.all[i].pid).collect::<Vec<_>>());
    state.handle_key(Key::Backspace);
    state.handle_key(Key::Backspace);
    assert_eq!(state.query, "");
    assert_eq!(state.filtered.len(), 4);
}

#[test]
fn letters_are_search_input_not_commands() {
    let mut state = sample_state("");
    for c in ['q', 'j', 'k'] {
        assert!(matches!(state.handle_key(Key::Char(c)), PickerAction::Continue));
    }
    assert_eq!(state.query, "qjk");
}

#[test]
fn arrows_move_within_the_list_and_enter_selects() {
    let mut state = sample_state("");
    state.handle_key(Key::Up);
    assert_eq!(state.selected, 0);
    for _ in 0..10 {
        state.handle_key(Key::Down);
    }
    assert_eq!(state.selected, 3);
    state.handle_key(Key::Up);
    assert_eq!(state.selected, 2);
    match state.handle_key(Key::Enter) {
        PickerAction::Select(pid) => assert_eq!(pid, 20),
        _ => panic!("enter should select the highlighted process"),
    }
    assert!(matches!(state.handle_key(Key::Esc), PickerAction::Cancel));
    assert!(matches!(state.handle_key(Key::Other), PickerAction::Continue));
    assert_eq!(state.selected, 2);
}

#[test]
fn enter_on_empty_list_does_nothing() {
    let mut state = sample_state("zzz");
    assert!(matches!(state.handle_key(Key::Enter), PickerAction::Continue));
    state.handle_key(Key::Down);
    assert_eq!(state.selected, 0);
}

#[test]
fn refresh_keeps_the_highlighted_process() {
    let mut state = sample_state("");
    state.selected = 2; // Chromium, pid 20
    state.refresh(vec![
        entry(20, "Chromium", None),
        entry(5, "apache", None),
        entry(6, "zsh", None),
        entry(10, "chrome", None),
    ]);
    assert_eq!(pids(&state.all), vec![5, 10, 20, 6]);
    assert_eq!(state.selected, 2);
    // the process is gone: back to the first row
    state.refresh(vec![entry(6, "zsh", None), entry(5, "apache", None)]);
    assert_eq!(state.selected, 0);
    // the search is kept
    let mut state = sample_state("chr");
    state.selected = 1;
    state.refresh(vec![entry(20, "Chromium", None), entry(30, "firefox", None)]);
    assert_eq!(state.query, "chr");
    assert_eq!(listed_pids(&state), vec![20]);
    assert_eq!(state.selected, 0);
}

#[test]
fn visible_rows_keep_the_selection_in_view() {
    assert_eq!(visible_rows(10, 4, 3), (4, 0, 0));
    assert_eq!(visible_rows(5, 20, 0), (4, 0, 16));
    assert_eq!(visible_rows(5, 20, 3), (4, 0, 16));
    assert_eq!(visible_rows(5, 20, 4), (4, 1, 15));
    assert_eq!(visible_rows(5, 20, 19), (4, 16, 0));
    assert_eq!(visible_rows(1, 3, 2), (1, 2, 0));
    assert_eq!(visible_rows(0, 3, 0), (1, 0, 2));
    for capacity in 0..12usize {
        for total in 0..15usize {
            for selected in 0..total {
                let (visible, offset, below) = visible_rows(capacity, total, selected);
                assert!(offset <= selected && selected < offset + visible);
                assert_eq!(offset + visible + below, total);
            }
        }
    }
}

#[test]
fn more_below_hint_counts_matches() {
    assert_eq!(more_below_hint(1), "▼ 1 more match below — keep scrolling");
    assert_eq!(more_below_hint(12), "▼ 12 more matches below — keep scrolling");
}

#[test]
fn search_summary_mentions_matches_only_when_searching() {
    assert_eq!(search_summary("", 3, 120), "120 processes total");
    assert_eq!(search_summary("ch", 3, 120), "3 matches  ·  120 processes total");
}

#[test]
fn split_extension_at_last_dot() {
    assert_eq!(
        split_extension("chrome.exe"),
        Some(("chrome".to_string(), ".exe".to_string()))
    );
    assert_eq!(
        split_extension("a.tar.gz"),
        Some(("a.tar".to_string(), ".gz".to_string()))
    );
    assert_eq!(split_extension(".hidden"), Some((String::new(), ".hidden".to_string())));
    assert_eq!(split_extension("bash"), None);
    assert_eq!(split_extension("é.ü"), Some(("é".to_string(), ".ü".to_string())));
}

#[test]
fn format_mem_switches_to_gb() {
    assert_eq!(format_mem(0), "0 MB");
    assert_eq!(format_mem(1_048_575), "0 MB");
    assert_eq!(format_mem(512 * 1_048_576), "512 MB");
    assert_eq!(format_mem(1023 * 1_048_576), "1023 MB");
    assert_eq!(format_mem(1024 * 1_048_576), "1.0 GB");
    assert_eq!(format_mem(1536 * 1_048_576), "1.5 GB");
    assert_eq!(format_mem(u64::MAX), "17179869184.0 GB");
    assert_eq!(format_mem(1280 * 1_048_576), "1.2 GB");
}

#[test]
fn format_mem_matches_float_formatting() {
    for mb in (1024u64..200_000).chain([10_000_000, 17_592_186_044_415]) {
        let expected = format!("{:.1} GB", mb as f64 / 1024.0);
        assert_eq!(format_mem(mb * 1_048_576), expected, "mb = {mb}");
    }
}

#[test]
fn refresh_is_due_once_the_tick_has_passed() {
    assert!(!refresh_due(0, 1000));
    assert!(!refresh_due(999_999_999, 1000));
    assert!(refresh_due(1_000_000_000, 1000));
    assert!(refresh_due(2_000_000_000, 250));
    assert!(!refresh_due(u64::MAX, u64::MAX));
}

#[test]
fn uppercase_in_the_query_makes_matching_case_sensitive() {
    let state = sample_state("Chr");
    assert_eq!(listed_pids(&state), vec![20]);
    let state = sample_state("CHR");
    assert!(state.filtered.is_empty());
    // out-of-order characters do not match
    let state = sample_state("rhc");
    assert!(state.filtered.is_empty());
    // characters need not be adjacent
    let state = sample_state("cim");
    assert_eq!(listed_pids(&state), vec![20]);
}
