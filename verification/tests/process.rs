use pview::process::{resolve_target, LookupResult, ProcessInfo};
use sysinfo::System;

fn running_processes() -> Vec<ProcessInfo> {
    let mut sys = System::new_all();
    sys.refresh_all();
    sys.processes()
        .values()
        .map(|p| ProcessInfo {
            pid: p.pid().as_u32(),
            name: p.name().to_string_lossy().into_owned(),
        })
        .collect()
}

fn info(pid: u32, name: &str) -> ProcessInfo {
    ProcessInfo {
        pid,
        name: name.to_string(),
    }
}

#[test]
fn resolve_target_finds_own_pid_by_number() {
    let procs = running_processes();
    let own_pid = sysinfo::get_current_pid().expect("own pid").as_u32();

    match resolve_target(&procs, &own_pid.to_string()) {
        LookupResult::Found(pid) => assert_eq!(pid, own_pid),
        _ => panic!("expected own process to be found by pid"),
    }
}

#[test]
fn resolve_target_not_found_for_bogus_input() {
    let procs = running_processes();

    assert!(matches!(
        resolve_target(&procs, "definitely-not-a-real-process-name"),
        LookupResult::NotFound
    ));
    assert!(matches!(
        resolve_target(&procs, "999999999"),
        LookupResult::NotFound
    ));
}

#[test]
fn resolve_target_by_name_ignores_ascii_case() {
    let procs = vec![info(10, "Explorer.EXE"), info(11, "code"), info(12, "Code.exe")];
    assert_eq!(resolve_target(&procs, "explorer.exe"), LookupResult::Found(10));
    assert_eq!(resolve_target(&procs, "CODE"), LookupResult::Found(11));
    assert_eq!(resolve_target(&procs, "cod"), LookupResult::NotFound);
}

#[test]
fn resolve_target_reports_ambiguous_names() {
    let procs = vec![info(1, "chrome.exe"), info(2, "Chrome.exe"), info(3, "other")];
    assert_eq!(resolve_target(&procs, "CHROME.EXE"), LookupResult::Ambiguous);
}

#[test]
fn numeric_target_is_only_a_pid() {
    // a process literally named "42" is not found by name
    let procs = vec![info(7, "42"), info(42, "init")];
    assert_eq!(resolve_target(&procs, "42"), LookupResult::Found(42));
    assert_eq!(resolve_target(&procs, "+7"), LookupResult::Found(7));
    let procs = vec![info(7, "42")];
    assert_eq!(resolve_target(&procs, "42"), LookupResult::NotFound);
    // too large for a pid: treated as a name
    let procs = vec![info(5, "99999999999")];
    assert_eq!(resolve_target(&procs, "99999999999"), LookupResult::Found(5));
}
