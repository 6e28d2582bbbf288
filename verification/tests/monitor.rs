use pview::monitor::best_matching_disk;

fn mounts(list: &[&str]) -> Vec<String> {
    list.iter().map(|m| m.to_string()).collect()
}

#[test]
fn best_disk_is_the_longest_containing_mount() {
    let m = mounts(&["/", "/home", "/home/user/data", "/boot"]);
    assert_eq!(best_matching_disk(&m, "/home/user/bin/app"), Some(1));
    assert_eq!(best_matching_disk(&m, "/home/user/data/tool"), Some(2));
    assert_eq!(best_matching_disk(&m, "/usr/bin/app"), Some(0));
}

#[test]
fn best_disk_matches_whole_components() {
    // "/home" does not contain "/homework"
    let m = mounts(&["/", "/home"]);
    assert_eq!(best_matching_disk(&m, "/homework/app"), Some(0));
}

#[test]
fn best_disk_none_when_no_mount_contains_the_path() {
    let m = mounts(&["/boot", "/mnt"]);
    assert_eq!(best_matching_disk(&m, "relative/app"), None);
    assert_eq!(best_matching_disk(&m, ""), None);
    assert_eq!(best_matching_disk(&Vec::new(), "/x"), None);
}

#[test]
fn best_disk_takes_the_last_of_equal_mounts() {
    let m = mounts(&["/", "/data", "/data"]);
    assert_eq!(best_matching_disk(&m, "/data/x"), Some(2));
}
