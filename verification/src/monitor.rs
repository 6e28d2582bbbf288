//! One reading of the monitored process, and the choice of the disk that
//! holds its executable.
use vstd::prelude::*;

verus! {

/// One reading of the monitored process. `C` is the CPU-usage reading, which
/// this library stores and hands back but never inspects.
pub struct Sample<C> {
    pub cpu_usage: C,
    pub memory_bytes: u64,
    pub disk_total_read_bytes: u64,
    pub disk_total_written_bytes: u64,
    /// The process status as the system reports it, such as `Run` or `Sleep`.
    pub status: String,
    pub run_time_secs: u64,
    pub storage_total_bytes: u64,
    pub storage_available_bytes: u64,
    pub storage_mount_point: String,
}

/// Why a reading could not be taken.
pub enum MonitorError {
    ProcessExited,
}

/// What `Path::starts_with` gives for the paths `path` and `base`: whether
/// `base` is a prefix of `path` component by component, as the target
/// platform's path syntax splits them.
pub uninterp spec fn spec_path_starts_with(path: Seq<char>, base: Seq<char>) -> bool;

/// `Path::starts_with` on two paths given as text. Its result is named by
/// `spec_path_starts_with`; how the platform splits paths into components
/// is not stated.
#[verifier::external_body]
pub(crate) fn path_starts_with(path: &str, base: &str) -> (r: bool)
    ensures
        r == spec_path_starts_with(path@, base@),
{
    std::path::Path::new(path).starts_with(base)
}

/// Length in bytes of `s` (its UTF-8 encoding).
pub open spec fn byte_len(s: Seq<char>) -> nat {
    vstd::utf8::encode_utf8(s).len()
}

/// Disk `i` is mounted at a prefix of `exe_path`.
pub open spec fn disk_contains(mounts: Seq<String>, exe_path: Seq<char>, i: int) -> bool {
    0 <= i < mounts.len() && spec_path_starts_with(exe_path, mounts[i]@)
}

/// `i` is the disk whose mount point is the longest prefix of `exe_path`,
/// the last one in the list among equally long ones.
pub open spec fn is_best_disk(mounts: Seq<String>, exe_path: Seq<char>, i: int) -> bool {
    &&& disk_contains(mounts, exe_path, i)
    &&& forall|j: int|
        #![trigger disk_contains(mounts, exe_path, j)]
        disk_contains(mounts, exe_path, j) ==> byte_len(mounts[j]@) <= byte_len(mounts[i]@)
    &&& forall|j: int|
        #![trigger disk_contains(mounts, exe_path, j)]
        disk_contains(mounts, exe_path, j) && j > i ==> byte_len(mounts[j]@) < byte_len(
            mounts[i]@,
        )
}

/// Finds the disk whose mount point is the longest prefix of `exe_path`, the
/// most specific mount that holds the executable, since a system can report
/// several disks (such as `C:\` and a volume mounted deeper) that all are
/// ancestors of the path.
pub fn best_matching_disk(mounts: &Vec<String>, exe_path: &str) -> (r: Option<usize>)
    requires
        forall|j: int| 0 <= j < mounts@.len() ==> byte_len(#[trigger] mounts@[j]@) <= usize::MAX,
    ensures
        match r {
            Some(i) => is_best_disk(mounts@, exe_path@, i as int),
            None => forall|j: int| !disk_contains(mounts@, exe_path@, j),
        },
{
    let mut best: Option<usize> = None;
    let mut best_len: usize = 0;
    let mut i: usize = 0;
    while i < mounts.len()
        invariant
            i <= mounts@.len(),
            forall|j: int| 0 <= j < mounts@.len() ==> byte_len(#[trigger] mounts@[j]@) <= usize::MAX,
            match best {
                Some(b) => {
                    &&& b < i
                    &&& disk_contains(mounts@, exe_path@, b as int)
                    &&& best_len == byte_len(mounts@[b as int]@)
                    &&& forall|j: int|
                        #![trigger disk_contains(mounts@, exe_path@, j)]
                        disk_contains(mounts@, exe_path@, j) && j < i ==> byte_len(mounts@[j]@)
                            <= byte_len(mounts@[b as int]@)
                    &&& forall|j: int|
                        #![trigger disk_contains(mounts@, exe_path@, j)]
                        disk_contains(mounts@, exe_path@, j) && b < j < i ==> byte_len(
                            mounts@[j]@,
                        ) < byte_len(mounts@[b as int]@)
                },
                None => forall|j: int| 0 <= j < i ==> !disk_contains(mounts@, exe_path@, j),
            },
        decreases mounts@.len() - i,
    {
        if path_starts_with(exe_path, mounts[i].as_str()) {
            let len = mounts[i].as_str().len();
            assert(byte_len(mounts@[i as int]@) <= usize::MAX);
            assert(len == byte_len(mounts@[i as int]@));
            assert(disk_contains(mounts@, exe_path@, i as int));
            match best {
                None => {
                    best = Some(i);
                    best_len = len;
                },
                Some(b) => {
                    if len >= best_len {
                        best = Some(i);
                        best_len = len;
                    }
                },
            }
        } else {
            assert(!disk_contains(mounts@, exe_path@, i as int));
        }
        i = i + 1;
    }
    best
}

} // verus!
