//! Resolving a user-supplied target (a PID or a process name) against a
//! snapshot of the running processes.
use vstd::prelude::*;

use crate::names::{chars_eq_ignore_ascii_case, chars_of, eq_ignore_ascii_case};
use crate::text::{parse_u32, spec_parse_u32};

verus! {

/// One running process as the lookup sees it.
pub struct ProcessInfo {
    pub pid: u32,
    /// The process name, lossily decoded.
    pub name: String,
}

/// The outcome of resolving a target.
#[derive(Debug, PartialEq, Eq, Structural)]
pub enum LookupResult {
    Found(u32),
    NotFound,
    Ambiguous,
}

/// The PIDs, in snapshot order, of the processes named `target` when ASCII
/// letters are compared without case.
pub open spec fn pids_named(procs: Seq<ProcessInfo>, target: Seq<char>) -> Seq<u32>
    decreases procs.len(),
{
    if procs.len() == 0 {
        Seq::empty()
    } else {
        let rest = pids_named(procs.drop_last(), target);
        if eq_ignore_ascii_case(procs.last().name@, target) {
            rest.push(procs.last().pid)
        } else {
            rest
        }
    }
}

/// Some process of the snapshot has PID `pid`.
pub open spec fn has_pid(procs: Seq<ProcessInfo>, pid: u32) -> bool {
    exists|i: int| 0 <= i < procs.len() && #[trigger] procs[i].pid == pid
}

/// How a target resolves: a string that parses as a `u32` is always a PID,
/// found when some process has it; any other string names processes, and
/// resolves when exactly one process has that name.
pub open spec fn lookup(procs: Seq<ProcessInfo>, target: Seq<char>) -> LookupResult {
    match spec_parse_u32(target) {
        Some(pid) => if has_pid(procs, pid) {
            LookupResult::Found(pid)
        } else {
            LookupResult::NotFound
        },
        None => {
            let named = pids_named(procs, target);
            if named.len() == 0 {
                LookupResult::NotFound
            } else if named.len() == 1 {
                LookupResult::Found(named[0])
            } else {
                LookupResult::Ambiguous
            }
        },
    }
}

/// Process `k` is named `target`, ASCII case aside.
pub open spec fn is_named(procs: Seq<ProcessInfo>, target: Seq<char>, k: int) -> bool {
    eq_ignore_ascii_case(procs[k].name@, target)
}

/// The PIDs of the processes named `target` count them: none, one (that
/// process's PID), or two or more.
proof fn lemma_pids_named_count(procs: Seq<ProcessInfo>, target: Seq<char>)
    ensures
        pids_named(procs, target).len() == 0 <==> forall|k: int|
            0 <= k < procs.len() ==> !#[trigger] is_named(procs, target, k),
        pids_named(procs, target).len() >= 2 <==> exists|j: int, k: int|
            0 <= j < k < procs.len() && #[trigger] is_named(procs, target, j) && #[trigger] is_named(
                procs,
                target,
                k,
            ),
        pids_named(procs, target).len() == 1 ==> exists|k: int|
            0 <= k < procs.len() && #[trigger] is_named(procs, target, k) && pids_named(procs, target)[0]
                == procs[k].pid && forall|j: int|
                0 <= j < procs.len() && #[trigger] is_named(procs, target, j) ==> j == k,
    decreases procs.len(),
{
    if procs.len() > 0 {
        let p = procs.drop_last();
        let last = procs.len() - 1;
        lemma_pids_named_count(p, target);
        let rest = pids_named(p, target);
        assert forall|k: int| 0 <= k < p.len() implies #[trigger] is_named(p, target, k) == is_named(
            procs,
            target,
            k,
        ) by {
            assert(p[k] == procs[k]);
        }
        if is_named(procs, target, last) {
            assert(pids_named(procs, target) == rest.push(procs[last].pid));
            if rest.len() == 0 {
                assert forall|j: int| 0 <= j < procs.len() && #[trigger] is_named(procs, target, j) implies j
                    == last by {
                    if j < last {
                        assert(is_named(p, target, j));
                    }
                }
                assert(is_named(procs, target, last));
                if exists|j: int, k: int|
                    0 <= j < k < procs.len() && #[trigger] is_named(procs, target, j)
                        && #[trigger] is_named(procs, target, k) {
                    let (j, k) = choose|j: int, k: int|
                        0 <= j < k < procs.len() && #[trigger] is_named(procs, target, j)
                            && #[trigger] is_named(procs, target, k);
                    assert(false);
                }
            } else {
                let m = choose|k: int| 0 <= k < p.len() && !!#[trigger] is_named(p, target, k);
                assert(is_named(p, target, m));
                assert(is_named(procs, target, m));
                assert(is_named(procs, target, last));
            }
        } else {
            assert(pids_named(procs, target) == rest);
            if rest.len() >= 2 {
                let (j, k) = choose|j: int, k: int|
                    0 <= j < k < p.len() && #[trigger] is_named(p, target, j) && #[trigger] is_named(
                        p,
                        target,
                        k,
                    );
                assert(is_named(procs, target, j) && is_named(procs, target, k));
            } else {
                if exists|j: int, k: int|
                    0 <= j < k < procs.len() && #[trigger] is_named(procs, target, j)
                        && #[trigger] is_named(procs, target, k) {
                    let (j, k) = choose|j: int, k: int|
                        0 <= j < k < procs.len() && #[trigger] is_named(procs, target, j)
                            && #[trigger] is_named(procs, target, k);
                    assert(k < last);
                    assert(is_named(p, target, j) && is_named(p, target, k));
                }
            }
            if rest.len() == 0 {
                assert forall|k: int| 0 <= k < procs.len() implies !#[trigger] is_named(procs, target, k) by {
                    if k < last {
                        assert(!is_named(p, target, k));
                    }
                }
            } else {
                let m = choose|k: int| 0 <= k < p.len() && !!#[trigger] is_named(p, target, k);
                assert(is_named(p, target, m));
                assert(is_named(procs, target, m));
            }
            if rest.len() == 1 {
                let k = choose|k: int|
                    0 <= k < p.len() && #[trigger] is_named(p, target, k) && rest[0] == p[k].pid
                        && forall|j: int| 0 <= j < p.len() && #[trigger] is_named(p, target, j) ==> j == k;
                assert(is_named(procs, target, k));
                assert forall|j: int| 0 <= j < procs.len() && #[trigger] is_named(procs, target, j) implies j
                    == k by {
                    if j < last {
                        assert(is_named(p, target, j));
                    }
                }
            }
        }
    }
}

/// A target that is not a number names processes: it is found only when
/// exactly one process has that name (ASCII case aside), and then it is that
/// process; two or more such processes make it ambiguous; none, not found.
pub proof fn lemma_lookup_by_name(procs: Seq<ProcessInfo>, target: Seq<char>)
    requires
        spec_parse_u32(target) is None,
    ensures
        (exists|j: int, k: int|
            0 <= j < k < procs.len() && #[trigger] is_named(procs, target, j) && #[trigger] is_named(
                procs,
                target,
                k,
            )) ==> lookup(procs, target) == LookupResult::Ambiguous,
        (forall|k: int| 0 <= k < procs.len() ==> !#[trigger] is_named(procs, target, k)) ==> lookup(
            procs,
            target,
        ) == LookupResult::NotFound,
        lookup(procs, target) matches LookupResult::Found(pid) ==> exists|k: int|
            0 <= k < procs.len() && #[trigger] is_named(procs, target, k) && procs[k].pid == pid
                && forall|j: int| 0 <= j < procs.len() && #[trigger] is_named(procs, target, j) ==> j == k,
{
    lemma_pids_named_count(procs, target);
}

/// A target that reads as a number is only ever a PID: it is found exactly
/// when a process has that PID, and never ambiguous.
pub proof fn lemma_numeric_target_is_pid(procs: Seq<ProcessInfo>, target: Seq<char>, pid: u32)
    requires
        spec_parse_u32(target) == Some(pid),
    ensures
        lookup(procs, target) == (if has_pid(procs, pid) {
            LookupResult::Found(pid)
        } else {
            LookupResult::NotFound
        }),
{
}

/// Resolves a user-supplied target (a PID or an exact, case-insensitive
/// process name) to a single process. A bare integer is always a PID.
pub fn resolve_target(procs: &Vec<ProcessInfo>, target: &str) -> (r: LookupResult)
    ensures
        r == lookup(procs@, target@),
        spec_parse_u32(target@) is None && (exists|j: int, k: int|
            0 <= j < k < procs@.len() && #[trigger] is_named(procs@, target@, j) && #[trigger] is_named(
                procs@,
                target@,
                k,
            )) ==> r == LookupResult::Ambiguous,
        spec_parse_u32(target@) is None ==> (r matches LookupResult::Found(pid) ==> exists|k: int|
            0 <= k < procs@.len() && #[trigger] is_named(procs@, target@, k) && procs@[k].pid == pid
                && forall|j: int| 0 <= j < procs@.len() && #[trigger] is_named(procs@, target@, j) ==> j == k),
{
    proof {
        if spec_parse_u32(target@) is None {
            lemma_lookup_by_name(procs@, target@);
        }
    }
    if let Some(pid) = parse_u32(target) {
        let mut i: usize = 0;
        while i < procs.len()
            invariant
                i <= procs@.len(),
                spec_parse_u32(target@) == Some(pid),
                forall|k: int| 0 <= k < i ==> procs@[k].pid != pid,
            decreases procs@.len() - i,
        {
            if procs[i].pid == pid {
                assert(procs@[i as int].pid == pid);
                assert(has_pid(procs@, pid));
                return LookupResult::Found(pid);
            }
            i = i + 1;
        }
        return LookupResult::NotFound;
    }
    let wanted = chars_of(target);
    let mut matches: Vec<u32> = Vec::new();
    let mut i: usize = 0;
    while i < procs.len()
        invariant
            i <= procs@.len(),
            wanted@ == target@,
            matches@ == pids_named(procs@.subrange(0, i as int), target@),
        decreases procs@.len() - i,
    {
        let ghost prefix = procs@.subrange(0, i as int + 1);
        assert(prefix.drop_last() =~= procs@.subrange(0, i as int));
        let name = chars_of(procs[i].name.as_str());
        if chars_eq_ignore_ascii_case(&name, &wanted) {
            matches.push(procs[i].pid);
        }
        i = i + 1;
    }
    assert(procs@.subrange(0, procs@.len() as int) =~= procs@);
    if matches.len() == 0 {
        LookupResult::NotFound
    } else if matches.len() == 1 {
        LookupResult::Found(matches[0])
    } else {
        LookupResult::Ambiguous
    }
}

} // verus!
