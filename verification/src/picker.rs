//! The interactive process picker: a snapshot of the running processes kept
//! sorted by name, filtered by a fuzzy search, with a selection.
use vstd::prelude::*;

use crate::app::{interval_ns, interval_passed};
use crate::config::BYTES_PER_MB;
use crate::input::Key;
use crate::names::{
    ascii_lower, chars_eq, chars_lt, chars_of, lemma_not_lt_is_le, lemma_seq_le_transitive, seq_le, seq_lt,
    spec_to_lowercase, to_lowercase,
};
use crate::text::{decimal, push_decimal};
use crate::ui::{gb_one_decimal, push_gb_one_decimal};

verus! {

/// One process in the picker. `C` is its CPU-usage reading, shown but never
/// inspected here.
pub struct PickerEntry<C> {
    pub pid: u32,
    pub name: String,
    pub parent: Option<u32>,
    /// The process has namesakes and none of them is its parent.
    pub is_group_root: bool,
    pub cpu_usage: C,
    pub memory_bytes: u64,
}

/// The key the picker sorts and groups names by: the lowercase name.
pub open spec fn name_key<C>(e: PickerEntry<C>) -> Seq<char> {
    spec_to_lowercase(e.name@)
}

/// `p` is a rearrangement of `0..n`.
pub open spec fn is_permutation(p: Seq<int>, n: nat) -> bool {
    &&& p.len() == n
    &&& forall|k: int| 0 <= k < n ==> 0 <= #[trigger] p[k] < n
    &&& forall|a: int, b: int| 0 <= a < n && 0 <= b < n && a != b ==> #[trigger] p[a] != #[trigger] p[b]
}

/// Entry `a` of `out`, which came from position `p[a]` of the input, comes
/// before entry `b`: a smaller key, or an equal key and an earlier position.
pub open spec fn placed_before<C>(out: Seq<PickerEntry<C>>, p: Seq<int>, a: int, b: int) -> bool {
    seq_lt(name_key(out[a]), name_key(out[b])) || (name_key(out[a]) == name_key(out[b]) && p[a]
        < p[b])
}

/// `out` is `inp` sorted by lowercase name, entries with equal keys keeping
/// their input order (a stable sort).
pub open spec fn stably_sorted_by_name<C>(out: Seq<PickerEntry<C>>, inp: Seq<PickerEntry<C>>) -> bool {
    exists|p: Seq<int>|
        {
            &&& is_permutation(p, inp.len())
            &&& out.len() == inp.len()
            &&& forall|k: int| 0 <= k < out.len() ==> #[trigger] out[k] == inp[p[k]]
            &&& forall|a: int, b: int|
                0 <= a < b < out.len() ==> #[trigger] placed_before(out, p, a, b)
        }
}

/// The entries are in order of their lowercase names.
pub open spec fn sorted_by_name<C>(s: Seq<PickerEntry<C>>) -> bool {
    forall|a: int, b: int|
        0 <= a < b < s.len() ==> seq_le(name_key(#[trigger] s[a]), name_key(#[trigger] s[b]))
}

/// A stable sort by name leaves the entries sorted by name.
pub proof fn lemma_stably_sorted_is_sorted<C>(out: Seq<PickerEntry<C>>, inp: Seq<PickerEntry<C>>)
    requires
        stably_sorted_by_name(out, inp),
    ensures
        sorted_by_name(out),
{
    let p = choose|p: Seq<int>|
        {
            &&& is_permutation(p, inp.len())
            &&& out.len() == inp.len()
            &&& forall|k: int| 0 <= k < out.len() ==> #[trigger] out[k] == inp[p[k]]
            &&& forall|a: int, b: int|
                0 <= a < b < out.len() ==> #[trigger] placed_before(out, p, a, b)
        };
    assert forall|a: int, b: int| 0 <= a < b < out.len() implies seq_le(
        name_key(#[trigger] out[a]),
        name_key(#[trigger] out[b]),
    ) by {
        assert(placed_before(out, p, a, b));
    }
}

/// The sort keys of `entries`, as characters.
fn name_keys<C>(entries: &Vec<PickerEntry<C>>) -> (keys: Vec<Vec<char>>)
    ensures
        keys@.len() == entries@.len(),
        forall|k: int| 0 <= k < keys@.len() ==> (#[trigger] keys@[k])@ == name_key(entries@[k]),
{
    let mut keys: Vec<Vec<char>> = Vec::new();
    let mut i: usize = 0;
    while i < entries.len()
        invariant
            i <= entries@.len(),
            keys@.len() == i,
            forall|k: int| 0 <= k < i ==> (#[trigger] keys@[k])@ == name_key(entries@[k]),
        decreases entries@.len() - i,
    {
        let lower = to_lowercase(entries[i].name.as_str());
        let key = chars_of(lower.as_str());
        keys.push(key);
        i = i + 1;
    }
    keys
}

/// In a permutation of `0..n` that fixes every position from `i` on, the
/// positions before `i` hold values below `i`.
proof fn lemma_prefix_values(p: Seq<int>, n: nat, i: int)
    requires
        is_permutation(p, n),
        0 <= i <= n,
        forall|k: int| i <= k < n ==> #[trigger] p[k] == k,
    ensures
        forall|k: int| 0 <= k < i ==> #[trigger] p[k] < i,
{
    assert forall|k: int| 0 <= k < i implies #[trigger] p[k] < i by {
        if p[k] >= i {
            let v = p[k];
            assert(p[v] == v);
            assert(p[k] != p[v]);
        }
    }
}

/// Sorts `entries` by lowercase name, stably: entries whose names differ
/// only in case keep their order.
pub fn sort_by_name<C>(entries: &mut Vec<PickerEntry<C>>)
    ensures
        stably_sorted_by_name(final(entries)@, old(entries)@),
{
    let ghost input = entries@;
    let n = entries.len();
    let mut keys = name_keys(entries);
    let ghost mut p: Seq<int> = Seq::new(n as nat, |k: int| k);
    let mut i: usize = 0;
    while i < n
        invariant
            n == input.len(),
            i <= n,
            entries@.len() == n,
            keys@.len() == n,
            forall|k: int| 0 <= k < n ==> (#[trigger] keys@[k])@ == name_key(entries@[k]),
            is_permutation(p, n as nat),
            forall|k: int| 0 <= k < n ==> #[trigger] entries@[k] == input[p[k]],
            forall|k: int| i <= k < n ==> #[trigger] p[k] == k,
            forall|a: int, b: int| 0 <= a < b < i ==> #[trigger] placed_before(entries@, p, a, b),
        decreases n - i,
    {
        let ghost e0 = entries@;
        let ghost p0 = p;
        proof {
            lemma_prefix_values(p, n as nat, i as int);
        }
        let e = entries.remove(i);
        let kk = keys.remove(i);
        let mut j: usize = i;
        while j > 0 && chars_lt(&kk, &keys[j - 1])
            invariant
                j <= i,
                i < n,
                keys@.len() == n - 1,
                kk@ == name_key(e),
                forall|k: int| 0 <= k < i ==> (#[trigger] keys@[k])@ == name_key(e0[k]),
                forall|m: int| j <= m < i ==> seq_lt(kk@, (#[trigger] keys@[m])@),
            decreases j,
        {
            j = j - 1;
        }
        entries.insert(j, e);
        keys.insert(j, kk);
        proof {
            let ghost pr = p0.remove(i as int);
            p = pr.insert(j as int, i as int);
            let e1 = entries@;
            assert(e == e0[i as int]);
            assert(p0[i as int] == i);
            // the new order is a permutation fixing the unprocessed suffix
            assert forall|k: int| 0 <= k < n implies 0 <= #[trigger] p[k] < n by {
                if k < j {
                    assert(p[k] == p0[k]);
                } else if k > j && k <= i {
                    assert(p[k] == p0[k - 1]);
                } else if k > i {
                    assert(p[k] == p0[k]);
                }
            }
            assert forall|a: int, b: int| 0 <= a < n && 0 <= b < n && a != b implies #[trigger] p[a]
                != #[trigger] p[b] by {
                let oa = if a < j {
                    a
                } else if a == j {
                    i as int
                } else if a <= i {
                    a - 1
                } else {
                    a
                };
                let ob = if b < j {
                    b
                } else if b == j {
                    i as int
                } else if b <= i {
                    b - 1
                } else {
                    b
                };
                assert(p[a] == p0[oa]);
                assert(p[b] == p0[ob]);
            }
            assert forall|k: int| 0 <= k < n implies #[trigger] entries@[k] == input[p[k]] by {
                if k < j {
                    assert(entries@[k] == e0[k]);
                    assert(p[k] == p0[k]);
                } else if k == j {
                } else if k <= i {
                    assert(entries@[k] == e0[k - 1]);
                    assert(p[k] == p0[k - 1]);
                } else {
                    assert(entries@[k] == e0[k]);
                    assert(p[k] == p0[k]);
                }
            }
            assert forall|k: int| 0 <= k < n implies (#[trigger] keys@[k])@ == name_key(
                entries@[k],
            ) by {
                if k < j {
                    assert(entries@[k] == e0[k]);
                } else if k == j {
                } else if k <= i {
                    assert(entries@[k] == e0[k - 1]);
                } else {
                    assert(entries@[k] == e0[k]);
                }
            }
            assert forall|k: int| i + 1 <= k < n implies #[trigger] p[k] == k by {
                assert(p[k] == p0[k]);
            }
            // the first i + 1 entries are in order
            assert forall|a: int, b: int| 0 <= a < b < i + 1 implies #[trigger] placed_before(
                entries@,
                p,
                a,
                b,
            ) by {
                let oa = if a < j {
                    a
                } else {
                    a - 1
                };
                let ob = if b < j {
                    b
                } else {
                    b - 1
                };
                if a == j {
                    assert(seq_lt(kk@, keys@[b]@));
                    assert(keys@[b]@ == name_key(entries@[b]));
                } else if b == j {
                    // every earlier entry has a key no larger than the inserted one
                    assert(entries@[a] == e0[a]);
                    assert(p[a] == p0[a]);
                    assert(p0[a] < i);
                    assert(seq_le(name_key(e0[a]), name_key(e))) by {
                        lemma_not_lt_is_le(name_key(e0[(j - 1) as int]), name_key(e));
                        if a < j - 1 {
                            assert(placed_before(e0, p0, a, (j - 1) as int));
                            lemma_seq_le_transitive(
                                name_key(e0[a]),
                                name_key(e0[(j - 1) as int]),
                                name_key(e),
                            );
                        }
                    }
                } else {
                    assert(placed_before(e0, p0, oa, ob));
                    assert(entries@[a] == e0[oa]);
                    assert(entries@[b] == e0[ob]);
                    assert(p[a] == p0[oa]);
                    assert(p[b] == p0[ob]);
                }
            }
        }
        i = i + 1;
    }
    proof {
        assert(is_permutation(p, input.len()));
        assert(stably_sorted_by_name(entries@, input));
    }
}

/// Entry `i` shares its lowercase name with another entry.
pub open spec fn has_namesake<C>(s: Seq<PickerEntry<C>>, i: int) -> bool {
    exists|j: int| 0 <= j < s.len() && j != i && #[trigger] name_key(s[j]) == name_key(s[i])
}

/// The parent of entry `i` is one of the entries sharing its lowercase name.
pub open spec fn parent_is_namesake<C>(s: Seq<PickerEntry<C>>, i: int) -> bool {
    match s[i].parent {
        Some(pp) => exists|j: int|
            0 <= j < s.len() && #[trigger] name_key(s[j]) == name_key(s[i]) && s[j].pid == pp,
        None => false,
    }
}

/// The group-root mark that `mark_group_roots` gives entry `i`.
pub open spec fn group_root_mark<C>(s: Seq<PickerEntry<C>>, i: int) -> bool {
    if has_namesake(s, i) {
        !parent_is_namesake(s, i)
    } else {
        s[i].is_group_root
    }
}

/// An entry that shares its lowercase name with another is marked a group
/// root exactly when no entry anywhere in the list with that name has its
/// parent's PID; an entry without namesakes keeps its mark.
pub proof fn lemma_group_root_mark_meaning<C>(s: Seq<PickerEntry<C>>, i: int)
    requires
        0 <= i < s.len(),
    ensures
        (exists|j: int| 0 <= j < s.len() && j != i && #[trigger] name_key(s[j]) == name_key(s[i]))
            ==> (group_root_mark(s, i) <==> forall|j: int|
            0 <= j < s.len() && #[trigger] name_key(s[j]) == name_key(s[i]) ==> s[i].parent != Some(
                s[j].pid,
            )),
        !(exists|j: int| 0 <= j < s.len() && j != i && #[trigger] name_key(s[j]) == name_key(s[i]))
            ==> group_root_mark(s, i) == s[i].is_group_root,
{
}

/// `out` is `s` with every entry's group-root mark set by `group_root_mark`.
pub open spec fn group_roots_marked<C>(out: Seq<PickerEntry<C>>, s: Seq<PickerEntry<C>>) -> bool {
    &&& out.len() == s.len()
    &&& forall|i: int|
        0 <= i < s.len() ==> {
            &&& (#[trigger] out[i]).pid == s[i].pid
            &&& out[i].name == s[i].name
            &&& out[i].parent == s[i].parent
            &&& out[i].cpu_usage == s[i].cpu_usage
            &&& out[i].memory_bytes == s[i].memory_bytes
            &&& out[i].is_group_root == group_root_mark(s, i)
        }
}

/// Marks each entry whose lowercase name has two or more instances with
/// whether it is the root of that name group: none of the same-named
/// processes is its parent. This tells a top-level process apart from the
/// same-named children it spawned. Entries without namesakes are left as
/// they are.
pub fn mark_group_roots<C>(entries: &mut Vec<PickerEntry<C>>)
    ensures
        group_roots_marked(final(entries)@, old(entries)@),
{
    let ghost s = entries@;
    let n = entries.len();
    let keys = name_keys(entries);
    let mut marks: Vec<bool> = Vec::new();
    let mut i: usize = 0;
    while i < n
        invariant
            n == s.len(),
            entries@ == s,
            i <= n,
            keys@.len() == n,
            forall|k: int| 0 <= k < n ==> (#[trigger] keys@[k])@ == name_key(s[k]),
            marks@.len() == i,
            forall|k: int| 0 <= k < i ==> #[trigger] marks@[k] == group_root_mark(s, k),
        decreases n - i,
    {
        let mut namesake = false;
        let mut parent_found = false;
        let mut j: usize = 0;
        while j < n
            invariant
                n == s.len(),
                entries@ == s,
                i < n,
                j <= n,
                keys@.len() == n,
                forall|k: int| 0 <= k < n ==> (#[trigger] keys@[k])@ == name_key(s[k]),
                namesake == exists|m: int|
                    0 <= m < j && m != i && #[trigger] name_key(s[m]) == name_key(s[i as int]),
                parent_found == match s[i as int].parent {
                    Some(pp) => exists|m: int|
                        0 <= m < j && #[trigger] name_key(s[m]) == name_key(s[i as int]) && s[m].pid
                            == pp,
                    None => false,
                },
            decreases n - j,
        {
            if chars_eq(&keys[j], &keys[i]) {
                assert(name_key(s[j as int]) == name_key(s[i as int]));
                if j != i {
                    namesake = true;
                }
                match entries[i].parent {
                    Some(pp) => {
                        if entries[j].pid == pp {
                            parent_found = true;
                        }
                    },
                    None => {},
                }
            }
            j = j + 1;
        }
        let mark = if namesake {
            !parent_found
        } else {
            entries[i].is_group_root
        };
        marks.push(mark);
        i = i + 1;
    }
    let mut k: usize = 0;
    while k < n
        invariant
            n == s.len(),
            k <= n,
            marks@.len() == n,
            forall|m: int| 0 <= m < n ==> #[trigger] marks@[m] == group_root_mark(s, m),
            entries@.len() == n,
            forall|m: int| k <= m < n ==> #[trigger] entries@[m] == s[m],
            forall|m: int|
                0 <= m < k ==> {
                    &&& (#[trigger] entries@[m]).pid == s[m].pid
                    &&& entries@[m].name == s[m].name
                    &&& entries@[m].parent == s[m].parent
                    &&& entries@[m].cpu_usage == s[m].cpu_usage
                    &&& entries@[m].memory_bytes == s[m].memory_bytes
                    &&& entries@[m].is_group_root == group_root_mark(s, m)
                },
        decreases n - k,
    {
        let mut e = entries.remove(k);
        e.is_group_root = marks[k];
        entries.insert(k, e);
        k = k + 1;
    }
}

/// `s` without the entries of process `pid`, in order.
pub open spec fn without_pid<C>(s: Seq<PickerEntry<C>>, pid: u32) -> Seq<PickerEntry<C>>
    decreases s.len(),
{
    if s.len() == 0 {
        Seq::empty()
    } else {
        let rest = without_pid(s.drop_last(), pid);
        if s.last().pid == pid {
            rest
        } else {
            rest.push(s.last())
        }
    }
}

/// The picker's view of the running processes: every process but the
/// picker's own (`own_pid`), with its group-root mark set.
pub fn snapshot_processes<C>(processes: Vec<PickerEntry<C>>, own_pid: u32) -> (r: Vec<
    PickerEntry<C>,
>)
    ensures
        group_roots_marked(r@, without_pid(processes@, own_pid)),
{
    let mut kept: Vec<PickerEntry<C>> = Vec::new();
    let mut rest = processes;
    let ghost all = rest@;
    // take the entries from the back, then restore their order
    let mut reversed: Vec<PickerEntry<C>> = Vec::new();
    while rest.len() > 0
        invariant
            rest@.len() + reversed@.len() == all.len(),
            rest@ == all.subrange(0, rest@.len() as int),
            forall|k: int|
                0 <= k < reversed@.len() ==> #[trigger] reversed@[k] == all[all.len() - 1 - k],
        decreases rest@.len(),
    {
        let e = rest.pop().unwrap();
        reversed.push(e);
        assert(rest@ =~= all.subrange(0, rest@.len() as int));
    }
    while reversed.len() > 0
        invariant
            reversed@.len() <= all.len(),
            forall|k: int|
                0 <= k < reversed@.len() ==> #[trigger] reversed@[k] == all[all.len() - 1 - k],
            kept@ == without_pid(all.subrange(0, all.len() - reversed@.len()), own_pid),
        decreases reversed@.len(),
    {
        let ghost before = all.subrange(0, all.len() - reversed@.len());
        let ghost next = all.subrange(0, all.len() - reversed@.len() + 1);
        let e = reversed.pop().unwrap();
        assert(next.drop_last() =~= before);
        assert(next.last() == e);
        if e.pid != own_pid {
            kept.push(e);
        }
    }
    assert(all.subrange(0, all.len() as int) =~= all);
    mark_group_roots(&mut kept);
    kept
}

/// What the skim fuzzy matcher (`SkimMatcherV2::default().fuzzy_match`) gives
/// for `choice` against `pattern`: a score when it matches, else none.
pub uninterp spec fn skim_fuzzy_score(choice: Seq<char>, pattern: Seq<char>) -> Option<i64>;

/// The pattern holds an ASCII uppercase letter, which makes the default
/// ("smart case") matcher compare case-sensitively.
pub open spec fn has_ascii_upper(s: Seq<char>) -> bool {
    exists|i: int| 0 <= i < s.len() && 'A' <= #[trigger] s[i] && s[i] <= 'Z'
}

/// Two characters are equal for the matcher: exactly when it compares
/// case-sensitively, with ASCII case ignored otherwise.
pub open spec fn skim_char_eq(a: char, b: char, case_sensitive: bool) -> bool {
    if case_sensitive {
        a == b
    } else {
        ascii_lower(a) == ascii_lower(b)
    }
}

/// The characters of `pattern` occur in order in `choice` (the matcher's
/// greedy scan for the first match of each pattern character).
pub open spec fn occurs_in_order(pattern: Seq<char>, choice: Seq<char>, case_sensitive: bool) -> bool
    decreases choice.len(),
{
    if pattern.len() == 0 {
        true
    } else if choice.len() == 0 {
        false
    } else if skim_char_eq(choice[0], pattern[0], case_sensitive) {
        occurs_in_order(pattern.drop_first(), choice.drop_first(), case_sensitive)
    } else {
        occurs_in_order(pattern, choice.drop_first(), case_sensitive)
    }
}

/// Whether the skim matcher matches `choice` at all: an empty pattern always
/// matches; otherwise the pattern's characters must occur in order in
/// `choice`, compared case-sensitively when the pattern holds an ASCII
/// uppercase letter and with ASCII case ignored otherwise.
pub open spec fn skim_matches(choice: Seq<char>, pattern: Seq<char>) -> bool {
    pattern.len() == 0 || occurs_in_order(pattern, choice, has_ascii_upper(pattern))
}

/// `SkimMatcherV2::fuzzy_match` with the default matcher. Its score is named
/// by `skim_fuzzy_score`, and nothing is claimed of the scoring itself; the
/// matcher gives a score exactly when `skim_matches` holds (its source
/// returns one for an empty pattern, else exactly when its in-order scan of
/// the choice finds every pattern character).
#[verifier::external_body]
pub(crate) fn fuzzy_score(choice: &str, pattern: &str) -> (r: Option<i64>)
    ensures
        r == skim_fuzzy_score(choice@, pattern@),
        r is Some <==> skim_matches(choice@, pattern@),
{
    fuzzy_matcher::FuzzyMatcher::fuzzy_match(
        &fuzzy_matcher::skim::SkimMatcherV2::default(),
        choice,
        pattern,
    )
}

/// Entry `e` is listed for the search `query`: every entry for an empty
/// query, else those whose name the fuzzy matcher matches.
pub open spec fn matches_query<C>(e: PickerEntry<C>, query: Seq<char>) -> bool {
    skim_matches(e.name@, query)
}

/// Positions, in increasing order, of the first `n` entries of `all` that
/// are listed for `query`.
pub open spec fn matching_prefix<C>(all: Seq<PickerEntry<C>>, query: Seq<char>, n: nat) -> Seq<
    usize,
>
    decreases n,
{
    if n == 0 {
        Seq::empty()
    } else {
        let rest = matching_prefix(all, query, (n - 1) as nat);
        if matches_query(all[n - 1], query) {
            rest.push((n - 1) as usize)
        } else {
            rest
        }
    }
}

/// Positions, in increasing order, of the entries of `all` listed for `query`.
pub open spec fn matching_indices<C>(all: Seq<PickerEntry<C>>, query: Seq<char>) -> Seq<usize> {
    matching_prefix(all, query, all.len())
}

/// The listed positions are valid, strictly increasing, and are exactly the
/// entries that match.
pub proof fn lemma_matching_prefix<C>(all: Seq<PickerEntry<C>>, query: Seq<char>, n: nat)
    requires
        n <= all.len(),
        n <= usize::MAX,
    ensures
        matching_prefix(all, query, n).len() <= n,
        forall|k: int|
            0 <= k < matching_prefix(all, query, n).len() ==> {
                &&& (#[trigger] matching_prefix(all, query, n)[k]) < n
                &&& matches_query(all[matching_prefix(all, query, n)[k] as int], query)
            },
        forall|a: int, b: int|
            0 <= a < b < matching_prefix(all, query, n).len() ==> #[trigger] matching_prefix(
                all,
                query,
                n,
            )[a] < #[trigger] matching_prefix(all, query, n)[b],
        forall|i: int|
            0 <= i < n && matches_query(#[trigger] all[i], query) ==> matching_prefix(
                all,
                query,
                n,
            ).contains(i as usize),
    decreases n,
{
    if n > 0 {
        lemma_matching_prefix(all, query, (n - 1) as nat);
        let rest = matching_prefix(all, query, (n - 1) as nat);
        let m = matching_prefix(all, query, n);
        if matches_query(all[n - 1], query) {
            assert(m == rest.push((n - 1) as usize));
            assert forall|i: int| 0 <= i < n && matches_query(#[trigger] all[i], query) implies m.contains(
                i as usize,
            ) by {
                if i < n - 1 {
                    let k = choose|k: int| 0 <= k < rest.len() && rest[k] == i as usize;
                    assert(m[k] == i as usize);
                } else {
                    assert(m[m.len() - 1] == i as usize);
                }
            }
        } else {
            assert forall|i: int| 0 <= i < n && matches_query(#[trigger] all[i], query) implies m.contains(
                i as usize,
            ) by {
                assert(i < n - 1);
            }
        }
    }
}

/// Positions of the entries of `all` whose names match `query`, in order.
fn matching_positions<C>(all: &Vec<PickerEntry<C>>, query: &String) -> (r: Vec<usize>)
    ensures
        r@ == matching_indices(all@, query@),
{
    let mut r: Vec<usize> = Vec::new();
    let empty = query.as_str().is_empty();
    let mut i: usize = 0;
    while i < all.len()
        invariant
            i <= all@.len(),
            empty == (query@.len() == 0),
            r@ == matching_prefix(all@, query@, i as nat),
        decreases all@.len() - i,
    {
        let listed = if empty {
            true
        } else {
            fuzzy_score(all[i].name.as_str(), query.as_str()).is_some()
        };
        if listed {
            r.push(i);
        }
        i = i + 1;
    }
    r
}

/// What a key press asks of the picker.
pub enum PickerAction {
    Continue,
    Select(u32),
    Cancel,
}

/// The picker: every process sorted by lowercase name, the search query,
/// the positions of the processes it lists, and the highlighted row.
pub struct PickerState<C> {
    pub all: Vec<PickerEntry<C>>,
    pub query: String,
    pub filtered: Vec<usize>,
    pub selected: usize,
}

/// The PID on the highlighted row of a picker, if any row is highlighted.
pub open spec fn highlighted_pid<C>(
    all: Seq<PickerEntry<C>>,
    filtered: Seq<usize>,
    selected: int,
) -> Option<u32> {
    if 0 <= selected < filtered.len() {
        Some(all[filtered[selected] as int].pid)
    } else {
        None
    }
}

/// The first row of `filtered` that lists process `pid`.
pub open spec fn first_row_of<C>(all: Seq<PickerEntry<C>>, filtered: Seq<usize>, pid: u32) -> Option<
    int,
>
    decreases filtered.len(),
{
    if filtered.len() == 0 {
        None
    } else {
        match first_row_of(all, filtered.drop_last(), pid) {
            Some(k) => Some(k),
            None => if all[filtered.last() as int].pid == pid {
                Some(filtered.len() - 1)
            } else {
                None
            },
        }
    }
}

/// The row a refresh highlights: the first row of the process highlighted
/// before, when it is still listed, else the first row.
pub open spec fn reselected_row<C>(
    all: Seq<PickerEntry<C>>,
    filtered: Seq<usize>,
    remembered: Option<u32>,
) -> int {
    match remembered {
        Some(pid) => match first_row_of(all, filtered, pid) {
            Some(k) => k,
            None => 0,
        },
        None => 0,
    }
}

proof fn lemma_first_row_of<C>(all: Seq<PickerEntry<C>>, filtered: Seq<usize>, pid: u32)
    ensures
        match first_row_of(all, filtered, pid) {
            Some(k) => 0 <= k < filtered.len() && all[filtered[k] as int].pid == pid && forall|m: int|
                0 <= m < k ==> all[#[trigger] filtered[m] as int].pid != pid,
            None => forall|m: int| 0 <= m < filtered.len() ==> all[#[trigger] filtered[m] as int].pid != pid,
        },
    decreases filtered.len(),
{
    if filtered.len() > 0 {
        let f0 = filtered.drop_last();
        lemma_first_row_of(all, f0, pid);
        assert forall|m: int| 0 <= m < f0.len() implies f0[m] == filtered[m] by {}
    }
}

/// The highlighted process is the one listed on the highlighted row of the
/// search results, so it matches the search.
pub proof fn lemma_highlighted_is_listed<C>(all: Seq<PickerEntry<C>>, query: Seq<char>, selected: int)
    requires
        all.len() <= usize::MAX,
        0 <= selected < matching_indices(all, query).len(),
    ensures
        ({
            let f = matching_indices(all, query);
            &&& f[selected] < all.len()
            &&& skim_matches(all[f[selected] as int].name@, query)
            &&& highlighted_pid(all, f, selected) == Some(all[f[selected] as int].pid)
        }),
{
    lemma_matching_prefix(all, query, all.len());
}

/// When process `pid` is still listed, the row a refresh highlights lists
/// that process, and no earlier row does.
pub proof fn lemma_reselected_row_keeps_process<C>(
    all: Seq<PickerEntry<C>>,
    filtered: Seq<usize>,
    pid: u32,
)
    requires
        exists|m: int| 0 <= m < filtered.len() && (#[trigger] all[filtered[m] as int]).pid == pid,
    ensures
        ({
            let r = reselected_row(all, filtered, Some(pid));
            &&& 0 <= r < filtered.len()
            &&& all[filtered[r] as int].pid == pid
            &&& forall|m: int| 0 <= m < r ==> (#[trigger] all[filtered[m] as int]).pid != pid
        }),
{
    lemma_first_row_of(all, filtered, pid);
    let m = choose|m: int| 0 <= m < filtered.len() && (#[trigger] all[filtered[m] as int]).pid == pid;
    match first_row_of(all, filtered, pid) {
        Some(k) => {},
        None => {
            assert(all[filtered[m] as int].pid != pid);
        },
    }
}

/// The first row of `filtered` that lists process `pid`.
fn first_row<C>(all: &Vec<PickerEntry<C>>, filtered: &Vec<usize>, pid: u32) -> (r: Option<usize>)
    requires
        forall|m: int| 0 <= m < filtered@.len() ==> #[trigger] filtered@[m] < all@.len(),
    ensures
        r == (match first_row_of(all@, filtered@, pid) {
            Some(k) => Some(k as usize),
            None => None::<usize>,
        }),
{
    proof {
        lemma_first_row_of(all@, filtered@, pid);
    }
    let mut k: usize = 0;
    while k < filtered.len()
        invariant
            k <= filtered@.len(),
            forall|m: int| 0 <= m < filtered@.len() ==> #[trigger] filtered@[m] < all@.len(),
            forall|m: int| 0 <= m < k ==> all@[#[trigger] filtered@[m] as int].pid != pid,
            match first_row_of(all@, filtered@, pid) {
                Some(f) => 0 <= f < filtered@.len() && all@[filtered@[f] as int].pid == pid
                    && forall|m: int| 0 <= m < f ==> all@[#[trigger] filtered@[m] as int].pid != pid,
                None => forall|m: int|
                    0 <= m < filtered@.len() ==> all@[#[trigger] filtered@[m] as int].pid != pid,
            },
        decreases filtered@.len() - k,
    {
        if all[filtered[k]].pid == pid {
            proof {
                match first_row_of(all@, filtered@, pid) {
                    Some(f) => {
                        if f < k {
                            assert(all@[filtered@[f] as int].pid != pid);
                        } else if f > k {
                            assert(all@[filtered@[k as int] as int].pid != pid);
                        }
                    },
                    None => {
                        assert(all@[filtered@[k as int] as int].pid != pid);
                    },
                }
            }
            return Some(k);
        }
        k = k + 1;
    }
    proof {
        match first_row_of(all@, filtered@, pid) {
            Some(f) => {
                assert(all@[filtered@[f] as int].pid != pid);
            },
            None => {},
        }
    }
    None
}

impl<C> PickerState<C> {
    /// What every picker state keeps: the processes sorted by name, the
    /// listed rows exactly those matching the query, and the highlight on a
    /// listed row (or on the first row when nothing is listed).
    pub open spec fn wf(&self) -> bool {
        &&& sorted_by_name(self.all@)
        &&& self.filtered@ == matching_indices(self.all@, self.query@)
        &&& (self.selected == 0 || self.selected < self.filtered@.len())
    }

    /// A picker over `all`, sorted by name, with the search `initial_query`
    /// and the first row highlighted.
    pub fn new(all: Vec<PickerEntry<C>>, initial_query: String) -> (state: Self)
        ensures
            state.wf(),
            stably_sorted_by_name(state.all@, all@),
            state.query == initial_query,
            state.filtered@ == matching_indices(state.all@, initial_query@),
            state.selected == 0,
    {
        let ghost input = all@;
        let mut all = all;
        sort_by_name(&mut all);
        proof {
            lemma_stably_sorted_is_sorted(all@, input);
        }
        let filtered = matching_positions(&all, &initial_query);
        PickerState { all, query: initial_query, filtered, selected: 0 }
    }

    /// Lists the processes that match the query. The processes stay sorted
    /// by name, so the listed rows keep that stable order between refreshes.
    pub fn refilter(&mut self)
        ensures
            final(self).all@ == old(self).all@,
            final(self).query == old(self).query,
            final(self).selected == old(self).selected,
            final(self).filtered@ == matching_indices(old(self).all@, old(self).query@),
    {
        self.filtered = matching_positions(&self.all, &self.query);
    }

    /// Replaces the processes with a new `snapshot` (as `snapshot_processes`
    /// gives it), keeping the search and, when it is still listed, the
    /// highlighted process.
    pub fn refresh(&mut self, snapshot: Vec<PickerEntry<C>>)
        requires
            old(self).wf(),
        ensures
            final(self).wf(),
            stably_sorted_by_name(final(self).all@, snapshot@),
            final(self).query == old(self).query,
            final(self).filtered@ == matching_indices(final(self).all@, old(self).query@),
            final(self).selected == reselected_row(
                final(self).all@,
                final(self).filtered@,
                highlighted_pid(old(self).all@, old(self).filtered@, old(self).selected as int),
            ),
            old(self).selected < old(self).filtered@.len() ==> {
                let pid = old(self).all@[old(self).filtered@[old(self).selected as int] as int].pid;
                if exists|m: int|
                    0 <= m < final(self).filtered@.len() && (#[trigger] final(self).all@[final(self).filtered@[m] as int]).pid
                        == pid {
                    &&& final(self).selected < final(self).filtered@.len()
                    &&& final(self).all@[final(self).filtered@[final(self).selected as int] as int].pid
                        == pid
                    &&& forall|m: int|
                        0 <= m < final(self).selected ==> (#[trigger] final(self).all@[final(self).filtered@[m] as int]).pid
                            != pid
                } else {
                    final(self).selected == 0
                }
            },
            old(self).selected >= old(self).filtered@.len() ==> final(self).selected == 0,
    {
        let old_n = self.all.len();
        proof {
            lemma_matching_prefix(self.all@, self.query@, old_n as nat);
        }
        let remembered: Option<u32> = if self.selected < self.filtered.len() {
            Some(self.all[self.filtered[self.selected]].pid)
        } else {
            None
        };
        let ghost input = snapshot@;
        let mut all = snapshot;
        sort_by_name(&mut all);
        proof {
            lemma_stably_sorted_is_sorted(all@, input);
        }
        self.all = all;
        self.refilter();
        let n_all = self.all.len();
        proof {
            lemma_matching_prefix(self.all@, self.query@, n_all as nat);
        }
        proof {
            match remembered {
                Some(pid) => lemma_first_row_of(self.all@, self.filtered@, pid),
                None => {},
            }
        }
        let row: usize = match remembered {
            Some(pid) => match first_row(&self.all, &self.filtered, pid) {
                Some(k) => k,
                None => 0,
            },
            None => 0,
        };
        let last = if self.filtered.len() > 0 {
            self.filtered.len() - 1
        } else {
            0
        };
        self.selected = if row <= last {
            row
        } else {
            last
        };
        proof {
            match remembered {
                Some(pid) => {
                    if exists|m: int|
                        0 <= m < self.filtered@.len() && (#[trigger] self.all@[self.filtered@[m] as int]).pid
                            == pid {
                        lemma_reselected_row_keeps_process(self.all@, self.filtered@, pid);
                    } else {
                        lemma_first_row_of(self.all@, self.filtered@, pid);
                        match first_row_of(self.all@, self.filtered@, pid) {
                            Some(f) => {
                                assert(self.all@[self.filtered@[f] as int].pid == pid);
                            },
                            None => {},
                        }
                    }
                },
                None => {},
            }
        }
    }

    /// Picker keys. Every printable character extends the search (process
    /// names may hold any letter, so none is bound to a command), Backspace
    /// shortens it, Up and Down move the highlight, Enter picks the
    /// highlighted process and Esc cancels.
    pub fn handle_key(&mut self, key: Key) -> (action: PickerAction)
        requires
            old(self).wf(),
        ensures
            final(self).wf(),
            final(self).all@ == old(self).all@,
            action matches PickerAction::Select(pid) ==> {
                &&& key == Key::Enter
                &&& old(self).selected < old(self).filtered@.len()
                &&& old(self).filtered@[old(self).selected as int] < old(self).all@.len()
                &&& pid == old(self).all@[old(self).filtered@[old(self).selected as int] as int].pid
                &&& skim_matches(
                    old(self).all@[old(self).filtered@[old(self).selected as int] as int].name@,
                    old(self).query@,
                )
            },
            key == Key::Enter && old(self).selected < old(self).filtered@.len() ==> action matches PickerAction::Select(_),
            match key {
                Key::Char(c) => {
                    &&& final(self).query@ == old(self).query@.push(c)
                    &&& final(self).selected == 0
                    &&& action is Continue
                },
                Key::Backspace => {
                    &&& final(self).query@ == (if old(self).query@.len() > 0 {
                        old(self).query@.drop_last()
                    } else {
                        old(self).query@
                    })
                    &&& final(self).selected == 0
                    &&& action is Continue
                },
                Key::Up => {
                    &&& final(self).query == old(self).query
                    &&& final(self).selected == (if old(self).selected > 0 {
                        old(self).selected - 1
                    } else {
                        0
                    })
                    &&& action is Continue
                },
                Key::Down => {
                    &&& final(self).query == old(self).query
                    &&& final(self).selected == (if old(self).selected + 1 < old(
                        self,
                    ).filtered@.len() {
                        old(self).selected + 1
                    } else {
                        old(self).selected as int
                    })
                    &&& action is Continue
                },
                Key::Enter => {
                    &&& final(self).query == old(self).query
                    &&& final(self).selected == old(self).selected
                    &&& match highlighted_pid(
                        old(self).all@,
                        old(self).filtered@,
                        old(self).selected as int,
                    ) {
                        Some(pid) => action == PickerAction::Select(pid),
                        None => action is Continue,
                    }
                },
                Key::Esc => {
                    &&& final(self).query == old(self).query
                    &&& final(self).selected == old(self).selected
                    &&& action is Cancel
                },
                Key::Other => {
                    &&& final(self).query == old(self).query
                    &&& final(self).selected == old(self).selected
                    &&& action is Continue
                },
            },
    {
        let n_all = self.all.len();
        let n_listed = self.filtered.len();
        proof {
            lemma_matching_prefix(self.all@, self.query@, n_all as nat);
        }
        match key {
            Key::Char(c) => {
                crate::text::push_char(&mut self.query, c);
                self.refilter();
                self.selected = 0;
                PickerAction::Continue
            },
            Key::Backspace => {
                pop_char(&mut self.query);
                self.refilter();
                self.selected = 0;
                PickerAction::Continue
            },
            Key::Up => {
                if self.selected > 0 {
                    self.selected = self.selected - 1;
                }
                PickerAction::Continue
            },
            Key::Down => {
                if self.selected + 1 < n_listed {
                    self.selected = self.selected + 1;
                }
                PickerAction::Continue
            },
            Key::Enter => {
                if self.selected < self.filtered.len() {
                    PickerAction::Select(self.all[self.filtered[self.selected]].pid)
                } else {
                    PickerAction::Continue
                }
            },
            Key::Esc => PickerAction::Cancel,
            Key::Other => PickerAction::Continue,
        }
    }
}

/// Backspace undoes a typed character: the query and the listed rows are
/// what they were before it was typed.
pub proof fn lemma_backspace_undoes_typing<C>(all: Seq<PickerEntry<C>>, query: Seq<char>, c: char)
    ensures
        query.push(c).drop_last() == query,
        matching_indices(all, query.push(c).drop_last()) == matching_indices(all, query),
{
    assert(query.push(c).drop_last() =~= query);
}

/// Whether the picker's process list is due for a refresh,
/// `since_last_refresh_ns` after the last one, with refreshes every
/// `tick_rate_ms` milliseconds.
pub fn refresh_due(since_last_refresh_ns: u64, tick_rate_ms: u64) -> (r: bool)
    ensures
        r == (since_last_refresh_ns as nat >= interval_ns(tick_rate_ms)),
{
    interval_passed(since_last_refresh_ns, tick_rate_ms)
}

/// `String::pop`: removes the last character, if there is one.
#[verifier::external_body]
pub(crate) fn pop_char(s: &mut String) -> (r: Option<char>)
    ensures
        old(s)@.len() == 0 ==> r is None && final(s)@ == old(s)@,
        old(s)@.len() > 0 ==> r == Some(old(s)@.last()) && final(s)@ == old(s)@.drop_last(),
{
    s.pop()
}

/// The rows of a result list of `capacity` lines showing `total` entries:
/// how many entries are drawn, from which one on, and how many are left
/// below. A list that overflows gives its last line to a "more below" hint.
pub open spec fn rows_window(capacity: nat, total: nat, selected: nat) -> (nat, nat, nat) {
    if total <= capacity {
        (total, 0, 0)
    } else {
        let content = if capacity >= 2 {
            (capacity - 1) as nat
        } else {
            1
        };
        let lead = if selected >= content - 1 {
            (selected - (content - 1)) as nat
        } else {
            0
        };
        let offset = if lead <= total - content {
            lead
        } else {
            (total - content) as nat
        };
        (content, offset, (total - (offset + content)) as nat)
    }
}

/// Which rows of the filtered list fit in `capacity` lines, keeping the
/// selected row in view: the number drawn, the first drawn, and the number
/// hidden below (shown as a hint on the last line).
pub fn visible_rows(capacity: usize, total: usize, selected: usize) -> (r: (usize, usize, usize))
    ensures
        (r.0 as nat, r.1 as nat, r.2 as nat) == rows_window(
            capacity as nat,
            total as nat,
            selected as nat,
        ),
        r.1 + r.0 + r.2 == total,
        selected < total ==> r.1 <= selected < r.1 + r.0,
{
    if total <= capacity {
        return (total, 0, 0);
    }
    let content = if capacity >= 2 {
        capacity - 1
    } else {
        1
    };
    let lead = if selected >= content - 1 {
        selected - (content - 1)
    } else {
        0
    };
    let offset = if lead <= total - content {
        lead
    } else {
        total - content
    };
    let more_below = total - (offset + content);
    (content, offset, more_below)
}

/// The hint on the last line of an overflowing list.
pub open spec fn more_below_text(more_below: nat) -> Seq<char> {
    "▼ "@ + decimal(more_below) + " more match"@ + (if more_below == 1 {
        ""@
    } else {
        "es"@
    }) + " below — keep scrolling"@
}

/// The hint shown in place of the last row when more matches than fit the
/// list are left below it.
pub fn more_below_hint(more_below: usize) -> (s: String)
    ensures
        s@ == more_below_text(more_below as nat),
{
    let mut s = String::new();
    s.append("▼ ");
    push_decimal(&mut s, more_below as u64);
    s.append(" more match");
    if more_below != 1 {
        s.append("es");
    }
    s.append(" below — keep scrolling");
    proof {
        if more_below == 1 {
            reveal_strlit("");
        }
    }
    assert(s@ =~= more_below_text(more_below as nat));
    s
}

/// The summary in the search box's title.
pub open spec fn search_summary_text(query: Seq<char>, matches: nat, total: nat) -> Seq<char> {
    if query.len() > 0 {
        decimal(matches) + " matches  ·  "@ + decimal(total) + " processes total"@
    } else {
        decimal(total) + " processes total"@
    }
}

/// How many processes the search lists out of how many, or only the total
/// when there is no search.
pub fn search_summary(query: &str, matches: usize, total: usize) -> (s: String)
    ensures
        s@ == search_summary_text(query@, matches as nat, total as nat),
{
    let mut s = String::new();
    if !query.is_empty() {
        push_decimal(&mut s, matches as u64);
        s.append(" matches  ·  ");
    }
    push_decimal(&mut s, total as u64);
    s.append(" processes total");
    assert(s@ =~= search_summary_text(query@, matches as nat, total as nat));
    s
}

/// Position of the last `.` in `s`.
pub open spec fn last_dot(s: Seq<char>) -> Option<int>
    decreases s.len(),
{
    if s.len() == 0 {
        None
    } else if s.last() == '.' {
        Some(s.len() - 1)
    } else {
        last_dot(s.drop_last())
    }
}

proof fn lemma_last_dot(s: Seq<char>)
    ensures
        match last_dot(s) {
            Some(d) => 0 <= d < s.len() && s[d] == '.' && forall|m: int| d < m < s.len() ==> s[m] != '.',
            None => forall|m: int| 0 <= m < s.len() ==> s[m] != '.',
        },
    decreases s.len(),
{
    if s.len() > 0 && s.last() != '.' {
        lemma_last_dot(s.drop_last());
        let p = s.drop_last();
        assert forall|m: int| 0 <= m < p.len() implies p[m] == s[m] by {}
    }
}

/// Splits a process name at its last `.` into the base name and the
/// extension (which keeps the dot), so the two can be shown differently.
pub fn split_extension(name: &str) -> (r: Option<(String, String)>)
    ensures
        match last_dot(name@) {
            Some(d) => r matches Some(parts) && parts.0@ == name@.subrange(0, d) && parts.1@
                == name@.subrange(d, name@.len() as int),
            None => r is None,
        },
{
    proof {
        lemma_last_dot(name@);
    }
    let n = name.unicode_len();
    let mut k: usize = n;
    while k > 0
        invariant
            n == name@.len(),
            k <= n,
            forall|m: int| k <= m < n ==> name@[m] != '.',
        decreases k,
    {
        if name.get_char(k - 1) == '.' {
            let d = k - 1;
            proof {
                lemma_last_dot(name@);
                match last_dot(name@) {
                    Some(ld) => {
                        if ld < d {
                            assert(name@[d as int] != '.');
                        } else if ld > d {
                            assert(name@[ld] != '.');
                        }
                    },
                    None => {
                        assert(name@[d as int] != '.');
                    },
                }
            }
            let base = name.substring_char(0, d).to_owned();
            let ext = name.substring_char(d, n).to_owned();
            return Some((base, ext));
        }
        k = k - 1;
    }
    proof {
        match last_dot(name@) {
            Some(ld) => {
                assert(name@[ld] != '.');
            },
            None => {},
        }
    }
    None
}

/// How `format_mem` writes a byte count: GB with one decimal place from
/// 1024 MB on, else whole MB.
pub open spec fn mem_text(bytes: u64) -> Seq<char> {
    let mb = bytes / BYTES_PER_MB;
    if mb >= 1024 {
        gb_one_decimal(mb as nat) + " GB"@
    } else {
        decimal(mb as nat) + " MB"@
    }
}

/// Formats a memory size for the picker's MEM column.
pub fn format_mem(bytes: u64) -> (s: String)
    ensures
        s@ == mem_text(bytes),
{
    let mb = bytes / BYTES_PER_MB;
    let mut s = String::new();
    if mb >= 1024 {
        push_gb_one_decimal(&mut s, mb);
        s.append(" GB");
    } else {
        push_decimal(&mut s, mb);
        s.append(" MB");
    }
    assert(s@ =~= mem_text(bytes));
    s
}

} // verus!
