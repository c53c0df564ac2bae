//! Grouping the processes of a snapshot into applications.
//!
//! Every process gets at most one "owner" in the table: the process
//! responsible for it (as the platform reports it, or, where processes are
//! grouped by application name, the application its name marks it as a
//! helper of, or the leader of its process group), else its parent process
//! when that parent is itself unowned. Processes without an owner are the
//! roots of the groups; a group holds everything below its root, in
//! depth-first order.
use vstd::prelude::*;
use crate::domain::{group_views, info_views, GroupView, InfoView, ProcessGroup, ProcessInfo, ProcessSnapshot, SnapView, SystemSnapshot};
use crate::hierarchy::{lemma_group_within_snapshot, lemma_usage_prefix, usage_nonneg};
use crate::order::{group_fits, Ranked};
use std::collections::HashSet;
use crate::platform::{parent_app_for_lowercase, parent_app_rule, app_name_matches};
use crate::text::{chars_equal, lowercase, lowercase_chars};

verus! {

broadcast use vstd::std_specs::hash::group_hash_axioms;

/// No two processes share a pid.
pub open spec fn distinct_pids(p: Seq<SnapView>) -> bool {
    forall|i: int, j: int| 0 <= i < j < p.len() ==> p[i].pid != p[j].pid
}

/// Some process has pid `pid`.
pub open spec fn has_pid(p: Seq<SnapView>, pid: u32) -> bool {
    exists|i: int| 0 <= i < p.len() && p[i].pid == pid
}

/// The position of the process with pid `pid`.
pub open spec fn pid_pos(p: Seq<SnapView>, pid: u32) -> int {
    choose|i: int| 0 <= i < p.len() && p[i].pid == pid
}

/// The position of the process with pid `pid`, if there is one.
pub open spec fn find(p: Seq<SnapView>, pid: u32) -> Option<int> {
    if has_pid(p, pid) {
        Some(pid_pos(p, pid))
    } else {
        None
    }
}

/// The process that the platform reports as responsible for process `i`,
/// when it is another process of the snapshot.
pub open spec fn reported_owner(p: Seq<SnapView>, i: int) -> Option<int> {
    match p[i].responsible {
        Some(r) => if r != p[i].pid { find(p, r) } else { None },
        None => None,
    }
}

/// Process `j` is an application in its own right: its name marks it as
/// no other application's helper.
pub open spec fn is_app(p: Seq<SnapView>, j: int) -> bool {
    parent_app_rule(lowercase(p[j].name)) is None
}

/// Among the first `n` processes, the last application whose lowercased
/// name is `key`.
pub open spec fn app_named(p: Seq<SnapView>, key: Seq<char>, n: int) -> Option<int>
    decreases n,
{
    if n <= 0 {
        None
    } else if is_app(p, n - 1) && lowercase(p[n - 1].name) == key {
        Some(n - 1)
    } else {
        app_named(p, key, n - 1)
    }
}

/// The owner of process `i` by the platform's report or, when grouping by
/// name, by the application its name marks it as a helper of.
pub open spec fn named_owner(p: Seq<SnapView>, by_name: bool, i: int) -> Option<int> {
    if !by_name || reported_owner(p, i) is Some {
        reported_owner(p, i)
    } else {
        match parent_app_rule(lowercase(p[i].name)) {
            Some(app) => match app_named(p, lowercase(app), p.len() as int) {
                Some(j) => if p[j].pid != p[i].pid { Some(j) } else { None },
                None => None,
            },
            None => None,
        }
    }
}

/// Process `j` leads its own process group and has no owner so far.
pub open spec fn leads_group(p: Seq<SnapView>, by_name: bool, j: int) -> bool {
    named_owner(p, by_name, j) is None && p[j].process_group == Some(p[j].pid)
}

/// The owner of process `i`: as `named_owner`, or else, when grouping by
/// name, the leader of its process group.
pub open spec fn owner(p: Seq<SnapView>, by_name: bool, i: int) -> Option<int> {
    if !by_name || named_owner(p, by_name, i) is Some {
        named_owner(p, by_name, i)
    } else {
        match p[i].process_group {
            Some(g) => if g != p[i].pid && has_pid(p, g) && leads_group(p, by_name, pid_pos(p, g)) {
                Some(pid_pos(p, g))
            } else {
                None
            },
            None => None,
        }
    }
}

/// The process that process `i` is shown under: its owner, else its parent
/// when the parent is an unowned process with pid above 1; `None` for the
/// root of a group.
pub open spec fn above(p: Seq<SnapView>, by_name: bool, i: int) -> Option<int> {
    match owner(p, by_name, i) {
        Some(j) => Some(j),
        None => match p[i].parent {
            Some(pp) => if has_pid(p, pp) && owner(p, by_name, pid_pos(p, pp)) is None && pp > 1 {
                Some(pid_pos(p, pp))
            } else {
                None
            },
            None => None,
        },
    }
}

/// The processes among the first `n` that are shown directly under `x`,
/// in snapshot order.
pub open spec fn below(p: Seq<SnapView>, by_name: bool, x: int, n: int) -> Seq<int>
    decreases n,
{
    if n <= 0 {
        Seq::empty()
    } else if above(p, by_name, n - 1) == Some(x) {
        below(p, by_name, x, n - 1).push(n - 1)
    } else {
        below(p, by_name, x, n - 1)
    }
}

/// The roots among the first `n` processes, in snapshot order.
pub open spec fn roots(p: Seq<SnapView>, by_name: bool, n: int) -> Seq<int>
    decreases n,
{
    if n <= 0 {
        Seq::empty()
    } else if above(p, by_name, n - 1) is None {
        roots(p, by_name, n - 1).push(n - 1)
    } else {
        roots(p, by_name, n - 1)
    }
}

/// The processes `cs` each followed by everything below it, depth first,
/// going at most `depth` levels down.
pub open spec fn subtrees(p: Seq<SnapView>, by_name: bool, cs: Seq<int>, depth: nat) -> Seq<int>
    decreases depth, cs.len(),
{
    if depth == 0 || cs.len() == 0 {
        Seq::empty()
    } else {
        subtrees(p, by_name, cs.drop_last(), depth)
            + seq![cs.last()]
            + subtrees(p, by_name, below(p, by_name, cs.last(), p.len() as int), (depth - 1) as nat)
    }
}

/// The processes of the group rooted at `r`, depth first.
pub open spec fn members(p: Seq<SnapView>, by_name: bool, r: int) -> Seq<int> {
    subtrees(p, by_name, below(p, by_name, r, p.len() as int), p.len())
}

/// A process as shown inside a group.
pub open spec fn info_of(s: SnapView) -> InfoView {
    InfoView {
        pid: s.pid,
        name: s.name,
        cpu_usage: s.cpu_usage,
        memory: s.memory,
        disk_read: s.disk_read,
        disk_write: s.disk_write,
    }
}

/// The kinds of resource usage that a group adds up.
pub enum Usage {
    Cpu,
    Memory,
    DiskRead,
    DiskWrite,
}

/// One kind of usage of a process.
pub open spec fn usage_of(s: InfoView, u: Usage) -> int {
    match u {
        Usage::Cpu => s.cpu_usage,
        Usage::Memory => s.memory,
        Usage::DiskRead => s.disk_read,
        Usage::DiskWrite => s.disk_write,
    }
}

/// The usage of a sequence of processes, added up.
pub open spec fn usage_sum(cs: Seq<InfoView>, u: Usage) -> int
    decreases cs.len(),
{
    if cs.len() == 0 {
        0
    } else {
        usage_sum(cs.drop_last(), u) + usage_of(cs.last(), u)
    }
}

/// The usage of all processes of a snapshot, added up.
pub open spec fn snapshot_usage(p: Seq<SnapView>, u: Usage) -> int {
    usage_sum(p.map_values(|s: SnapView| info_of(s)), u)
}

/// The group rooted at process `r`, before ordering.
pub open spec fn group_of(p: Seq<SnapView>, by_name: bool, expanded: Set<u32>, r: int) -> GroupView {
    let kids = members(p, by_name, r).map_values(|k: int| info_of(p[k]));
    GroupView {
        pid: p[r].pid,
        name: p[r].name,
        cpu_usage: p[r].cpu_usage + usage_sum(kids, Usage::Cpu),
        memory: p[r].memory + usage_sum(kids, Usage::Memory),
        disk_read: p[r].disk_read + usage_sum(kids, Usage::DiskRead),
        disk_write: p[r].disk_write + usage_sum(kids, Usage::DiskWrite),
        children: kids,
        expanded: expanded.contains(p[r].pid),
    }
}

/// The groups of a snapshot in the order of their roots, before ordering.
pub open spec fn unsorted_groups(p: Seq<SnapView>, by_name: bool, expanded: Set<u32>) -> Seq<GroupView> {
    roots(p, by_name, p.len() as int).map_values(|r: int| group_of(p, by_name, expanded, r))
}

/// A snapshot that the grouping accepts: pids are distinct and each kind of
/// usage, added up over all processes, fits in 64 bits (disk reads and
/// writes together).
pub open spec fn snapshot_fits(p: Seq<SnapView>) -> bool {
    &&& distinct_pids(p)
    &&& snapshot_usage(p, Usage::Cpu) <= u64::MAX
    &&& snapshot_usage(p, Usage::Memory) <= u64::MAX
    &&& snapshot_usage(p, Usage::DiskRead) + snapshot_usage(p, Usage::DiskWrite) <= u64::MAX
}

/// With distinct pids, the process found for the pid of process `i` is `i`.
pub proof fn lemma_find_own_pid(p: Seq<SnapView>, i: int)
    requires
        distinct_pids(p),
        0 <= i < p.len(),
    ensures
        has_pid(p, p[i].pid),
        pid_pos(p, p[i].pid) == i,
        find(p, p[i].pid) == Some(i),
{
    assert(has_pid(p, p[i].pid));
    let j = pid_pos(p, p[i].pid);
    if j != i {
        if j < i {
            assert(p[j].pid != p[i].pid);
        } else {
            assert(p[i].pid != p[j].pid);
        }
    }
}

/// The position of the process with pid `pid`.
pub fn find_pid(procs: &Vec<ProcessSnapshot>, pid: u32) -> (r: Option<usize>)
    requires
        distinct_pids(procs@.map_values(|s: ProcessSnapshot| s@)),
    ensures
        r matches Some(i) ==> find(procs@.map_values(|s: ProcessSnapshot| s@), pid) == Some(i as int),
        r is None ==> find(procs@.map_values(|s: ProcessSnapshot| s@), pid) is None,
{
    let ghost p = procs@.map_values(|s: ProcessSnapshot| s@);
    let mut i: usize = 0;
    while i < procs.len()
        invariant
            p == procs@.map_values(|s: ProcessSnapshot| s@),
            distinct_pids(p),
            i <= procs@.len(),
            forall|k: int| 0 <= k < i ==> p[k].pid != pid,
        decreases procs@.len() - i,
    {
        if procs[i].pid == pid {
            proof {
                lemma_find_own_pid(p, i as int);
            }
            return Some(i);
        }
        i = i + 1;
    }
    None
}

/// A position held at run time, as a mathematical integer.
pub open spec fn pos(o: Option<usize>) -> Option<int> {
    match o {
        Some(i) => Some(i as int),
        None => None,
    }
}

/// Positions held at run time, as mathematical integers.
pub open spec fn positions(v: Seq<usize>) -> Seq<int> {
    v.map_values(|i: usize| i as int)
}

/// The views of the processes of a run-time list.
pub open spec fn snaps(procs: Seq<ProcessSnapshot>) -> Seq<SnapView> {
    procs.map_values(|s: ProcessSnapshot| s@)
}

/// `v` holds, for the first `k` of `n` processes, the value of `f` at its
/// position, and every position in it is a process.
pub open spec fn tabulates_upto(v: Seq<Option<usize>>, k: int, n: int, f: spec_fn(int) -> Option<int>) -> bool {
    &&& v.len() == k
    &&& forall|i: int| 0 <= i < k ==> pos(#[trigger] v[i]) == f(i)
    &&& forall|i: int| 0 <= i < k ==> (#[trigger] v[i] matches Some(j) ==> j < n)
}

/// `v` holds, for every one of `n` processes, the value of `f` at its
/// position, and every position in it is a process.
pub open spec fn tabulates(v: Seq<Option<usize>>, n: int, f: spec_fn(int) -> Option<int>) -> bool {
    tabulates_upto(v, n, n, f)
}

proof fn lemma_tabulates_push(v: Seq<Option<usize>>, k: int, n: int, f: spec_fn(int) -> Option<int>, x: Option<usize>)
    requires
        tabulates_upto(v, k, n, f),
        pos(x) == f(k),
        x matches Some(j) ==> j < n,
    ensures
        tabulates_upto(v.push(x), k + 1, n, f),
{
    assert forall|i: int| 0 <= i < k + 1 implies pos(#[trigger] v.push(x)[i]) == f(i) by {
        if i < k {
            assert(v.push(x)[i] == v[i]);
        }
    }
    assert forall|i: int| 0 <= i < k + 1 implies (#[trigger] v.push(x)[i] matches Some(j) ==> j < n) by {
        if i < k {
            assert(v.push(x)[i] == v[i]);
        }
    }
}

/// The owner of every process by the platform's report.
fn reported_owners(procs: &Vec<ProcessSnapshot>) -> (r: Vec<Option<usize>>)
    requires
        distinct_pids(snaps(procs@)),
    ensures
        tabulates(r@, procs@.len() as int, |i: int| reported_owner(snaps(procs@), i)),
{
    let ghost p = snaps(procs@);
    let mut r: Vec<Option<usize>> = Vec::new();
    let mut i: usize = 0;
    while i < procs.len()
        invariant
            p == snaps(procs@),
            distinct_pids(p),
            i <= procs@.len(),
            tabulates_upto(r@, i as int, procs@.len() as int, |k: int| reported_owner(p, k)),
        decreases procs@.len() - i,
    {
        let proc = &procs[i];
        let o = match proc.responsible {
            Some(resp) => if resp != proc.pid {
                find_pid(procs, resp)
            } else {
                None
            },
            None => None,
        };
        proof {
            lemma_tabulates_push(r@, i as int, procs@.len() as int, |k: int| reported_owner(p, k), o);
        }
        r.push(o);
        i = i + 1;
    }
    r
}

/// Among the first `n` processes, the last application whose lowercased
/// name is `key`, given the lowercased names and helper marks of all.
fn find_app(
    lowered: &Vec<Vec<char>>,
    apps: &Vec<Option<&'static str>>,
    key: &Vec<char>,
    Ghost(p): Ghost<Seq<SnapView>>,
) -> (r: Option<usize>)
    requires
        lowered@.len() == p.len(),
        apps@.len() == p.len(),
        forall|i: int| 0 <= i < p.len() ==> (#[trigger] lowered@[i])@ == lowercase(p[i].name),
        forall|i: int|
            0 <= i < p.len() ==> app_name_matches(#[trigger] apps@[i], parent_app_rule(lowercase(p[i].name))),
    ensures
        pos(r) == app_named(p, key@, p.len() as int),
        r matches Some(j) ==> j < p.len(),
{
    let mut k: usize = lowered.len();
    while k > 0
        invariant
            k <= p.len(),
            lowered@.len() == p.len(),
            apps@.len() == p.len(),
            forall|i: int| 0 <= i < p.len() ==> (#[trigger] lowered@[i])@ == lowercase(p[i].name),
            forall|i: int|
                0 <= i < p.len() ==> app_name_matches(#[trigger] apps@[i], parent_app_rule(lowercase(p[i].name))),
            app_named(p, key@, p.len() as int) == app_named(p, key@, k as int),
        decreases k,
    {
        let j = k - 1;
        assert(app_name_matches(apps@[j as int], parent_app_rule(lowercase(p[j as int].name))));
        if apps[j].is_none() && chars_equal(&lowered[j], key) {
            return Some(j);
        }
        k = j;
    }
    None
}

/// The owner of every process by the platform's report or, when grouping
/// by name, by the application its name marks it as a helper of.
fn named_owners(procs: &Vec<ProcessSnapshot>, by_name: bool, reported: Vec<Option<usize>>) -> (r: Vec<
    Option<usize>,
>)
    requires
        distinct_pids(snaps(procs@)),
        tabulates(reported@, procs@.len() as int, |i: int| reported_owner(snaps(procs@), i)),
    ensures
        tabulates(r@, procs@.len() as int, |i: int| named_owner(snaps(procs@), by_name, i)),
{
    let ghost p = snaps(procs@);
    if !by_name {
        return reported;
    }
    let n = procs.len();
    let mut lowered: Vec<Vec<char>> = Vec::new();
    let mut apps: Vec<Option<&'static str>> = Vec::new();
    let mut i: usize = 0;
    while i < n
        invariant
            p == snaps(procs@),
            n == p.len(),
            i <= n,
            lowered@.len() == i,
            apps@.len() == i,
            forall|k: int| 0 <= k < i ==> (#[trigger] lowered@[k])@ == lowercase(p[k].name),
            forall|k: int|
                0 <= k < i ==> app_name_matches(#[trigger] apps@[k], parent_app_rule(lowercase(p[k].name))),
        decreases n - i,
    {
        let l = lowercase_chars(procs[i].name.as_str());
        let a = parent_app_for_lowercase(&l);
        lowered.push(l);
        apps.push(a);
        i = i + 1;
    }
    let mut r: Vec<Option<usize>> = Vec::new();
    let mut i: usize = 0;
    while i < n
        invariant
            p == snaps(procs@),
            distinct_pids(p),
            n == p.len(),
            by_name,
            i <= n,
            lowered@.len() == n,
            apps@.len() == n,
            forall|k: int| 0 <= k < n ==> (#[trigger] lowered@[k])@ == lowercase(p[k].name),
            forall|k: int|
                0 <= k < n ==> app_name_matches(#[trigger] apps@[k], parent_app_rule(lowercase(p[k].name))),
            tabulates(reported@, n as int, |k: int| reported_owner(p, k)),
            tabulates_upto(r@, i as int, n as int, |k: int| named_owner(p, by_name, k)),
        decreases n - i,
    {
        assert(pos(reported@[i as int]) == reported_owner(p, i as int));
        assert(app_name_matches(apps@[i as int], parent_app_rule(lowercase(p[i as int].name))));
        let o = if reported[i].is_some() {
            reported[i]
        } else {
            match apps[i] {
                Some(app) => {
                    let key = lowercase_chars(app);
                    match find_app(&lowered, &apps, &key, Ghost(p)) {
                        Some(j) => if procs[j].pid != procs[i].pid {
                            Some(j)
                        } else {
                            None
                        },
                        None => None,
                    }
                },
                None => None,
            }
        };
        proof {
            lemma_tabulates_push(r@, i as int, procs@.len() as int, |k: int| named_owner(p, by_name, k), o);
        }
        r.push(o);
        i = i + 1;
    }
    r
}

/// The owner of every process (see `owner`).
fn owners(procs: &Vec<ProcessSnapshot>, by_name: bool, named: &Vec<Option<usize>>) -> (r: Vec<Option<usize>>)
    requires
        distinct_pids(snaps(procs@)),
        tabulates(named@, procs@.len() as int, |i: int| named_owner(snaps(procs@), by_name, i)),
    ensures
        tabulates(r@, procs@.len() as int, |i: int| owner(snaps(procs@), by_name, i)),
{
    let ghost p = snaps(procs@);
    let n = procs.len();
    let mut r: Vec<Option<usize>> = Vec::new();
    let mut i: usize = 0;
    while i < n
        invariant
            p == snaps(procs@),
            distinct_pids(p),
            n == p.len(),
            i <= n,
            tabulates(named@, n as int, |k: int| named_owner(p, by_name, k)),
            tabulates_upto(r@, i as int, n as int, |k: int| owner(p, by_name, k)),
        decreases n - i,
    {
        assert(pos(named@[i as int]) == named_owner(p, by_name, i as int));
        let proc = &procs[i];
        let o = if !by_name || named[i].is_some() {
            named[i]
        } else {
            match proc.process_group {
                Some(g) => if g != proc.pid {
                    match find_pid(procs, g) {
                        Some(j) => {
                            assert(pos(named@[j as int]) == named_owner(p, by_name, j as int));
                            if named[j].is_none() && procs[j].process_group == Some(procs[j].pid) {
                                Some(j)
                            } else {
                                None
                            }
                        },
                        None => None,
                    }
                } else {
                    None
                },
                None => None,
            }
        };
        proof {
            lemma_tabulates_push(r@, i as int, procs@.len() as int, |k: int| owner(p, by_name, k), o);
        }
        r.push(o);
        i = i + 1;
    }
    r
}

/// The process each process is shown under (see `above`).
fn aboves(procs: &Vec<ProcessSnapshot>, by_name: bool, owned: &Vec<Option<usize>>) -> (r: Vec<Option<usize>>)
    requires
        distinct_pids(snaps(procs@)),
        tabulates(owned@, procs@.len() as int, |i: int| owner(snaps(procs@), by_name, i)),
    ensures
        tabulates(r@, procs@.len() as int, |i: int| above(snaps(procs@), by_name, i)),
{
    let ghost p = snaps(procs@);
    let n = procs.len();
    let mut r: Vec<Option<usize>> = Vec::new();
    let mut i: usize = 0;
    while i < n
        invariant
            p == snaps(procs@),
            distinct_pids(p),
            n == p.len(),
            i <= n,
            tabulates(owned@, n as int, |k: int| owner(p, by_name, k)),
            tabulates_upto(r@, i as int, n as int, |k: int| above(p, by_name, k)),
        decreases n - i,
    {
        assert(pos(owned@[i as int]) == owner(p, by_name, i as int));
        let o = match owned[i] {
            Some(j) => Some(j),
            None => match procs[i].parent {
                Some(pp) => match find_pid(procs, pp) {
                    Some(j) => {
                        assert(pos(owned@[j as int]) == owner(p, by_name, j as int));
                        if owned[j].is_none() && pp > 1 {
                            Some(j)
                        } else {
                            None
                        }
                    },
                    None => None,
                },
                None => None,
            },
        };
        proof {
            lemma_tabulates_push(r@, i as int, procs@.len() as int, |k: int| above(p, by_name, k), o);
        }
        r.push(o);
        i = i + 1;
    }
    r
}

/// The processes shown directly under `x`, in snapshot order.
fn below_of(above_v: &Vec<Option<usize>>, x: usize, Ghost(p): Ghost<Seq<SnapView>>, by_name: bool) -> (r: Vec<usize>)
    requires
        tabulates(above_v@, p.len() as int, |i: int| above(p, by_name, i)),
    ensures
        positions(r@) == below(p, by_name, x as int, p.len() as int),
        forall|k: int| 0 <= k < r@.len() ==> #[trigger] r@[k] < p.len(),
{
    let mut r: Vec<usize> = Vec::new();
    let mut i: usize = 0;
    while i < above_v.len()
        invariant
            tabulates(above_v@, p.len() as int, |k: int| above(p, by_name, k)),
            i <= p.len(),
            positions(r@) == below(p, by_name, x as int, i as int),
            forall|k: int| 0 <= k < r@.len() ==> #[trigger] r@[k] < i,
        decreases p.len() - i,
    {
        assert(pos(above_v@[i as int]) == above(p, by_name, i as int));
        if above_v[i] == Some(x) {
            r.push(i);
            assert(positions(r@) =~= below(p, by_name, x as int, i as int).push(i as int));
        }
        i = i + 1;
    }
    r
}

/// The roots of the groups, in snapshot order.
fn roots_of(above_v: &Vec<Option<usize>>, Ghost(p): Ghost<Seq<SnapView>>, by_name: bool) -> (r: Vec<usize>)
    requires
        tabulates(above_v@, p.len() as int, |i: int| above(p, by_name, i)),
    ensures
        positions(r@) == roots(p, by_name, p.len() as int),
        forall|k: int| 0 <= k < r@.len() ==> #[trigger] r@[k] < p.len(),
{
    let mut r: Vec<usize> = Vec::new();
    let mut i: usize = 0;
    while i < above_v.len()
        invariant
            tabulates(above_v@, p.len() as int, |k: int| above(p, by_name, k)),
            i <= p.len(),
            positions(r@) == roots(p, by_name, i as int),
            forall|k: int| 0 <= k < r@.len() ==> #[trigger] r@[k] < i,
        decreases p.len() - i,
    {
        assert(pos(above_v@[i as int]) == above(p, by_name, i as int));
        if above_v[i].is_none() {
            r.push(i);
            assert(positions(r@) =~= roots(p, by_name, i as int).push(i as int));
        }
        i = i + 1;
    }
    r
}

/// A process of the snapshot as shown inside a group.
fn info_from(s: &ProcessSnapshot) -> (r: ProcessInfo)
    ensures
        r@ == info_of(s@),
{
    ProcessInfo {
        pid: s.pid,
        name: s.name.clone(),
        cpu_usage: s.cpu_usage,
        memory: s.memory,
        disk_read: s.disk_read,
        disk_write: s.disk_write,
    }
}

/// The processes of a list, as shown inside a group.
pub open spec fn infos_at(p: Seq<SnapView>, ks: Seq<int>) -> Seq<InfoView> {
    ks.map_values(|k: int| info_of(p[k]))
}

/// Appends to `out` everything below `x`, depth first, at most `depth`
/// levels down.
fn collect_children(
    procs: &Vec<ProcessSnapshot>,
    above_v: &Vec<Option<usize>>,
    by_name: bool,
    x: usize,
    depth: usize,
    out: &mut Vec<ProcessInfo>,
)
    requires
        tabulates(above_v@, procs@.len() as int, |i: int| above(snaps(procs@), by_name, i)),
    ensures
        info_views(final(out)@) == info_views(old(out)@) + infos_at(
            snaps(procs@),
            subtrees(snaps(procs@), by_name, below(snaps(procs@), by_name, x as int, procs@.len() as int), depth as nat),
        ),
    decreases depth,
{
    let ghost p = snaps(procs@);
    let ghost start = info_views(out@);
    if depth == 0 {
        assert(info_views(out@) =~= start + infos_at(p, Seq::empty()));
        return;
    }
    let cs = below_of(above_v, x, Ghost(p), by_name);
    let ghost csi = positions(cs@);
    let mut k: usize = 0;
    assert(csi.take(0) =~= Seq::<int>::empty());
    assert(info_views(out@) =~= start + infos_at(p, subtrees(p, by_name, csi.take(0), depth as nat)));
    while k < cs.len()
        invariant
            p == snaps(procs@),
            tabulates(above_v@, procs@.len() as int, |i: int| above(p, by_name, i)),
            csi == positions(cs@),
            csi == below(p, by_name, x as int, p.len() as int),
            forall|j: int| 0 <= j < cs@.len() ==> #[trigger] cs@[j] < p.len(),
            depth > 0,
            k <= cs@.len(),
            info_views(out@) == start + infos_at(p, subtrees(p, by_name, csi.take(k as int), depth as nat)),
        decreases cs@.len() - k,
    {
        let c = cs[k];
        let ghost before = info_views(out@);
        let info = info_from(&procs[c]);
        out.push(info);
        let ghost mid = info_views(out@);
        assert(mid =~= before.push(info_of(p[c as int])));
        collect_children(procs, above_v, by_name, c, depth - 1, out);
        proof {
            let t = csi.take(k + 1);
            assert(t.drop_last() =~= csi.take(k as int));
            assert(t.last() == c as int);
            let a = subtrees(p, by_name, csi.take(k as int), depth as nat);
            let b = subtrees(p, by_name, below(p, by_name, c as int, p.len() as int), (depth - 1) as nat);
            assert(subtrees(p, by_name, t, depth as nat) == a + seq![c as int] + b);
            assert(infos_at(p, a + seq![c as int] + b) =~= infos_at(p, a) + seq![info_of(p[c as int])]
                + infos_at(p, b));
            assert(info_views(out@) == mid + infos_at(p, b));
            assert(info_views(out@) =~= start + infos_at(p, subtrees(p, by_name, t, depth as nat)));
        }
        k = k + 1;
    }
    assert(csi.take(cs@.len() as int) =~= csi);
}

/// Among the first `n` processes, the application found is one of them.
proof fn lemma_app_named_in_range(p: Seq<SnapView>, key: Seq<char>, n: int)
    ensures
        app_named(p, key, n) matches Some(j) ==> 0 <= j < n,
    decreases n,
{
    if n > 0 {
        lemma_app_named_in_range(p, key, n - 1);
    }
}

/// The owner of a process is a process.
pub proof fn lemma_owner_in_range(p: Seq<SnapView>, by_name: bool, i: int)
    ensures
        owner(p, by_name, i) matches Some(j) ==> 0 <= j < p.len(),
        named_owner(p, by_name, i) matches Some(j) ==> 0 <= j < p.len(),
{
    if let Some(r) = p[i].responsible {
        if has_pid(p, r) {
            let j = pid_pos(p, r);
        }
    }
    if let Some(app) = parent_app_rule(lowercase(p[i].name)) {
        lemma_app_named_in_range(p, lowercase(app), p.len() as int);
    }
    if let Some(g) = p[i].process_group {
        if has_pid(p, g) {
            let j = pid_pos(p, g);
        }
    }
}

/// The usage counters of a snapshot, read as integers, are not negative.
proof fn lemma_snapshot_nonneg(procs: Seq<ProcessSnapshot>)
    ensures
        usage_nonneg(snaps(procs).map_values(|v: SnapView| info_of(v))),
{
    let p = snaps(procs);
    let s = p.map_values(|v: SnapView| info_of(v));
    assert forall|k: int| 0 <= k < s.len() implies (#[trigger] s[k]).cpu_usage >= 0 && s[k].memory >= 0
        && s[k].disk_read >= 0 && s[k].disk_write >= 0 by {
        assert(s[k] == info_of(p[k]));
        assert(p[k] == procs[k]@);
    }
}

/// The groups of a snapshot, in the order of their roots and not yet
/// ordered; a group is expanded when its root's pid is in `expanded`.
pub fn group_processes(snapshot: &SystemSnapshot, expanded: &HashSet<u32>) -> (groups: Vec<ProcessGroup>)
    requires
        snapshot_fits(snapshot.procs()),
    ensures
        group_views(groups@) == unsorted_groups(snapshot.procs(), snapshot.group_by_app_name, expanded@),
        forall|i: int| 0 <= i < groups@.len() ==> group_fits(#[trigger] groups@[i]),
{
    let procs = &snapshot.processes;
    let by_name = snapshot.group_by_app_name;
    let ghost p = snaps(procs@);
    assert(p == snapshot.procs());
    let reported = reported_owners(procs);
    let named = named_owners(procs, by_name, reported);
    let owned = owners(procs, by_name, &named);
    let above_v = aboves(procs, by_name, &owned);
    let root_list = roots_of(&above_v, Ghost(p), by_name);
    let ghost rs = positions(root_list@);
    proof {
        lemma_snapshot_nonneg(procs@);
        lemma_roots_facts(p, by_name, p.len() as int);
    }
    let mut groups: Vec<ProcessGroup> = Vec::new();
    let mut k: usize = 0;
    while k < root_list.len()
        invariant
            p == snaps(procs@),
            p == snapshot.procs(),
            by_name == snapshot.group_by_app_name,
            snapshot_fits(p),
            usage_nonneg(p.map_values(|v: SnapView| info_of(v))),
            tabulates(above_v@, p.len() as int, |i: int| above(p, by_name, i)),
            rs == positions(root_list@),
            rs == roots(p, by_name, p.len() as int),
            forall|j: int| 0 <= j < root_list@.len() ==> #[trigger] root_list@[j] < p.len(),
            forall|j: int| 0 <= j < rs.len() ==> above(p, by_name, #[trigger] rs[j]) is None,
            k <= root_list@.len(),
            group_views(groups@) == rs.take(k as int).map_values(|r: int| group_of(p, by_name, expanded@, r)),
            forall|i: int| 0 <= i < groups@.len() ==> group_fits(#[trigger] groups@[i]),
        decreases root_list@.len() - k,
    {
        let r = root_list[k];
        assert(rs[k as int] == r as int);
        let proc = &procs[r];
        assert(p[r as int] == proc@);
        let mut children: Vec<ProcessInfo> = Vec::new();
        assert(info_views(children@) =~= Seq::<InfoView>::empty());
        collect_children(procs, &above_v, by_name, r, procs.len(), &mut children);
        let ghost ms = members(p, by_name, r as int);
        let ghost kids = infos_at(p, ms);
        assert(info_views(children@) =~= kids);
        proof {
            lemma_group_within_snapshot(p, by_name, r as int, Usage::Cpu);
            lemma_group_within_snapshot(p, by_name, r as int, Usage::Memory);
            lemma_group_within_snapshot(p, by_name, r as int, Usage::DiskRead);
            lemma_group_within_snapshot(p, by_name, r as int, Usage::DiskWrite);
            assert(usage_nonneg(kids)) by {
                assert forall|j: int| 0 <= j < kids.len() implies (#[trigger] kids[j]).cpu_usage >= 0
                    && kids[j].memory >= 0 && kids[j].disk_read >= 0 && kids[j].disk_write >= 0 by {
                    assert(kids[j] == info_of(p[ms[j]]));
                    assert(kids[j] == children@[j]@);
                }
            }
        }
        let mut cpu = proc.cpu_usage;
        let mut memory = proc.memory;
        let mut disk_read = proc.disk_read;
        let mut disk_write = proc.disk_write;
        let mut j: usize = 0;
        while j < children.len()
            invariant
                info_views(children@) == kids,
                usage_nonneg(kids),
                j <= kids.len(),
                cpu == p[r as int].cpu_usage + usage_sum(kids.take(j as int), Usage::Cpu),
                memory == p[r as int].memory + usage_sum(kids.take(j as int), Usage::Memory),
                disk_read == p[r as int].disk_read + usage_sum(kids.take(j as int), Usage::DiskRead),
                disk_write == p[r as int].disk_write + usage_sum(kids.take(j as int), Usage::DiskWrite),
                p[r as int].cpu_usage + usage_sum(kids, Usage::Cpu) <= u64::MAX,
                p[r as int].memory + usage_sum(kids, Usage::Memory) <= u64::MAX,
                p[r as int].disk_read + usage_sum(kids, Usage::DiskRead) + p[r as int].disk_write + usage_sum(
                    kids,
                    Usage::DiskWrite,
                ) <= u64::MAX,
                p[r as int].disk_read >= 0,
                p[r as int].disk_write >= 0,
            decreases kids.len() - j,
        {
            proof {
                assert(kids[j as int] == children@[j as int]@);
                lemma_usage_prefix(kids, j as int + 1, Usage::Cpu);
                lemma_usage_prefix(kids, j as int + 1, Usage::Memory);
                lemma_usage_prefix(kids, j as int + 1, Usage::DiskRead);
                lemma_usage_prefix(kids, j as int + 1, Usage::DiskWrite);
                lemma_usage_prefix(kids, j as int, Usage::DiskRead);
                lemma_usage_prefix(kids, j as int, Usage::DiskWrite);
                lemma_usage_prefix(kids, j as int, Usage::Cpu);
                lemma_usage_prefix(kids, j as int, Usage::Memory);
            }
            cpu = cpu + children[j].cpu_usage;
            memory = memory + children[j].memory;
            disk_read = disk_read + children[j].disk_read;
            disk_write = disk_write + children[j].disk_write;
            j = j + 1;
        }
        assert(kids.take(kids.len() as int) =~= kids);
        let group = ProcessGroup {
            pid: proc.pid,
            name: proc.name.clone(),
            cpu_usage: cpu,
            memory: memory,
            disk_read: disk_read,
            disk_write: disk_write,
            children: children,
            expanded: expanded.contains(&proc.pid),
        };
        proof {
            assert(group@ == group_of(p, by_name, expanded@, r as int));
            assert forall|c: int| 0 <= c < group.children@.len() implies (#[trigger] group.children@[c]).rank_fits() by {
                assert(group.children@[c]@ == kids[c]);
                assert(kids[c] == info_of(p[ms[c]]));
            }
        }
        let ghost before = groups@;
        groups.push(group);
        proof {
            assert(rs.take(k + 1).drop_last() =~= rs.take(k as int));
            assert(group_views(groups@) =~= group_views(before).push(group@));
            assert(group_views(groups@) =~= rs.take(k + 1).map_values(|r: int| group_of(p, by_name, expanded@, r)));
            assert forall|i: int| 0 <= i < groups@.len() implies group_fits(#[trigger] groups@[i]) by {
                if i < before.len() {
                    assert(groups@[i] == before[i]);
                }
            }
        }
        k = k + 1;
    }
    assert(rs.take(rs.len() as int) =~= rs);
    groups
}

/// The roots are processes that are shown under nothing.
proof fn lemma_roots_facts(p: Seq<SnapView>, by_name: bool, n: int)
    requires
        n <= p.len(),
    ensures
        forall|j: int| 0 <= j < roots(p, by_name, n).len() ==> 0 <= #[trigger] roots(p, by_name, n)[j] < n
            && above(p, by_name, roots(p, by_name, n)[j]) is None,
    decreases n,
{
    if n > 0 {
        lemma_roots_facts(p, by_name, n - 1);
    }
}

/// Whether no two processes of a list share a pid.
fn pids_distinct(procs: &Vec<ProcessSnapshot>) -> (b: bool)
    ensures
        b == distinct_pids(snaps(procs@)),
{
    let ghost p = snaps(procs@);
    let n = procs.len();
    let mut j: usize = 0;
    while j < n
        invariant
            p == snaps(procs@),
            n == p.len(),
            j <= n,
            forall|a: int, b: int| 0 <= a < b < j ==> p[a].pid != p[b].pid,
        decreases n - j,
    {
        let mut i: usize = 0;
        while i < j
            invariant
                p == snaps(procs@),
                n == p.len(),
                i <= j,
                j < n,
                forall|a: int| 0 <= a < i ==> p[a].pid != p[j as int].pid,
            decreases j - i,
        {
            if procs[i].pid == procs[j].pid {
                assert(p[i as int].pid == p[j as int].pid);
                return false;
            }
            i = i + 1;
        }
        j = j + 1;
    }
    true
}

/// Whether the grouping accepts a snapshot (see `snapshot_fits`).
pub fn snapshot_accepted(snapshot: &SystemSnapshot) -> (b: bool)
    ensures
        b == snapshot_fits(snapshot.procs()),
{
    let procs = &snapshot.processes;
    let ghost p = snaps(procs@);
    let ghost all = p.map_values(|v: SnapView| info_of(v));
    assert(p == snapshot.procs());
    proof {
        lemma_snapshot_nonneg(procs@);
    }
    if !pids_distinct(procs) {
        return false;
    }
    let max: u128 = 0xffff_ffff_ffff_ffff;
    let mut cpu: u128 = 0;
    let mut memory: u128 = 0;
    let mut read: u128 = 0;
    let mut write: u128 = 0;
    let n = procs.len();
    let mut i: usize = 0;
    assert(all.take(0) =~= Seq::<InfoView>::empty());
    while i < n
        invariant
            p == snaps(procs@),
            p == snapshot.procs(),
            all == p.map_values(|v: SnapView| info_of(v)),
            usage_nonneg(all),
            n == p.len(),
            i <= n,
            max == u64::MAX,
            cpu == usage_sum(all.take(i as int), Usage::Cpu),
            memory == usage_sum(all.take(i as int), Usage::Memory),
            read == usage_sum(all.take(i as int), Usage::DiskRead),
            write == usage_sum(all.take(i as int), Usage::DiskWrite),
            cpu <= max,
            memory <= max,
            read + write <= max,
        decreases n - i,
    {
        let proc = &procs[i];
        proof {
            assert(all[i as int] == info_of(proc@));
            lemma_usage_prefix(all, i as int, Usage::Cpu);
            lemma_usage_prefix(all, i as int, Usage::Memory);
            lemma_usage_prefix(all, i as int, Usage::DiskRead);
            lemma_usage_prefix(all, i as int, Usage::DiskWrite);
            lemma_usage_prefix(all, i + 1, Usage::Cpu);
            lemma_usage_prefix(all, i + 1, Usage::Memory);
            lemma_usage_prefix(all, i + 1, Usage::DiskRead);
            lemma_usage_prefix(all, i + 1, Usage::DiskWrite);
        }
        cpu = cpu + proc.cpu_usage as u128;
        memory = memory + proc.memory as u128;
        read = read + proc.disk_read as u128;
        write = write + proc.disk_write as u128;
        i = i + 1;
        if cpu > max || memory > max || read + write > max {
            assert(usage_sum(all.take(i as int), Usage::Cpu) <= usage_sum(all, Usage::Cpu));
            assert(usage_sum(all.take(i as int), Usage::Memory) <= usage_sum(all, Usage::Memory));
            assert(usage_sum(all.take(i as int), Usage::DiskRead) <= usage_sum(all, Usage::DiskRead));
            assert(usage_sum(all.take(i as int), Usage::DiskWrite) <= usage_sum(all, Usage::DiskWrite));
            return false;
        }
    }
    assert(all.take(n as int) =~= all);
    true
}

} // verus!
