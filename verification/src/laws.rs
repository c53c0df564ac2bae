//! Properties of the monitor that hold across operations.
use vstd::prelude::*;
use crate::domain::{GroupView, InfoView, RowView, SnapView, SortMode};
use crate::grouping::{
    above, app_named, below, distinct_pids, info_of, is_app, members, owner, reported_owner, roots, unsorted_groups, usage_sum,
    Usage,
};
use crate::order::{group_arranged, group_ranks, info_ranks, infos_arranged, law_groups_arranged_unique, ranks_before, stable_order};
use crate::text::chars_lt;
use crate::hierarchy::{
    goes_up_to, in_group, is_root, lemma_below_facts, lemma_in_group_iff_reaches, lemma_one_root, lemma_roots_exact,
    lemma_subtrees_facts, lemma_top_is_root, reaches_top, up,
};
use crate::rows::{child_row, group_row, group_rows, passes, passing, visible_rows};
use crate::state::{moved_down, moved_up, resorted, toggled_current, App};
use crate::events::{normal_key_effect, search_key_effect, Key};
use crate::text::{ascii_lowered, has_prefix, has_substring, is_ascii_text, lemma_ascii_lowered_concat, lowercase, occurs_at};
use crate::platform::parent_app_rule;
use crate::format::rounded_tenths;
use vstd::arithmetic::div_mod::{lemma_fundamental_div_mod, lemma_mod_pos_bound};
use crate::hierarchy::lemma_distinct_bounded;

verus! {

/// Asking twice in a row to sort by the same mode sorts by that mode, in
/// the direction opposite to the one the first request left.
pub proof fn law_same_sort_key_twice_reverses(a0: App, a1: App, a2: App, mode: SortMode)
    requires
        resorted(&a0, &a1, mode),
        resorted(&a1, &a2, mode),
    ensures
        a1.sort_mode == mode,
        a2.sort_mode == mode,
        a2.sort_ascending == !a1.sort_ascending,
        a0.sort_mode == mode ==> a2.sort_ascending == a0.sort_ascending,
{
}

/// Asking to sort by a mode other than the current one sorts by it in
/// descending order.
pub proof fn law_new_sort_key_descends(a0: App, a1: App, mode: SortMode)
    requires
        resorted(&a0, &a1, mode),
        a0.sort_mode != mode,
    ensures
        a1.sort_mode == mode,
        !a1.sort_ascending,
{
}

/// Expanding and then collapsing the same group (or the reverse) gives back
/// the expanded set, and so the same groups, that there were before.
pub proof fn law_toggle_twice_restores(a0: App, a1: App, a2: App)
    requires
        toggled_current(&a0, &a1),
        toggled_current(&a1, &a2),
        a0.table_state@ matches Some(s) && s < a0.rows_view().len() && a0.rows_view()[s as int].is_group
            && a0.rows_view()[s as int].has_children,
        a1.table_state@ matches Some(s) && s < a1.rows_view().len() && a1.rows_view()[s as int].is_group
            && a1.rows_view()[s as int].has_children && a1.rows_view()[s as int].pid == a0.rows_view()[s
            as int].pid,
    ensures
        a2.expanded_pids@ == a0.expanded_pids@,
        a2.grouped() == a0.grouped(),
        a2.groups_current(),
        a2.system == a0.system,
        a2.sort_mode == a0.sort_mode,
        a2.sort_ascending == a0.sort_ascending,
{
    let s = a0.table_state@.unwrap();
    let pid = a0.rows_view()[s as int].pid;
    let e = a0.expanded_pids@;
    if e.contains(pid) {
        assert(e.remove(pid).insert(pid) =~= e);
    } else {
        assert(e.insert(pid).remove(pid) =~= e);
    }
}

/// Moving down from a row of the table selects the next row, or stays on
/// the last; moving up selects the previous row, or stays on the first.
/// Either way the selection stays within the table.
pub proof fn law_navigation_stays_in_table(a0: App, down: App, up: App, i: usize)
    requires
        moved_down(&a0, &down),
        moved_up(&a0, &up),
        a0.table_state@ == Some(i),
        i < a0.rows_view().len(),
    ensures
        down.table_state@ == Some(if i + 1 < a0.rows_view().len() { (i + 1) as usize } else { i }),
        up.table_state@ == Some(if i > 0 { (i - 1) as usize } else { 0usize }),
        down.rows_view() == a0.rows_view(),
        up.rows_view() == a0.rows_view(),
{
}

/// The rows of one group with no filter: its row, then all its processes
/// when it is expanded.
pub open spec fn unfiltered_group_rows(g: GroupView) -> Seq<RowView> {
    seq![group_row(g)] + if g.expanded {
        g.children.map_values(|c: InfoView| child_row(c))
    } else {
        Seq::empty()
    }
}

/// The processes of the expanded groups, counted.
pub open spec fn expanded_children(gs: Seq<GroupView>) -> int
    decreases gs.len(),
{
    if gs.len() == 0 {
        0
    } else {
        expanded_children(gs.drop_last()) + if gs.last().expanded {
            gs.last().children.len() as int
        } else {
            0
        }
    }
}

/// With an empty filter every process passes.
pub proof fn lemma_empty_filter_passes_all(cs: Seq<InfoView>, filter: Seq<char>)
    requires
        filter.len() == 0,
    ensures
        passing(cs, filter) == cs,
    decreases cs.len(),
{
    if cs.len() > 0 {
        lemma_empty_filter_passes_all(cs.drop_last(), filter);
        assert(cs.drop_last().push(cs.last()) =~= cs);
    }
}

/// With an empty filter, every group has a row, followed by all of its
/// processes when it is expanded; so there are as many rows as groups plus
/// the processes of the expanded groups.
pub proof fn law_empty_filter_shows_everything(gs: Seq<GroupView>, filter: Seq<char>)
    requires
        filter.len() == 0,
    ensures
        forall|k: int| 0 <= k < gs.len() ==> group_rows(#[trigger] gs[k], filter) == unfiltered_group_rows(gs[k]),
        visible_rows(gs, filter).len() == gs.len() + expanded_children(gs),
    decreases gs.len(),
{
    assert forall|k: int| 0 <= k < gs.len() implies group_rows(#[trigger] gs[k], filter) == unfiltered_group_rows(gs[k]) by {
        lemma_empty_filter_passes_all(gs[k].children, filter);
        assert(passes(gs[k].name, filter));
    }
    if gs.len() > 0 {
        law_empty_filter_shows_everything(gs.drop_last(), filter);
        assert(gs[gs.len() - 1] == gs.last());
    }
}

/// The filter ignores case: two filters with the same lowercase form (and
/// both empty or both not) show the same rows.
pub proof fn law_filter_ignores_case(gs: Seq<GroupView>, f1: Seq<char>, f2: Seq<char>)
    requires
        lowercase(f1) == lowercase(f2),
        (f1.len() == 0) == (f2.len() == 0),
    ensures
        visible_rows(gs, f1) == visible_rows(gs, f2),
    decreases gs.len(),
{
    if gs.len() > 0 {
        law_filter_ignores_case(gs.drop_last(), f1, f2);
        lemma_passing_same(gs.last().children, f1, f2);
    }
}

proof fn lemma_passing_same(cs: Seq<InfoView>, f1: Seq<char>, f2: Seq<char>)
    requires
        lowercase(f1) == lowercase(f2),
        (f1.len() == 0) == (f2.len() == 0),
    ensures
        passing(cs, f1) == passing(cs, f2),
    decreases cs.len(),
{
    if cs.len() > 0 {
        lemma_passing_same(cs.drop_last(), f1, f2);
    }
}

/// A group is shown when one of its processes passes the filter, even if
/// the group's own name does not.
pub proof fn law_matching_process_shows_group(gs: Seq<GroupView>, filter: Seq<char>, k: int, j: int)
    requires
        0 <= k < gs.len(),
        0 <= j < gs[k].children.len(),
        passes(gs[k].children[j].name, filter),
    ensures
        visible_rows(gs, filter).contains(group_row(gs[k])),
    decreases gs.len(),
{
    lemma_passing_nonempty(gs[k].children, filter, j);
    if k == gs.len() - 1 {
        let rows = visible_rows(gs, filter);
        let before = visible_rows(gs.drop_last(), filter);
        assert(rows[before.len() as int] == group_row(gs[k]));
    } else {
        law_matching_process_shows_group(gs.drop_last(), filter, k, j);
        assert(gs.drop_last()[k] == gs[k]);
        let before = visible_rows(gs.drop_last(), filter);
        let i = choose|i: int| 0 <= i < before.len() && before[i] == group_row(gs[k]);
        assert(visible_rows(gs, filter)[i] == group_row(gs[k]));
    }
}

proof fn lemma_passing_nonempty(cs: Seq<InfoView>, filter: Seq<char>, j: int)
    requires
        0 <= j < cs.len(),
        passes(cs[j].name, filter),
    ensures
        passing(cs, filter).len() > 0,
    decreases cs.len(),
{
    if j < cs.len() - 1 {
        lemma_passing_nonempty(cs.drop_last(), filter, j);
    }
}

/// The groups divide the processes: the roots listed are exactly the
/// processes shown under nothing; a process is in the group of a root
/// exactly when going up from it (through owners and parents) reaches that
/// root; so a process is in at most one group, and in one exactly when
/// going up from it ends, which fails only for processes on a loop of
/// owners.
pub proof fn law_each_process_in_one_group(p: Seq<SnapView>, by_name: bool, i: int)
    requires
        0 <= i < p.len(),
    ensures
        forall|r: int| #[trigger] roots(p, by_name, p.len() as int).contains(r) <==> is_root(p, by_name, r),
        forall|r: int| is_root(p, by_name, r) ==> (#[trigger] in_group(p, by_name, r, i) <==> goes_up_to(p, by_name, i, r)),
        forall|r1: int, r2: int|
            is_root(p, by_name, r1) && is_root(p, by_name, r2) && #[trigger] in_group(p, by_name, r1, i)
                && #[trigger] in_group(p, by_name, r2, i) ==> r1 == r2,
        reaches_top(p, by_name, i) <==> exists|r: int| is_root(p, by_name, r) && #[trigger] in_group(p, by_name, r, i),
{
    assert forall|r: int| #[trigger] roots(p, by_name, p.len() as int).contains(r) <==> is_root(p, by_name, r) by {
        lemma_roots_exact(p, by_name, p.len() as int, r);
    }
    assert forall|r: int| is_root(p, by_name, r) implies (#[trigger] in_group(p, by_name, r, i) <==> goes_up_to(p, by_name, i, r)) by {
        lemma_in_group_iff_reaches(p, by_name, r, i);
    }
    assert forall|r1: int, r2: int|
        is_root(p, by_name, r1) && is_root(p, by_name, r2) && #[trigger] in_group(p, by_name, r1, i)
            && #[trigger] in_group(p, by_name, r2, i) implies r1 == r2 by {
        lemma_in_group_iff_reaches(p, by_name, r1, i);
        lemma_in_group_iff_reaches(p, by_name, r2, i);
        lemma_one_root(p, by_name, i, r1, r2);
    }
    lemma_top_is_root(p, by_name, i);
    if reaches_top(p, by_name, i) {
        let r = choose|r: int| is_root(p, by_name, r) && #[trigger] goes_up_to(p, by_name, i, r);
        lemma_in_group_iff_reaches(p, by_name, r, i);
        assert(in_group(p, by_name, r, i));
    }
    if exists|r: int| is_root(p, by_name, r) && #[trigger] in_group(p, by_name, r, i) {
        let r = choose|r: int| is_root(p, by_name, r) && #[trigger] in_group(p, by_name, r, i);
        lemma_in_group_iff_reaches(p, by_name, r, i);
        assert(goes_up_to(p, by_name, i, r));
    }
}

/// Each group is headed by a process that is shown under nothing, and adds
/// up its head and the processes listed under it: its name and pid are the
/// head's, its CPU usage, memory, disk reads and disk writes are the head's
/// own plus those of the listed processes, and it is expanded when the
/// head's pid is among the expanded ones. The processes listed under it are
/// those, other than the head, from which going up reaches the head.
pub proof fn law_groups_add_up(p: Seq<SnapView>, by_name: bool, expanded: Set<u32>, k: int)
    requires
        0 <= k < unsorted_groups(p, by_name, expanded).len(),
    ensures
        ({
            let g = unsorted_groups(p, by_name, expanded)[k];
            let r = roots(p, by_name, p.len() as int)[k];
            &&& is_root(p, by_name, r)
            &&& g.pid == p[r].pid
            &&& g.name == p[r].name
            &&& g.expanded == expanded.contains(p[r].pid)
            &&& g.cpu_usage == p[r].cpu_usage + usage_sum(g.children, Usage::Cpu)
            &&& g.memory == p[r].memory + usage_sum(g.children, Usage::Memory)
            &&& g.disk_read == p[r].disk_read + usage_sum(g.children, Usage::DiskRead)
            &&& g.disk_write == p[r].disk_write + usage_sum(g.children, Usage::DiskWrite)
            &&& forall|j: int| 0 <= j < g.children.len() ==> exists|i: int|
                0 <= i < p.len() && i != r && goes_up_to(p, by_name, i, r) && #[trigger] g.children[j] == info_of(p[i])
            &&& forall|i: int| 0 <= i < p.len() && i != r && #[trigger] goes_up_to(p, by_name, i, r) ==> exists|j: int|
                0 <= j < g.children.len() && g.children[j] == info_of(p[i])
        }),
{
    let n = p.len() as int;
    let rs = roots(p, by_name, n);
    let r = rs[k];
    lemma_roots_exact(p, by_name, n, r);
    assert(rs.contains(r));
    assert(is_root(p, by_name, r));
    let ms = members(p, by_name, r);
    let g = unsorted_groups(p, by_name, expanded)[k];
    assert(g.children == ms.map_values(|m: int| info_of(p[m])));
    let kids = below(p, by_name, r, n);
    assert(up(p, by_name, r, 1) is None);
    assert(reaches_top(p, by_name, r));
    lemma_below_facts(p, by_name, r, n);
    assert forall|a: int, b: int| 0 <= a < kids.len() && 0 <= b < kids.len() && a != b implies kids[a] != kids[b] by {
        if a < b {
            assert(kids[a] < kids[b]);
        } else {
            assert(kids[b] < kids[a]);
        }
    }
    lemma_subtrees_facts(p, by_name, r, kids, p.len());
    assert forall|j: int| 0 <= j < g.children.len() implies exists|i: int|
        0 <= i < p.len() && i != r && goes_up_to(p, by_name, i, r) && #[trigger] g.children[j] == info_of(p[i]) by {
        let i = ms[j];
        assert(ms.contains(i));
        assert(in_group(p, by_name, r, i));
        lemma_in_group_iff_reaches(p, by_name, r, i);
        assert(g.children[j] == info_of(p[i]));
    }
    assert forall|i: int| 0 <= i < p.len() && i != r && #[trigger] goes_up_to(p, by_name, i, r) implies exists|j: int|
        0 <= j < g.children.len() && g.children[j] == info_of(p[i]) by {
        lemma_in_group_iff_reaches(p, by_name, r, i);
        assert(ms.contains(i));
        let j = choose|j: int| 0 <= j < ms.len() && ms[j] == i;
        assert(g.children[j] == info_of(p[i]));
    }
}

/// Two monitors over the same snapshot, with the same groups expanded and
/// the same sort, show the same groups in the same order.
pub proof fn law_groups_determined(a1: App, a2: App)
    requires
        a1.groups_current(),
        a2.groups_current(),
        a1.system == a2.system,
        a1.expanded_pids@ == a2.expanded_pids@,
        a1.sort_mode == a2.sort_mode,
        a1.sort_ascending == a2.sort_ascending,
    ensures
        a1.groups_view() == a2.groups_view(),
{
    law_groups_arranged_unique(a1.groups_view(), a2.groups_view(), a1.grouped(), a1.sort_mode, a1.sort_ascending);
}

/// The groups are in the order of the sort: no group comes after one whose
/// key it should precede.
pub proof fn law_groups_in_key_order(a: App, i: int, j: int)
    requires
        a.groups_current(),
        0 <= i < j < a.groups@.len(),
    ensures
        !ranks_before(a.groups_view()[j].rank(a.sort_mode), a.groups_view()[i].rank(a.sort_mode), a.sort_ascending),
{
    let inp = a.grouped();
    let out = a.groups_view();
    let perm = choose|perm: Seq<int>|
        #![trigger stable_order(group_ranks(inp, a.sort_mode), perm, a.sort_ascending)]
        stable_order(group_ranks(inp, a.sort_mode), perm, a.sort_ascending) && out.len() == perm.len() && forall|k: int|
            0 <= k < out.len() ==> group_arranged(out[k], inp[perm[k]], a.sort_mode, a.sort_ascending);
    assert(group_arranged(out[i], inp[perm[i]], a.sort_mode, a.sort_ascending));
    assert(group_arranged(out[j], inp[perm[j]], a.sort_mode, a.sort_ascending));
    assert(!ranks_before(group_ranks(inp, a.sort_mode)[perm[j]], group_ranks(inp, a.sort_mode)[perm[i]], a.sort_ascending));
}

/// `idx` picks the entries of `x` out of `y`, in order: `x[i]` is
/// `y[idx[i]]`, and the positions increase.
pub open spec fn picks<A>(x: Seq<A>, y: Seq<A>, idx: Seq<int>) -> bool {
    &&& idx.len() == x.len()
    &&& forall|i: int| 0 <= i < idx.len() ==> 0 <= #[trigger] idx[i] < y.len() && x[i] == y[idx[i]]
    &&& forall|i: int, j: int| 0 <= i < j < idx.len() ==> idx[i] < idx[j]
}

/// `x` is `y` with some entries left out.
pub open spec fn subsequence_of<A>(x: Seq<A>, y: Seq<A>) -> bool {
    exists|idx: Seq<int>| #[trigger] picks(x, y, idx)
}

/// Picks from two sequences, side by side, pick from their joining.
proof fn lemma_picks_concat<A>(x1: Seq<A>, y1: Seq<A>, i1: Seq<int>, x2: Seq<A>, y2: Seq<A>, i2: Seq<int>) -> (idx: Seq<int>)
    requires
        picks(x1, y1, i1),
        picks(x2, y2, i2),
    ensures
        picks(x1 + x2, y1 + y2, idx),
{
    let idx = i1 + i2.map_values(|k: int| k + y1.len());
    assert forall|i: int| 0 <= i < idx.len() implies 0 <= #[trigger] idx[i] < (y1 + y2).len() && (x1 + x2)[i] == (y1
        + y2)[idx[i]] by {
        if i >= i1.len() {
            assert(idx[i] == i2[i - i1.len()] + y1.len());
        }
    }
    assert forall|i: int, j: int| 0 <= i < j < idx.len() implies idx[i] < idx[j] by {
        if i >= i1.len() {
            assert(idx[i] == i2[i - i1.len()] + y1.len());
        }
        if j >= i1.len() {
            assert(idx[j] == i2[j - i1.len()] + y1.len());
        }
    }
    idx
}

/// Applying the same function to both sides keeps a pick.
proof fn lemma_picks_map<A, B>(x: Seq<A>, y: Seq<A>, idx: Seq<int>, f: spec_fn(A) -> B)
    requires
        picks(x, y, idx),
    ensures
        picks(x.map_values(f), y.map_values(f), idx),
{
}

/// A name that passes the longer filter passes the shorter one.
pub open spec fn filter_narrows(fa: Seq<char>, fb: Seq<char>) -> bool {
    forall|name: Seq<char>| #[trigger] passes(name, fb) ==> passes(name, fa)
}

/// The processes that pass a narrower filter are picked from those that
/// pass the wider one.
proof fn lemma_passing_picks(cs: Seq<InfoView>, fa: Seq<char>, fb: Seq<char>) -> (idx: Seq<int>)
    requires
        filter_narrows(fa, fb),
    ensures
        picks(passing(cs, fb), passing(cs, fa), idx),
    decreases cs.len(),
{
    if cs.len() == 0 {
        Seq::empty()
    } else {
        let prev = lemma_passing_picks(cs.drop_last(), fa, fb);
        let pa = passing(cs.drop_last(), fa);
        if passes(cs.last().name, fb) {
            assert(passes(cs.last().name, fa));
            let idx = prev.push(pa.len() as int);
            assert forall|i: int| 0 <= i < idx.len() implies 0 <= #[trigger] idx[i] < passing(cs, fa).len()
                && passing(cs, fb)[i] == passing(cs, fa)[idx[i]] by {
                if i < prev.len() {
                    assert(idx[i] == prev[i]);
                }
            }
            idx
        } else {
            if passes(cs.last().name, fa) {
                assert forall|i: int| 0 <= i < prev.len() implies 0 <= #[trigger] prev[i] < passing(cs, fa).len()
                    && passing(cs, fb)[i] == passing(cs, fa)[prev[i]] by {
                    assert(passing(cs, fa)[prev[i]] == pa[prev[i]]);
                }
            }
            prev
        }
    }
}

/// A group's rows under a narrower filter are picked from its rows under
/// the wider one.
proof fn lemma_group_rows_picks(g: GroupView, fa: Seq<char>, fb: Seq<char>) -> (idx: Seq<int>)
    requires
        filter_narrows(fa, fb),
    ensures
        picks(group_rows(g, fb), group_rows(g, fa), idx),
{
    let rb = group_rows(g, fb);
    let ra = group_rows(g, fa);
    if rb.len() == 0 {
        Seq::empty()
    } else {
        let ip = lemma_passing_picks(g.children, fa, fb);
        let sb = passing(g.children, fb);
        let sa = passing(g.children, fa);
        if !passes(g.name, fb) {
            assert(sb.len() > 0);
            assert(0 <= ip[0] < sa.len());
        }
        assert(ra[0] == group_row(g));
        assert(rb[0] == group_row(g));
        if g.expanded {
            lemma_picks_map(sb, sa, ip, |c: InfoView| child_row(c));
            let idx = lemma_picks_concat(
                seq![group_row(g)],
                seq![group_row(g)],
                seq![0int],
                sb.map_values(|c: InfoView| child_row(c)),
                sa.map_values(|c: InfoView| child_row(c)),
                ip,
            );
            idx
        } else {
            assert(rb =~= seq![group_row(g)]);
            assert(ra =~= seq![group_row(g)]);
            seq![0int]
        }
    }
}

/// The rows under a narrower filter are picked from the rows under the
/// wider one.
proof fn lemma_rows_picks(gs: Seq<GroupView>, fa: Seq<char>, fb: Seq<char>) -> (idx: Seq<int>)
    requires
        filter_narrows(fa, fb),
    ensures
        picks(visible_rows(gs, fb), visible_rows(gs, fa), idx),
    decreases gs.len(),
{
    if gs.len() == 0 {
        Seq::empty()
    } else {
        let i1 = lemma_rows_picks(gs.drop_last(), fa, fb);
        let i2 = lemma_group_rows_picks(gs.last(), fa, fb);
        lemma_picks_concat(
            visible_rows(gs.drop_last(), fb),
            visible_rows(gs.drop_last(), fa),
            i1,
            group_rows(gs.last(), fb),
            group_rows(gs.last(), fa),
            i2,
        )
    }
}

/// A pick is no longer than what it is picked from.
proof fn lemma_picks_len<A>(x: Seq<A>, y: Seq<A>, idx: Seq<int>)
    requires
        picks(x, y, idx),
    ensures
        x.len() <= y.len(),
{
    assert forall|a: int, b: int| 0 <= a < idx.len() && 0 <= b < idx.len() && a != b implies idx[a] != idx[b] by {
        if a < b {
            assert(idx[a] < idx[b]);
        } else {
            assert(idx[b] < idx[a]);
        }
    }
    lemma_distinct_bounded(idx, y.len() as int);
}

/// Typing more of a filter only hides rows: when the filter text grows
/// from `f` to `f + s` (and, for a non-empty `f`, the lowercase form of
/// `f + s` begins with that of `f`, as it does for ASCII text; see
/// `law_ascii_lowercase_extends`), the new rows are the old rows with some
/// left out, in the same order, so there are no more of them.
pub proof fn law_longer_filter_shows_fewer(a: App, b: App, s: Seq<char>)
    requires
        b.groups == a.groups,
        b.filter_text@ == a.filter_text@ + s,
        a.filter_text@.len() > 0 ==> has_prefix(lowercase(b.filter_text@), lowercase(a.filter_text@)),
    ensures
        subsequence_of(b.rows_view(), a.rows_view()),
        b.rows_view().len() <= a.rows_view().len(),
{
    let fa = a.filter_text@;
    let fb = b.filter_text@;
    assert forall|name: Seq<char>| #[trigger] passes(name, fb) implies passes(name, fa) by {
        if fa.len() > 0 {
            assert(fb.len() > 0);
            let l = lowercase(name);
            let la = lowercase(fa);
            let lb = lowercase(fb);
            let at = choose|at: int| occurs_at(l, lb, at);
            assert(l.subrange(at, at + la.len()) =~= lb.subrange(0, la.len() as int));
            assert(occurs_at(l, la, at));
        }
    }
    let idx = lemma_rows_picks(a.groups_view(), fa, fb);
    assert(b.groups_view() == a.groups_view());
    lemma_picks_len(b.rows_view(), a.rows_view(), idx);
}

/// For ASCII text, the character-by-character lowercase form of `f + s`
/// begins with that of `f`; this is what `str::to_lowercase` gives such
/// text (see `lowercase_chars`).
pub proof fn law_ascii_lowercase_extends(f: Seq<char>, s: Seq<char>)
    requires
        is_ascii_text(f),
        is_ascii_text(s),
    ensures
        is_ascii_text(f + s),
        has_prefix(ascii_lowered(f + s), ascii_lowered(f)),
{
    lemma_ascii_lowered_concat(f, s);
    assert((ascii_lowered(f) + ascii_lowered(s)).subrange(0, ascii_lowered(f).len() as int) =~= ascii_lowered(f));
}

/// Up and k move the selection one row up, within the table, and do not
/// quit; nothing but the selection changes.
pub proof fn law_up_keys_move_up(old: App, new: App, key: Key, quit: bool, i: usize)
    requires
        key == Key::Up || key == Key::Char('k'),
        normal_key_effect(&old, &new, key, quit),
        old.table_state@ == Some(i),
        i < old.rows_view().len(),
    ensures
        !quit,
        i > 0 ==> new.table_state@ == Some((i - 1) as usize),
        i == 0 ==> new.table_state@ == Some(0usize),
        new.groups == old.groups,
        new.filter_text == old.filter_text,
        new.expanded_pids == old.expanded_pids,
        new.sort_mode == old.sort_mode,
        new.sort_ascending == old.sort_ascending,
        new.search_active == old.search_active,
{
}

/// Down and j move the selection one row down, within the table, and do
/// not quit; nothing but the selection changes.
pub proof fn law_down_keys_move_down(old: App, new: App, key: Key, quit: bool, i: usize)
    requires
        key == Key::Down || key == Key::Char('j'),
        normal_key_effect(&old, &new, key, quit),
        old.table_state@ == Some(i),
        i < old.rows_view().len(),
    ensures
        !quit,
        i + 1 < old.rows_view().len() ==> new.table_state@ == Some((i + 1) as usize),
        i + 1 == old.rows_view().len() ==> new.table_state@ == Some(i),
        new.groups == old.groups,
        new.filter_text == old.filter_text,
        new.expanded_pids == old.expanded_pids,
        new.sort_mode == old.sort_mode,
        new.sort_ascending == old.sort_ascending,
        new.search_active == old.search_active,
{
}

/// The other keys of the table, when no search is being typed: q quits and
/// changes nothing; Esc clears a filter and selects the first row, or quits
/// when there is no filter; c, m, d and n sort by CPU, memory, disk traffic
/// and name, reversing the direction when asked again for the column
/// already sorted by and starting descending otherwise; s starts a search
/// and keeps the filter; any other character, Enter and Backspace change
/// nothing.
pub proof fn law_table_keys(old: App, new: App, key: Key, quit: bool)
    requires
        normal_key_effect(&old, &new, key, quit),
    ensures
        key == Key::Char('q') ==> quit && new == old,
        key == Key::Esc ==> (quit <==> old.filter_text@.len() == 0),
        key == Key::Esc && quit ==> new == old,
        key == Key::Esc && !quit ==> new.filter_text@.len() == 0 && new.table_state@ == Some(0usize)
            && new.groups == old.groups && new.search_active == old.search_active,
        key == Key::Char('c') ==> !quit && new.sort_mode == SortMode::Cpu
            && new.sort_ascending == (old.sort_mode == SortMode::Cpu && !old.sort_ascending),
        key == Key::Char('m') ==> !quit && new.sort_mode == SortMode::Memory
            && new.sort_ascending == (old.sort_mode == SortMode::Memory && !old.sort_ascending),
        key == Key::Char('d') ==> !quit && new.sort_mode == SortMode::DiskIo
            && new.sort_ascending == (old.sort_mode == SortMode::DiskIo && !old.sort_ascending),
        key == Key::Char('n') ==> !quit && new.sort_mode == SortMode::Name
            && new.sort_ascending == (old.sort_mode == SortMode::Name && !old.sort_ascending),
        key == Key::Char('c') || key == Key::Char('m') || key == Key::Char('d') || key == Key::Char('n')
            ==> new.filter_text == old.filter_text && new.expanded_pids == old.expanded_pids
            && new.table_state == old.table_state && new.system == old.system,
        key == Key::Char('s') ==> !quit && new.search_active && new.filter_text == old.filter_text
            && new.groups == old.groups && new.table_state == old.table_state,
        (key matches Key::Char(ch) && ch != 'q' && ch != 'j' && ch != 'k' && ch != ' ' && ch != 'x'
            && ch != 'c' && ch != 'm' && ch != 'd' && ch != 'n' && ch != 's') ==> !quit && new == old,
        key == Key::Enter || key == Key::Backspace || key == Key::Other ==> !quit && new == old,
{
}

/// Space and x expand the selected group when it is collapsed and collapse
/// it when it is expanded, leaving every other group as it was; on a row
/// that is a process, or a group with no processes, they do nothing.
/// Neither quits.
pub proof fn law_toggle_keys_flip_selected(old: App, new: App, key: Key, quit: bool, i: usize)
    requires
        key == Key::Char(' ') || key == Key::Char('x'),
        normal_key_effect(&old, &new, key, quit),
        old.table_state@ == Some(i),
        i < old.rows_view().len(),
    ensures
        !quit,
        old.rows_view()[i as int].is_group && old.rows_view()[i as int].has_children ==> {
            let pid = old.rows_view()[i as int].pid;
            &&& new.expanded_pids@.contains(pid) == !old.expanded_pids@.contains(pid)
            &&& forall|q: u32| q != pid ==> new.expanded_pids@.contains(q) == old.expanded_pids@.contains(q)
            &&& new.table_state == old.table_state
            &&& new.sort_mode == old.sort_mode
            &&& new.filter_text == old.filter_text
        },
        !(old.rows_view()[i as int].is_group && old.rows_view()[i as int].has_children) ==> new == old,
{
}

/// While a search is being typed: a character is added to the end of the
/// filter and Backspace removes the filter's last character (if any), each
/// selecting the first row and keeping the search open; Esc clears the
/// filter, ends the search and selects the first row; Enter ends the search
/// keeping the filter and the selection; any other key changes nothing. No
/// key changes the groups, the sort or what is expanded.
pub proof fn law_search_keys(old: App, new: App, key: Key)
    requires
        search_key_effect(&old, &new, key),
    ensures
        key matches Key::Char(ch) ==> new.filter_text@ == old.filter_text@ + seq![ch]
            && new.search_active == old.search_active && new.table_state@ == Some(0usize),
        key == Key::Backspace && old.filter_text@.len() > 0 ==> new.filter_text@ + seq![old.filter_text@.last()]
            == old.filter_text@ && new.table_state@ == Some(0usize),
        key == Key::Backspace && old.filter_text@.len() == 0 ==> new.filter_text@ == old.filter_text@,
        key == Key::Esc ==> new.filter_text@.len() == 0 && !new.search_active && new.table_state@ == Some(0usize),
        key == Key::Enter ==> !new.search_active && new.filter_text == old.filter_text
            && new.table_state == old.table_state,
        key == Key::Up || key == Key::Down || key == Key::Other ==> new == old,
        new.groups == old.groups && new.sort_mode == old.sort_mode && new.sort_ascending == old.sort_ascending
            && new.expanded_pids == old.expanded_pids,
{
    if key == Key::Backspace && old.filter_text@.len() > 0 {
        assert(old.filter_text@.drop_last() + seq![old.filter_text@.last()] =~= old.filter_text@);
    }
    if let Key::Char(ch) = key {
        assert(old.filter_text@.push(ch) =~= old.filter_text@ + seq![ch]);
    }
}

/// Two table rows, with CPU usage, memory, disk traffic and name `x` and
/// `y`, are in the order of the column the table is sorted by: by that
/// column's value (names lowercased and compared character by character),
/// largest first when descending, smallest first when ascending; equal
/// values in either order.
pub open spec fn column_ordered(mode: SortMode, ascending: bool, x: (int, int, int, Seq<char>), y: (int, int, int, Seq<char>)) -> bool {
    match mode {
        SortMode::Cpu => if ascending { x.0 <= y.0 } else { x.0 >= y.0 },
        SortMode::Memory => if ascending { x.1 <= y.1 } else { x.1 >= y.1 },
        SortMode::DiskIo => if ascending { x.2 <= y.2 } else { x.2 >= y.2 },
        SortMode::Name => if ascending {
            !chars_lt(lowercase(y.3), lowercase(x.3))
        } else {
            !chars_lt(lowercase(x.3), lowercase(y.3))
        },
    }
}

/// The columns of a group's row that the table sorts by: CPU usage,
/// memory, bytes read plus written, name.
pub open spec fn group_columns(g: GroupView) -> (int, int, int, Seq<char>) {
    (g.cpu_usage, g.memory, g.disk_read + g.disk_write, g.name)
}

/// The columns of a process's row that the table sorts by.
pub open spec fn info_columns(c: InfoView) -> (int, int, int, Seq<char>) {
    (c.cpu_usage, c.memory, c.disk_read + c.disk_write, c.name)
}

/// Keys that do not come in the wrong order are column values in order.
proof fn lemma_key_order_is_column_order(
    mode: SortMode,
    ascending: bool,
    x: (int, int, int, Seq<char>),
    y: (int, int, int, Seq<char>),
)
    requires
        !ranks_before(
            crate::order::rank_of(mode, y.0, y.1, y.2, y.3),
            crate::order::rank_of(mode, x.0, x.1, x.2, x.3),
            ascending,
        ),
    ensures
        column_ordered(mode, ascending, x, y),
{
}

/// The groups of the table are in the order of the sorted column: for
/// CPU, memory and disk (bytes read plus written), largest first when
/// descending and smallest first when ascending; by lowercased name
/// otherwise.
pub proof fn law_groups_sorted_by_column(a: App, i: int, j: int)
    requires
        a.groups_current(),
        0 <= i < j < a.groups@.len(),
    ensures
        column_ordered(a.sort_mode, a.sort_ascending, group_columns(a.groups_view()[i]), group_columns(a.groups_view()[j])),
{
    law_groups_in_key_order(a, i, j);
    let gi = a.groups_view()[i];
    let gj = a.groups_view()[j];
    lemma_key_order_is_column_order(a.sort_mode, a.sort_ascending, group_columns(gi), group_columns(gj));
}

/// The processes inside each group are in the order of the sorted column
/// too.
pub proof fn law_processes_sorted_by_column(a: App, k: int, i: int, j: int)
    requires
        a.groups_current(),
        0 <= k < a.groups@.len(),
        0 <= i < j < a.groups_view()[k].children.len(),
    ensures
        column_ordered(
            a.sort_mode,
            a.sort_ascending,
            info_columns(a.groups_view()[k].children[i]),
            info_columns(a.groups_view()[k].children[j]),
        ),
{
    let mode = a.sort_mode;
    let asc = a.sort_ascending;
    let inp = a.grouped();
    let out = a.groups_view();
    let perm = choose|perm: Seq<int>|
        #![trigger stable_order(group_ranks(inp, mode), perm, asc)]
        stable_order(group_ranks(inp, mode), perm, asc) && out.len() == perm.len() && forall|m: int|
            0 <= m < out.len() ==> group_arranged(out[m], inp[perm[m]], mode, asc);
    assert(group_arranged(out[k], inp[perm[k]], mode, asc));
    let o = out[k].children;
    let src = inp[perm[k]].children;
    assert(infos_arranged(o, src, mode, asc));
    let cp = choose|cp: Seq<int>|
        #![trigger stable_order(info_ranks(src, mode), cp, asc)]
        stable_order(info_ranks(src, mode), cp, asc) && o.len() == cp.len() && forall|m: int|
            0 <= m < o.len() ==> o[m] == src[cp[m]];
    assert(o[i] == src[cp[i]]);
    assert(o[j] == src[cp[j]]);
    assert(!ranks_before(info_ranks(src, mode)[cp[j]], info_ranks(src, mode)[cp[i]], asc));
    lemma_key_order_is_column_order(mode, asc, info_columns(o[i]), info_columns(o[j]));
}

/// `row` shows group `g`: its pid, name, CPU usage and memory, its bytes
/// read plus written, whether it is expanded, and whether it has any
/// processes.
pub open spec fn shows_group(row: RowView, g: GroupView) -> bool {
    &&& row.is_group
    &&& row.pid == g.pid
    &&& row.name == g.name
    &&& row.cpu_usage == g.cpu_usage
    &&& row.memory == g.memory
    &&& row.disk_io == g.disk_read + g.disk_write
    &&& row.expanded == g.expanded
    &&& row.has_children == (g.children.len() > 0)
}

/// `row` shows process `c` under its group: its pid, name, CPU usage and
/// memory, and its bytes read plus written; a process row is neither
/// expanded nor has processes of its own.
pub open spec fn shows_process(row: RowView, c: InfoView) -> bool {
    &&& !row.is_group
    &&& row.pid == c.pid
    &&& row.name == c.name
    &&& row.cpu_usage == c.cpu_usage
    &&& row.memory == c.memory
    &&& row.disk_io == c.disk_read + c.disk_write
    &&& !row.expanded
    &&& !row.has_children
}

/// The search text `filter` finds the name `name`: it is empty, or the
/// name contains it, case ignored.
pub open spec fn filter_finds(filter: Seq<char>, name: Seq<char>) -> bool {
    filter.len() == 0 || has_substring(lowercase(name), lowercase(filter))
}

/// The search text finds group `g` or one of its processes.
pub open spec fn filter_finds_group(filter: Seq<char>, g: GroupView) -> bool {
    filter_finds(filter, g.name) || exists|j: int| 0 <= j < g.children.len() && #[trigger] filter_finds(filter, g.children[j].name)
}

/// A row shows group `k`, which the filter finds, or a process of group
/// `k` that the filter finds, when that group is expanded.
pub open spec fn row_from(row: RowView, gs: Seq<GroupView>, filter: Seq<char>, k: int) -> bool {
    0 <= k < gs.len() && ((shows_group(row, gs[k]) && filter_finds_group(filter, gs[k])) || (gs[k].expanded
        && exists|j: int|
        0 <= j < gs[k].children.len() && #[trigger] shows_process(row, gs[k].children[j]) && filter_finds(
            filter,
            gs[k].children[j].name,
        )))
}

/// What passes the filter is among the processes.
proof fn lemma_passing_from(cs: Seq<InfoView>, filter: Seq<char>, m: int)
    requires
        0 <= m < passing(cs, filter).len(),
    ensures
        exists|j: int| 0 <= j < cs.len() && cs[j] == #[trigger] passing(cs, filter)[m],
        passes(passing(cs, filter)[m].name, filter),
    decreases cs.len(),
{
    let prev = passing(cs.drop_last(), filter);
    if m < prev.len() {
        lemma_passing_from(cs.drop_last(), filter, m);
        let j = choose|j: int| 0 <= j < cs.drop_last().len() && cs.drop_last()[j] == #[trigger] prev[m];
        assert(cs[j] == passing(cs, filter)[m]);
    } else {
        assert(cs[cs.len() - 1] == passing(cs, filter)[m]);
    }
}

/// Every row of the table shows the values of a group that the search text
/// finds (in its name or in one of its processes' names), or of a process
/// of an expanded group whose name the search text finds: a process row's
/// disk column is that process's bytes read plus written, and a group row
/// says it has processes exactly when the group has at least one.
pub proof fn law_rows_show_their_values(gs: Seq<GroupView>, filter: Seq<char>, r: int)
    requires
        0 <= r < visible_rows(gs, filter).len(),
    ensures
        exists|k: int| #[trigger] row_from(visible_rows(gs, filter)[r], gs, filter, k),
    decreases gs.len(),
{
    let init = gs.drop_last();
    let g = gs.last();
    let before = visible_rows(init, filter);
    let rows = visible_rows(gs, filter);
    let row = rows[r];
    let k = gs.len() - 1;
    assert(gs[k] == g);
    if r < before.len() {
        law_rows_show_their_values(init, filter, r);
        let k0 = choose|k0: int| #[trigger] row_from(before[r], init, filter, k0);
        assert(rows[r] == before[r]);
        assert(init[k0] == gs[k0]);
        if shows_group(row, init[k0]) && filter_finds_group(filter, init[k0]) {
            assert(shows_group(row, gs[k0]) && filter_finds_group(filter, gs[k0]));
        } else {
            let j = choose|j: int|
                0 <= j < init[k0].children.len() && #[trigger] shows_process(before[r], init[k0].children[j])
                    && filter_finds(filter, init[k0].children[j].name);
            assert(shows_process(row, gs[k0].children[j]));
        }
        assert(row_from(row, gs, filter, k0));
    } else {
        let part = group_rows(g, filter);
        assert(row == part[r - before.len()]);
        let shown = passing(g.children, filter);
        if r == before.len() {
            assert(shows_group(row, g));
            if !passes(g.name, filter) {
                lemma_passing_from(g.children, filter, 0);
                let j = choose|j: int| 0 <= j < g.children.len() && g.children[j] == #[trigger] shown[0];
                assert(filter_finds(filter, g.children[j].name));
            }
            assert(filter_finds_group(filter, g));
        } else {
            let m = r - before.len() - 1;
            assert(g.expanded);
            assert(row == child_row(shown[m]));
            lemma_passing_from(g.children, filter, m);
            let j = choose|j: int| 0 <= j < g.children.len() && g.children[j] == #[trigger] shown[m];
            assert(shows_process(row, g.children[j]));
            assert(filter_finds(filter, g.children[j].name));
        }
        assert(row_from(row, gs, filter, k));
    }
}


/// When `big` occurs in `hay` at `at` and `small` occurs in `big` at `off`,
/// `small` occurs in `hay` at `at + off`.
proof fn lemma_occurs_within(hay: Seq<char>, big: Seq<char>, small: Seq<char>, at: int, off: int)
    requires
        occurs_at(hay, big, at),
        occurs_at(big, small, off),
    ensures
        occurs_at(hay, small, at + off),
{
    assert forall|i: int| 0 <= i < small.len() implies
        #[trigger] hay.subrange(at + off, at + off + small.len())[i] == small[i] by {
        assert(hay.subrange(at, at + big.len())[off + i] == big[off + i]);
        assert(big.subrange(off, off + small.len())[i] == small[i]);
    }
    assert(hay.subrange(at + off, at + off + small.len()) =~= small);
}

/// Only helpers belong to another application: a process whose lowercased
/// name neither contains "helper" nor begins with "com.apple.webkit" (an
/// application's own process, such as "slack" or "google chrome") belongs
/// to none and so heads its own group. Each application is named only for
/// the words that mark its helpers: a process is counted as part of Slack
/// only when its name contains both "slack" and "helper", and so on.
pub proof fn law_only_helpers_have_parent_app(l: Seq<char>)
    ensures
        parent_app_rule(l) is Some ==> has_substring(l, "helper"@) || has_prefix(l, "com.apple.webkit"@),
        !has_substring(l, "helper"@) && !has_prefix(l, "com.apple.webkit"@) ==> parent_app_rule(l) is None,
        parent_app_rule(l) == Some("Slack"@) ==> has_substring(l, "slack"@) && has_substring(l, "helper"@),
        parent_app_rule(l) == Some("Safari"@) ==> has_prefix(l, "com.apple.webkit"@),
        parent_app_rule(l) == Some("Google Chrome"@) ==> has_substring(l, "google chrome helper"@),
        parent_app_rule(l) == Some("Firefox"@) ==> has_substring(l, "firefox"@) && has_substring(l, "helper"@),
        parent_app_rule(l) == Some("Code"@) ==> has_substring(l, "code"@) && has_substring(l, "helper"@),
{
    reveal_strlit("helper");
    reveal_strlit("google chrome helper");
    reveal_strlit("code helper");
    reveal_strlit("electron helper");
    reveal_strlit("Safari");
    reveal_strlit("Slack");
    reveal_strlit("Google Chrome");
    reveal_strlit("Firefox");
    reveal_strlit("Code");
    assert("Safari"@.len() == 6 && "Slack"@.len() == 5 && "Google Chrome"@.len() == 13);
    assert("Firefox"@.len() == 7 && "Code"@.len() == 4);
    let helper = "helper"@;
    if has_prefix(l, "com.apple.webkit"@) && has_substring(l, "webkit"@) {
        // Safari's web content processes: named by the prefix itself.
    } else if has_substring(l, "google chrome helper"@) {
        let at = choose|at: int| occurs_at(l, "google chrome helper"@, at);
        assert("google chrome helper"@.subrange(14, 20) =~= helper);
        lemma_occurs_within(l, "google chrome helper"@, helper, at, 14);
    } else if has_substring(l, "code helper"@) {
        let at = choose|at: int| occurs_at(l, "code helper"@, at);
        assert("code helper"@.subrange(5, 11) =~= helper);
        lemma_occurs_within(l, "code helper"@, helper, at, 5);
    } else if has_substring(l, "electron helper"@) {
        let at = choose|at: int| occurs_at(l, "electron helper"@, at);
        assert("electron helper"@.subrange(9, 15) =~= helper);
        lemma_occurs_within(l, "electron helper"@, helper, at, 9);
    }
}

/// Each family of helpers is grouped under its application, the first
/// rule that fits deciding: a name beginning with "com.apple.webkit" under
/// Safari; else one containing "google chrome helper" under Google Chrome;
/// else one with "firefox" and "helper" under Firefox; else one with
/// "slack" and "helper" under Slack; else one containing "code helper", or
/// "electron helper" together with "code", under Code.
pub proof fn law_helpers_named_for_their_app(l: Seq<char>)
    ensures
        has_prefix(l, "com.apple.webkit"@) ==> parent_app_rule(l) == Some("Safari"@),
        !has_prefix(l, "com.apple.webkit"@) && has_substring(l, "google chrome helper"@)
            ==> parent_app_rule(l) == Some("Google Chrome"@),
        !has_prefix(l, "com.apple.webkit"@) && !has_substring(l, "google chrome helper"@)
            && has_substring(l, "firefox"@) && has_substring(l, "helper"@)
            ==> parent_app_rule(l) == Some("Firefox"@),
        !has_prefix(l, "com.apple.webkit"@) && !has_substring(l, "google chrome helper"@)
            && !has_substring(l, "firefox"@) && has_substring(l, "slack"@) && has_substring(l, "helper"@)
            ==> parent_app_rule(l) == Some("Slack"@),
        !has_prefix(l, "com.apple.webkit"@) && !has_substring(l, "google chrome helper"@)
            && !has_substring(l, "firefox"@) && !has_substring(l, "slack"@)
            && (has_substring(l, "code helper"@) || (has_substring(l, "electron helper"@)
            && has_substring(l, "code"@))) ==> parent_app_rule(l) == Some("Code"@),
{
    reveal_strlit("com.apple.webkit");
    reveal_strlit("webkit");
    reveal_strlit("code helper");
    reveal_strlit("code");
    if has_prefix(l, "com.apple.webkit"@) {
        assert("com.apple.webkit"@.subrange(10, 16) =~= "webkit"@);
        lemma_occurs_within(l, "com.apple.webkit"@, "webkit"@, 0, 10);
    }
    if has_substring(l, "code helper"@) {
        let at = choose|at: int| occurs_at(l, "code helper"@, at);
        assert("code helper"@.subrange(0, 4) =~= "code"@);
        lemma_occurs_within(l, "code helper"@, "code"@, at, 0);
    }
}

/// A process that passes the filter keeps a place among those that pass.
proof fn lemma_passing_keeps(cs: Seq<InfoView>, filter: Seq<char>, j: int)
    requires
        0 <= j < cs.len(),
        passes(cs[j].name, filter),
    ensures
        exists|m: int| 0 <= m < passing(cs, filter).len() && #[trigger] passing(cs, filter)[m] == cs[j],
    decreases cs.len(),
{
    let prev = passing(cs.drop_last(), filter);
    if j < cs.len() - 1 {
        lemma_passing_keeps(cs.drop_last(), filter, j);
        let m = choose|m: int| 0 <= m < prev.len() && #[trigger] prev[m] == cs.drop_last()[j];
        assert(passing(cs, filter)[m] == cs[j]);
    } else {
        assert(passing(cs, filter)[prev.len() as int] == cs[j]);
    }
}

/// Everything that the search text finds is shown: a group whose name, or
/// one of whose processes' names, contains the search text (case ignored)
/// has its row in the table, and so does each process of an expanded group
/// whose name contains it. With an empty search text everything is found.
pub proof fn law_found_rows_shown(gs: Seq<GroupView>, filter: Seq<char>, k: int)
    requires
        0 <= k < gs.len(),
    ensures
        filter_finds_group(filter, gs[k]) ==> exists|r: int|
            0 <= r < visible_rows(gs, filter).len() && #[trigger] shows_group(visible_rows(gs, filter)[r], gs[k]),
        forall|j: int|
            0 <= j < gs[k].children.len() && gs[k].expanded && #[trigger] filter_finds(filter, gs[k].children[j].name)
                ==> exists|r: int|
                0 <= r < visible_rows(gs, filter).len() && shows_process(visible_rows(gs, filter)[r], gs[k].children[j]),
    decreases gs.len(),
{
    let init = gs.drop_last();
    let g = gs.last();
    let before = visible_rows(init, filter);
    let rows = visible_rows(gs, filter);
    let b = before.len() as int;
    if k < gs.len() - 1 {
        law_found_rows_shown(init, filter, k);
        assert(init[k] == gs[k]);
        if filter_finds_group(filter, gs[k]) {
            assert(filter_finds_group(filter, init[k]));
            let r = choose|r: int| 0 <= r < before.len() && #[trigger] shows_group(before[r], init[k]);
            assert(rows[r] == before[r]);
        }
        assert forall|j: int|
            0 <= j < gs[k].children.len() && gs[k].expanded && #[trigger] filter_finds(filter, gs[k].children[j].name)
                implies exists|r: int|
                0 <= r < rows.len() && shows_process(rows[r], gs[k].children[j]) by {
            assert(filter_finds(filter, init[k].children[j].name));
            let r = choose|r: int| 0 <= r < before.len() && shows_process(before[r], init[k].children[j]);
            assert(rows[r] == before[r]);
        }
    } else {
        assert(gs[k] == g);
        let shown = passing(g.children, filter);
        if filter_finds_group(filter, g) {
            if !passes(g.name, filter) {
                let j = choose|j: int| 0 <= j < g.children.len() && #[trigger] filter_finds(filter, g.children[j].name);
                lemma_passing_nonempty(g.children, filter, j);
            }
            assert(rows[b] == group_row(g));
            assert(shows_group(rows[b], gs[k]));
        }
        assert forall|j: int|
            0 <= j < gs[k].children.len() && gs[k].expanded && #[trigger] filter_finds(filter, gs[k].children[j].name)
                implies exists|r: int|
                0 <= r < rows.len() && shows_process(rows[r], gs[k].children[j]) by {
            lemma_passing_keeps(g.children, filter, j);
            let m = choose|m: int| 0 <= m < shown.len() && #[trigger] shown[m] == g.children[j];
            assert(rows[b + 1 + m] == child_row(shown[m]));
            assert(shows_process(rows[b + 1 + m], gs[k].children[j]));
        }
    }
}

/// A size shown in kilobytes, megabytes or gigabytes is rounded to the
/// nearest tenth of the unit: the tenths shown, times the unit, differ from
/// ten times the size in bytes by at most half a unit.
pub proof fn law_sizes_round_to_nearest_tenth(bytes: nat, unit: nat)
    requires
        unit > 0,
    ensures
        -(unit as int) <= 2 * (rounded_tenths(bytes, unit) * unit - 10 * bytes) <= unit,
{
    let x = (bytes * 10) as int;
    let u = unit as int;
    let q = x / u;
    let r = x % u;
    lemma_fundamental_div_mod(x, u);
    lemma_mod_pos_bound(x, u);
    assert(u * q == q * u) by (nonlinear_arith);
    assert((q + 1) * u == q * u + u) by (nonlinear_arith);
    assert(x == q * u + r);
}

/// When some application among the first `n` processes has the lowercased
/// name `key`, the one picked is such an application.
proof fn lemma_app_named_found(p: Seq<SnapView>, key: Seq<char>, n: int, j: int)
    requires
        0 <= j < n <= p.len(),
        is_app(p, j),
        lowercase(p[j].name) == key,
    ensures
        app_named(p, key, n) matches Some(k) && 0 <= k < n && is_app(p, k) && lowercase(p[k].name) == key,
    decreases n,
{
    if !(is_app(p, n - 1) && lowercase(p[n - 1].name) == key) {
        lemma_app_named_found(p, key, n - 1, j);
    }
}

/// When grouping by application name, a helper that the platform reports
/// no other process responsible for is shown under a process of its
/// application: one that is no helper and whose lowercased name is the
/// application's, as soon as such a process runs. So with "Slack" and
/// "Slack Helper (Renderer)" running, the helper is shown under "Slack".
pub proof fn law_helpers_join_their_app(p: Seq<SnapView>, i: int, j: int, app: Seq<char>)
    requires
        distinct_pids(p),
        0 <= i < p.len(),
        0 <= j < p.len(),
        reported_owner(p, i) is None,
        parent_app_rule(lowercase(p[i].name)) == Some(app),
        is_app(p, j),
        lowercase(p[j].name) == lowercase(app),
    ensures
        owner(p, true, i) matches Some(k) && 0 <= k < p.len() && is_app(p, k) && lowercase(p[k].name) == lowercase(app),
        above(p, true, i) == owner(p, true, i),
{
    lemma_app_named_found(p, lowercase(app), p.len() as int, j);
    let k = app_named(p, lowercase(app), p.len() as int)->Some_0;
    assert(k != i);
    if k < i {
        assert(p[k].pid != p[i].pid);
    } else {
        assert(p[i].pid != p[k].pid);
    }
}

} // verus!
