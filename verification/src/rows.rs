//! The rows of the process table: the groups that pass the search filter,
//! each followed, when expanded, by its processes that pass it.
use vstd::prelude::*;
use crate::domain::{group_views, info_views, row_views, DisplayRow, GroupView, InfoView, ProcessGroup, ProcessInfo};
use crate::order::{group_fits, Ranked};
use crate::text::{contains_chars, has_substring, lowercase, lowercase_chars};

verus! {

/// A name passes the filter: the filter is empty, or the lowercased name
/// contains the lowercased filter.
pub open spec fn passes(name: Seq<char>, filter: Seq<char>) -> bool {
    filter.len() == 0 || has_substring(lowercase(name), lowercase(filter))
}

/// The processes of a list that pass the filter, in order.
pub open spec fn passing(cs: Seq<InfoView>, filter: Seq<char>) -> Seq<InfoView>
    decreases cs.len(),
{
    if cs.len() == 0 {
        Seq::empty()
    } else if passes(cs.last().name, filter) {
        passing(cs.drop_last(), filter).push(cs.last())
    } else {
        passing(cs.drop_last(), filter)
    }
}

/// The row of a group.
pub open spec fn group_row(g: GroupView) -> crate::domain::RowView {
    crate::domain::RowView {
        pid: g.pid,
        name: g.name,
        cpu_usage: g.cpu_usage,
        memory: g.memory,
        disk_io: g.disk_read + g.disk_write,
        is_group: true,
        expanded: g.expanded,
        has_children: g.children.len() > 0,
    }
}

/// The row of a process shown under its group.
pub open spec fn child_row(c: InfoView) -> crate::domain::RowView {
    crate::domain::RowView {
        pid: c.pid,
        name: c.name,
        cpu_usage: c.cpu_usage,
        memory: c.memory,
        disk_io: c.disk_read + c.disk_write,
        is_group: false,
        expanded: false,
        has_children: false,
    }
}

/// The rows of one group: none when neither the group nor any of its
/// processes passes the filter; else the group's row, followed, when the
/// group is expanded, by the rows of its processes that pass.
pub open spec fn group_rows(g: GroupView, filter: Seq<char>) -> Seq<crate::domain::RowView> {
    let shown = passing(g.children, filter);
    if passes(g.name, filter) || shown.len() > 0 {
        seq![group_row(g)] + if g.expanded {
            shown.map_values(|c: InfoView| child_row(c))
        } else {
            Seq::empty()
        }
    } else {
        Seq::empty()
    }
}

/// The rows of the table for groups `gs` and the filter text `filter`.
pub open spec fn visible_rows(gs: Seq<GroupView>, filter: Seq<char>) -> Seq<crate::domain::RowView>
    decreases gs.len(),
{
    if gs.len() == 0 {
        Seq::empty()
    } else {
        visible_rows(gs.drop_last(), filter) + group_rows(gs.last(), filter)
    }
}

/// A lowercased name `lname` passes a filter that is empty
/// (`filter_empty`) or whose lowercase form `fl` it contains.
pub open spec fn passes_lowered(lname: Seq<char>, filter_empty: bool, fl: Seq<char>) -> bool {
    filter_empty || has_substring(lname, fl)
}

/// The processes of a list that pass the filter, given their lowercased
/// names `lnames` (one per process), in order.
pub open spec fn passing_lowered(cs: Seq<InfoView>, lnames: Seq<Seq<char>>, filter_empty: bool, fl: Seq<char>) -> Seq<
    InfoView,
>
    decreases cs.len(),
{
    if cs.len() == 0 {
        Seq::empty()
    } else if passes_lowered(lnames[cs.len() - 1], filter_empty, fl) {
        passing_lowered(cs.drop_last(), lnames.drop_last(), filter_empty, fl).push(cs.last())
    } else {
        passing_lowered(cs.drop_last(), lnames.drop_last(), filter_empty, fl)
    }
}

/// The rows of one group (see `group_rows`), given the lowercased name of
/// the group, those of its processes, and the filter's emptiness and
/// lowercase form.
pub open spec fn group_rows_lowered(
    g: GroupView,
    lname: Seq<char>,
    lnames: Seq<Seq<char>>,
    filter_empty: bool,
    fl: Seq<char>,
) -> Seq<crate::domain::RowView> {
    let shown = passing_lowered(g.children, lnames, filter_empty, fl);
    if passes_lowered(lname, filter_empty, fl) || shown.len() > 0 {
        seq![group_row(g)] + if g.expanded {
            shown.map_values(|c: InfoView| child_row(c))
        } else {
            Seq::empty()
        }
    } else {
        Seq::empty()
    }
}

/// The lowercased names of a list of processes.
pub open spec fn lowered_names(cs: Seq<InfoView>) -> Seq<Seq<char>> {
    cs.map_values(|c: InfoView| lowercase(c.name))
}

/// With the true lowercased names, the filtering by lowercased names is
/// the filtering by names.
pub proof fn lemma_passing_lowered(cs: Seq<InfoView>, filter: Seq<char>)
    ensures
        passing_lowered(cs, lowered_names(cs), filter.len() == 0, lowercase(filter)) == passing(cs, filter),
    decreases cs.len(),
{
    if cs.len() > 0 {
        assert(lowered_names(cs).drop_last() =~= lowered_names(cs.drop_last()));
        lemma_passing_lowered(cs.drop_last(), filter);
    }
}

/// With the true lowercased names, a group's rows by lowercased names are
/// its rows.
pub proof fn lemma_group_rows_lowered(g: GroupView, filter: Seq<char>)
    ensures
        group_rows_lowered(g, lowercase(g.name), lowered_names(g.children), filter.len() == 0, lowercase(filter))
            == group_rows(g, filter),
{
    lemma_passing_lowered(g.children, filter);
}

/// The row of a group, as computed.
fn make_group_row(g: &ProcessGroup) -> (r: DisplayRow)
    requires
        group_fits(*g),
    ensures
        r@ == group_row(g@),
{
    DisplayRow {
        pid: g.pid,
        name: g.name.clone(),
        cpu_usage: g.cpu_usage,
        memory: g.memory,
        disk_io: g.disk_read + g.disk_write,
        is_group: true,
        expanded: g.expanded,
        has_children: g.children.len() > 0,
    }
}

/// The row of a process, as computed.
fn make_child_row(c: &ProcessInfo) -> (r: DisplayRow)
    requires
        c.disk_read + c.disk_write <= u64::MAX,
    ensures
        r@ == child_row(c@),
{
    DisplayRow {
        pid: c.pid,
        name: c.name.clone(),
        cpu_usage: c.cpu_usage,
        memory: c.memory,
        disk_io: c.disk_read + c.disk_write,
        is_group: false,
        expanded: false,
        has_children: false,
    }
}

/// The views of lowercased names held at run time.
pub open spec fn char_views(v: Seq<Vec<char>>) -> Seq<Seq<char>> {
    v.map_values(|x: Vec<char>| x@)
}

/// The rows of one group, given the lowercased name of the group
/// (`name_lower`), those of its processes (`children_lower`, one per
/// process), whether the filter is empty, and the lowercased filter.
pub fn group_rows_for(
    g: &ProcessGroup,
    name_lower: &Vec<char>,
    children_lower: &Vec<Vec<char>>,
    filter_empty: bool,
    filter_lower: &Vec<char>,
) -> (rows: Vec<DisplayRow>)
    requires
        group_fits(*g),
        children_lower@.len() == g.children@.len(),
    ensures
        row_views(rows@) == group_rows_lowered(
            g@,
            name_lower@,
            char_views(children_lower@),
            filter_empty,
            filter_lower@,
        ),
{
    let ghost gv = g@;
    let ghost cs = gv.children;
    let ghost ls = char_views(children_lower@);
    let ghost fl = filter_lower@;
    let mut rows: Vec<DisplayRow> = Vec::new();
    // the processes of this group that pass the filter
    let mut shown: Vec<usize> = Vec::new();
    let mut j: usize = 0;
    assert(cs.take(0) =~= Seq::<InfoView>::empty());
    while j < g.children.len()
        invariant
            cs == info_views(g.children@),
            ls == char_views(children_lower@),
            ls.len() == cs.len(),
            fl == filter_lower@,
            j <= cs.len(),
            shown@.len() == passing_lowered(cs.take(j as int), ls.take(j as int), filter_empty, fl).len(),
            forall|k: int| 0 <= k < shown@.len() ==> #[trigger] shown@[k] < j,
            forall|k: int|
                0 <= k < shown@.len() ==> cs[#[trigger] shown@[k] as int] == passing_lowered(
                    cs.take(j as int),
                    ls.take(j as int),
                    filter_empty,
                    fl,
                )[k],
        decreases cs.len() - j,
    {
        assert(cs[j as int] == g.children@[j as int]@);
        assert(cs.take(j + 1).drop_last() =~= cs.take(j as int));
        assert(ls.take(j + 1).drop_last() =~= ls.take(j as int));
        assert(ls.take(j + 1)[j as int] == children_lower@[j as int]@);
        if filter_empty || contains_chars(&children_lower[j], filter_lower) {
            shown.push(j);
        }
        j = j + 1;
    }
    assert(cs.take(cs.len() as int) =~= cs);
    assert(ls.take(ls.len() as int) =~= ls);
    let ghost shown_v = passing_lowered(cs, ls, filter_empty, fl);
    let group_passes = filter_empty || contains_chars(name_lower, filter_lower);
    if group_passes || shown.len() > 0 {
        rows.push(make_group_row(g));
        if g.expanded {
            assert(row_views(rows@) =~= seq![group_row(gv)] + shown_v.take(0).map_values(|c: InfoView| child_row(c)));
            let mut k: usize = 0;
            while k < shown.len()
                invariant
                    cs == info_views(g.children@),
                    group_fits(*g),
                    forall|m: int| 0 <= m < shown@.len() ==> #[trigger] shown@[m] < cs.len(),
                    forall|m: int| 0 <= m < shown@.len() ==> cs[#[trigger] shown@[m] as int] == shown_v[m],
                    shown@.len() == shown_v.len(),
                    k <= shown@.len(),
                    row_views(rows@) == seq![group_row(gv)] + shown_v.take(k as int).map_values(|c: InfoView| child_row(c)),
                decreases shown@.len() - k,
            {
                let idx = shown[k];
                let c = &g.children[idx];
                assert(cs[idx as int] == c@);
                assert(c.rank_fits());
                let ghost prev = row_views(rows@);
                rows.push(make_child_row(c));
                assert(row_views(rows@) =~= prev.push(child_row(c@)));
                assert(shown_v.take(k + 1) =~= shown_v.take(k as int).push(c@));
                k = k + 1;
            }
            assert(shown_v.take(shown@.len() as int) =~= shown_v);
        } else {
            assert(row_views(rows@) =~= seq![group_row(gv)]);
        }
        assert(row_views(rows@) =~= group_rows_lowered(gv, name_lower@, ls, filter_empty, fl));
    } else {
        assert(row_views(rows@) =~= group_rows_lowered(gv, name_lower@, ls, filter_empty, fl));
    }
    rows
}

/// The lowercased names of the processes of a group.
fn children_lowered(g: &ProcessGroup) -> (r: Vec<Vec<char>>)
    ensures
        char_views(r@) == lowered_names(g@.children),
        r@.len() == g.children@.len(),
{
    let mut r: Vec<Vec<char>> = Vec::new();
    let mut j: usize = 0;
    while j < g.children.len()
        invariant
            j <= g.children@.len(),
            r@.len() == j,
            char_views(r@) == lowered_names(g@.children).take(j as int),
        decreases g.children@.len() - j,
    {
        let l = lowercase_chars(g.children[j].name.as_str());
        assert(g@.children[j as int] == g.children@[j as int]@);
        assert(lowered_names(g@.children)[j as int] == lowercase(g.children@[j as int].name@));
        let ghost prev = char_views(r@);
        r.push(l);
        assert(char_views(r@) =~= prev.push(l@));
        assert(lowered_names(g@.children).take(j + 1) =~= lowered_names(g@.children).take(j as int).push(l@));
        j = j + 1;
        assert(char_views(r@) =~= lowered_names(g@.children).take(j as int));
    }
    assert(lowered_names(g@.children).take(j as int) =~= lowered_names(g@.children));
    r
}

/// The rows of the table for the groups `groups` and the filter text
/// `filter_text`.
pub fn rows_for(groups: &Vec<ProcessGroup>, filter_text: &String) -> (rows: Vec<DisplayRow>)
    requires
        forall|i: int| 0 <= i < groups@.len() ==> group_fits(#[trigger] groups@[i]),
    ensures
        row_views(rows@) == visible_rows(group_views(groups@), filter_text@),
{
    let ghost filter = filter_text@;
    let ghost gs = group_views(groups@);
    let filter_empty = filter_text.as_str().is_empty();
    let filter_lower = lowercase_chars(filter_text.as_str());
    let mut rows: Vec<DisplayRow> = Vec::new();
    let mut i: usize = 0;
    assert(gs.take(0) =~= Seq::<GroupView>::empty());
    while i < groups.len()
        invariant
            gs == group_views(groups@),
            forall|k: int| 0 <= k < groups@.len() ==> group_fits(#[trigger] groups@[k]),
            filter_empty == (filter.len() == 0),
            filter_lower@ == lowercase(filter),
            i <= groups@.len(),
            row_views(rows@) == visible_rows(gs.take(i as int), filter),
        decreases groups@.len() - i,
    {
        let g = &groups[i];
        assert(group_fits(*g));
        let ghost gv = g@;
        assert(gs[i as int] == gv);
        let name_lower = lowercase_chars(g.name.as_str());
        let children_lower = children_lowered(g);
        let mut part = group_rows_for(g, &name_lower, &children_lower, filter_empty, &filter_lower);
        proof {
            lemma_group_rows_lowered(gv, filter);
        }
        let ghost before = row_views(rows@);
        let ghost part_v = row_views(part@);
        rows.append(&mut part);
        assert(row_views(rows@) =~= before + part_v);
        assert(gs.take(i + 1).drop_last() =~= gs.take(i as int));
        assert(gs.take(i + 1).last() == gv);
        i = i + 1;
    }
    assert(gs.take(gs.len() as int) =~= gs);
    rows
}

} // verus!
