//! The text of the table's title, column headers and row prefixes.
use vstd::prelude::*;
use crate::domain::{row_views, sort_mode_label, DisplayRow, RowView, SortMode};
use crate::format::{digits, push_digits, push_text, string_from_chars};
use crate::state::App;

verus! {

/// The arrow that shows the sort direction.
pub open spec fn indicator_text(ascending: bool) -> Seq<char> {
    if ascending {
        "▲"@
    } else {
        "▼"@
    }
}

/// The arrow that shows the sort direction: up for ascending, down for
/// descending.
pub fn sort_indicator(ascending: bool) -> (r: &'static str)
    ensures
        r@ == indicator_text(ascending),
{
    if ascending {
        "▲"
    } else {
        "▼"
    }
}

/// What stands before a row's name: an arrow for a group with processes
/// (down when expanded, right when not), blanks for a group without, and a
/// branch for a process shown under its group.
pub open spec fn prefix_text(row: RowView) -> Seq<char> {
    if row.is_group {
        if row.has_children {
            if row.expanded {
                "▼ "@
            } else {
                "▶ "@
            }
        } else {
            "  "@
        }
    } else {
        "    └─ "@
    }
}

/// What stands before a row's name (see `prefix_text`).
pub fn row_prefix(row: &DisplayRow) -> (r: &'static str)
    ensures
        r@ == prefix_text(row@),
{
    if row.is_group {
        if row.has_children {
            if row.expanded {
                "▼ "
            } else {
                "▶ "
            }
        } else {
            "  "
        }
    } else {
        "    └─ "
    }
}

/// The plain title of the column that `column` sorts by.
pub open spec fn column_name(column: SortMode) -> Seq<char> {
    match column {
        SortMode::Name => "NAME"@,
        SortMode::Cpu => "CPU%"@,
        SortMode::Memory => "MEM"@,
        SortMode::DiskIo => "DISK"@,
    }
}

/// The header of a column: its name, followed by the direction arrow when
/// the table is sorted by it.
pub open spec fn column_text(column: SortMode, sort_mode: SortMode, ascending: bool) -> Seq<char> {
    if column == sort_mode {
        column_name(column) + indicator_text(ascending)
    } else {
        column_name(column)
    }
}

/// The header of the column that `column` sorts by (see `column_text`).
pub fn column_title(column: SortMode, sort_mode: SortMode, ascending: bool) -> (r: String)
    ensures
        r@ == column_text(column, sort_mode, ascending),
{
    let name = match column {
        SortMode::Name => "NAME",
        SortMode::Cpu => "CPU%",
        SortMode::Memory => "MEM",
        SortMode::DiskIo => "DISK",
    };
    let mut out: Vec<char> = Vec::new();
    push_text(name, &mut out);
    if column == sort_mode {
        push_text(sort_indicator(ascending), &mut out);
    }
    assert(out@ =~= column_text(column, sort_mode, ascending));
    string_from_chars(&out)
}

/// The number of group rows among `rows`.
pub open spec fn group_row_count(rows: Seq<RowView>) -> nat
    decreases rows.len(),
{
    if rows.len() == 0 {
        0
    } else {
        group_row_count(rows.drop_last()) + if rows.last().is_group {
            1nat
        } else {
            0nat
        }
    }
}

/// The table's title: the number of groups (or, with a filter, of groups
/// shown), and the sort mode with its direction.
pub open spec fn title_text(groups: nat, filter_empty: bool, shown: nat, mode: SortMode, ascending: bool) -> Seq<char> {
    let sort = " [Sort: "@ + sort_mode_label(mode) + " "@ + indicator_text(ascending) + "] "@;
    if filter_empty {
        " Apps ("@ + digits(groups) + ")"@ + sort
    } else {
        " Apps ("@ + digits(shown) + " shown)"@ + sort
    }
}

/// The table's title for `app` showing `visible_rows` (see `title_text`).
pub fn table_title(app: &App, visible_rows: &Vec<DisplayRow>) -> (r: String)
    ensures
        r@ == title_text(
            app.groups@.len(),
            app.filter_text@.len() == 0,
            group_row_count(row_views(visible_rows@)),
            app.sort_mode,
            app.sort_ascending,
        ),
{
    let ghost rv = row_views(visible_rows@);
    let mut shown: usize = 0;
    let mut i: usize = 0;
    assert(rv.take(0) =~= Seq::<RowView>::empty());
    while i < visible_rows.len()
        invariant
            rv == row_views(visible_rows@),
            i <= rv.len(),
            shown == group_row_count(rv.take(i as int)),
            shown <= i,
        decreases rv.len() - i,
    {
        assert(rv.take(i + 1).drop_last() =~= rv.take(i as int));
        assert(rv.take(i + 1).last() == visible_rows@[i as int]@);
        if visible_rows[i].is_group {
            shown = shown + 1;
        }
        i = i + 1;
    }
    assert(rv.take(rv.len() as int) =~= rv);
    let mut out: Vec<char> = Vec::new();
    push_text(" Apps (", &mut out);
    if app.filter_text.as_str().is_empty() {
        push_digits(app.groups.len() as u64, &mut out);
        push_text(")", &mut out);
    } else {
        push_digits(shown as u64, &mut out);
        push_text(" shown)", &mut out);
    }
    push_text(" [Sort: ", &mut out);
    push_text(app.sort_mode.label(), &mut out);
    push_text(" ", &mut out);
    push_text(sort_indicator(app.sort_ascending), &mut out);
    push_text("] ", &mut out);
    assert(out@ =~= title_text(
        app.groups@.len(),
        app.filter_text@.len() == 0,
        group_row_count(rv),
        app.sort_mode,
        app.sort_ascending,
    ));
    string_from_chars(&out)
}

} // verus!
