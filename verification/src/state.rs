//! The monitor's state: the latest snapshot, its groups in table order,
//! which groups are expanded, the sort mode and direction, the search
//! filter and the selected row.
use vstd::prelude::*;
use std::collections::HashSet;
use crate::domain::{group_views, row_views, DisplayRow, GroupView, ProcessGroup, RowView, SortMode, SystemSnapshot};
use crate::grouping::{group_processes, snapshot_fits, unsorted_groups};
use crate::order::{group_fits, groups_arranged, sort_group_list};
use crate::rows::{rows_for, visible_rows};

verus! {

broadcast use vstd::std_specs::hash::group_hash_axioms;

/// Which row of the table is selected, if any.
#[derive(Clone, Debug)]
pub struct TableState {
    selected: Option<usize>,
}

impl View for TableState {
    type V = Option<usize>;

    closed spec fn view(&self) -> Option<usize> {
        self.selected
    }
}

impl TableState {
    /// No row selected.
    pub fn new() -> (s: TableState)
        ensures
            s@ is None,
    {
        TableState { selected: None }
    }

    /// Selects row `index`, or no row.
    pub fn select(&mut self, index: Option<usize>)
        ensures
            final(self)@ == index,
    {
        self.selected = index;
    }

    /// The selected row.
    pub fn selected(&self) -> (r: Option<usize>)
        ensures
            r == self@,
    {
        self.selected
    }
}

impl Default for TableState {
    fn default() -> (s: TableState)
        ensures
            s@ is None,
    {
        TableState::new()
    }
}

/// The selection after moving down one row in a table of `count` rows:
/// nothing changes in an empty table; no selection goes to the first row;
/// the last row (or a row past it) stays.
pub open spec fn next_selection(sel: Option<usize>, count: int) -> Option<usize> {
    if count == 0 {
        sel
    } else {
        match sel {
            Some(i) => if i >= count - 1 { Some(i) } else { Some((i + 1) as usize) },
            None => Some(0),
        }
    }
}

/// The selection after moving up one row in a table of `count` rows:
/// nothing changes in an empty table; the first row stays; no selection
/// goes to the first row.
pub open spec fn previous_selection(sel: Option<usize>, count: int) -> Option<usize> {
    if count == 0 {
        sel
    } else {
        match sel {
            Some(i) => if i == 0 { Some(0) } else { Some((i - 1) as usize) },
            None => Some(0),
        }
    }
}

/// `s` with `pid` added, or taken out if it was in.
pub open spec fn toggled(s: Set<u32>, pid: u32) -> Set<u32> {
    if s.contains(pid) {
        s.remove(pid)
    } else {
        s.insert(pid)
    }
}

/// The sort mode and direction after asking for `mode`: asking again for
/// the current mode reverses the direction; another mode starts descending.
pub open spec fn toggled_sort(current: SortMode, ascending: bool, mode: SortMode) -> (SortMode, bool) {
    if current == mode {
        (current, !ascending)
    } else {
        (mode, false)
    }
}

/// The state of the monitor.
pub struct App {
    pub system: SystemSnapshot,
    pub table_state: TableState,
    pub groups: Vec<ProcessGroup>,
    pub expanded_pids: HashSet<u32>,
    pub sort_mode: SortMode,
    pub sort_ascending: bool,
    pub search_active: bool,
    pub filter_text: String,
}

/// `new` is `old` with the selection moved down one row.
pub open spec fn moved_down(old: &App, new: &App) -> bool {
    &&& new.table_state@ == next_selection(old.table_state@, old.rows_view().len() as int)
    &&& new.same_but_selection(old)
}

/// `new` is `old` with the selection moved up one row.
pub open spec fn moved_up(old: &App, new: &App) -> bool {
    &&& new.table_state@ == previous_selection(old.table_state@, old.rows_view().len() as int)
    &&& new.same_but_selection(old)
}

/// `new` is `old` with the selected group expanded or collapsed and the
/// groups rebuilt, when the selected row is a group with processes;
/// otherwise `new` is `old`.
pub open spec fn toggled_current(old: &App, new: &App) -> bool {
    let rows = old.rows_view();
    match old.table_state@ {
        Some(s) => if s < rows.len() && rows[s as int].is_group && rows[s as int].has_children {
            &&& new.expanded_pids@ == toggled(old.expanded_pids@, rows[s as int].pid)
            &&& new.groups_current()
            &&& new.system == old.system
            &&& new.table_state == old.table_state
            &&& new.sort_mode == old.sort_mode
            &&& new.sort_ascending == old.sort_ascending
            &&& new.search_active == old.search_active
            &&& new.filter_text == old.filter_text
        } else {
            *new == *old
        },
        None => *new == *old,
    }
}

/// `new` is `old` sorted by `mode` (see `toggled_sort`), with the groups
/// rebuilt in the new order.
pub open spec fn resorted(old: &App, new: &App, mode: SortMode) -> bool {
    &&& (new.sort_mode, new.sort_ascending) == toggled_sort(old.sort_mode, old.sort_ascending, mode)
    &&& new.groups_current()
    &&& new.system == old.system
    &&& new.table_state == old.table_state
    &&& new.expanded_pids == old.expanded_pids
    &&& new.search_active == old.search_active
    &&& new.filter_text == old.filter_text
}

impl App {
    /// The snapshot is one the grouping accepts, and every group's keys
    /// can be computed.
    pub open spec fn wf(&self) -> bool {
        &&& snapshot_fits(self.system.procs())
        &&& self.groups_fit()
    }

    /// Every group's keys, and its rows, can be computed without overflow.
    pub open spec fn groups_fit(&self) -> bool {
        forall|i: int| 0 <= i < self.groups@.len() ==> group_fits(#[trigger] self.groups@[i])
    }

    /// The groups, as shown.
    pub open spec fn groups_view(&self) -> Seq<GroupView> {
        group_views(self.groups@)
    }

    /// The groups that the snapshot and the expanded pids give, before
    /// ordering.
    pub open spec fn grouped(&self) -> Seq<GroupView> {
        unsorted_groups(self.system.procs(), self.system.group_by_app_name, self.expanded_pids@)
    }

    /// The groups are those of the snapshot, in the order of the sort mode
    /// and direction.
    pub open spec fn groups_current(&self) -> bool {
        groups_arranged(self.groups_view(), self.grouped(), self.sort_mode, self.sort_ascending)
    }

    /// The rows of the table.
    pub open spec fn rows_view(&self) -> Seq<RowView> {
        visible_rows(self.groups_view(), self.filter_text@)
    }

    /// `self` and `other` agree on everything but the selection.
    pub open spec fn same_but_selection(&self, other: &App) -> bool {
        &&& self.system == other.system
        &&& self.groups == other.groups
        &&& self.expanded_pids == other.expanded_pids
        &&& self.sort_mode == other.sort_mode
        &&& self.sort_ascending == other.sort_ascending
        &&& self.search_active == other.search_active
        &&& self.filter_text == other.filter_text
    }

    /// `self` and `other` agree on everything but the groups.
    pub open spec fn same_but_groups(&self, other: &App) -> bool {
        &&& self.system == other.system
        &&& self.table_state == other.table_state
        &&& self.expanded_pids == other.expanded_pids
        &&& self.sort_mode == other.sort_mode
        &&& self.sort_ascending == other.sort_ascending
        &&& self.search_active == other.search_active
        &&& self.filter_text == other.filter_text
    }

    /// A monitor over `system`: groups ordered by CPU usage, highest first;
    /// none expanded; no search; the first row selected.
    pub fn new(system: SystemSnapshot) -> (app: App)
        requires
            snapshot_fits(system.procs()),
        ensures
            app.wf(),
            app.groups_current(),
            app.system == system,
            app.table_state@ == Some(0usize),
            app.expanded_pids@ == Set::<u32>::empty(),
            app.sort_mode == SortMode::Cpu,
            !app.sort_ascending,
            !app.search_active,
            app.filter_text@.len() == 0,
    {
        let mut table_state = TableState::new();
        table_state.select(Some(0));
        let mut app = App {
            system,
            table_state,
            groups: Vec::new(),
            expanded_pids: HashSet::new(),
            sort_mode: SortMode::Cpu,
            sort_ascending: false,
            search_active: false,
            filter_text: String::new(),
        };
        app.build_groups();
        app
    }

    /// Takes a new snapshot and groups it afresh.
    pub fn refresh(&mut self, system: SystemSnapshot)
        requires
            snapshot_fits(system.procs()),
        ensures
            final(self).wf(),
            final(self).groups_current(),
            final(self).system == system,
            final(self).table_state == old(self).table_state,
            final(self).expanded_pids == old(self).expanded_pids,
            final(self).sort_mode == old(self).sort_mode,
            final(self).sort_ascending == old(self).sort_ascending,
            final(self).search_active == old(self).search_active,
            final(self).filter_text == old(self).filter_text,
    {
        self.system = system;
        self.build_groups();
    }

    /// Groups the snapshot afresh, in the current order.
    pub fn build_groups(&mut self)
        requires
            snapshot_fits(old(self).system.procs()),
        ensures
            final(self).wf(),
            final(self).groups_current(),
            final(self).same_but_groups(old(self)),
    {
        let mut groups = group_processes(&self.system, &self.expanded_pids);
        self.sort_groups(&mut groups);
        self.groups = groups;
    }

    /// Orders groups, and the processes inside each, by the current sort
    /// mode and direction; equal keys keep their order.
    pub fn sort_groups(&self, groups: &mut Vec<ProcessGroup>)
        requires
            forall|i: int| 0 <= i < old(groups)@.len() ==> group_fits(#[trigger] old(groups)@[i]),
        ensures
            groups_arranged(group_views(final(groups)@), group_views(old(groups)@), self.sort_mode, self.sort_ascending),
            forall|i: int| 0 <= i < final(groups)@.len() ==> group_fits(#[trigger] final(groups)@[i]),
    {
        sort_group_list(groups, self.sort_mode, self.sort_ascending);
    }

    /// The CPU usage of the whole system, in units of `CPU_UNITS_PER_PERCENT`
    /// per percent.
    pub fn get_cpu_usage(&self) -> (r: u64)
        ensures
            r == self.system.cpu_usage,
    {
        self.system.cpu_usage
    }

    /// The used and the total memory of the system.
    pub fn get_memory_usage(&self) -> (r: (u64, u64))
        ensures
            r == (self.system.used_memory, self.system.total_memory),
    {
        (self.system.used_memory, self.system.total_memory)
    }

    /// The rows of the table.
    pub fn get_visible_rows(&self) -> (rows: Vec<DisplayRow>)
        requires
            self.groups_fit(),
        ensures
            row_views(rows@) == self.rows_view(),
    {
        rows_for(&self.groups, &self.filter_text)
    }

    /// The number of rows of the table.
    pub fn visible_row_count(&self) -> (n: usize)
        requires
            self.groups_fit(),
        ensures
            n == self.rows_view().len(),
    {
        let rows = self.get_visible_rows();
        assert(row_views(rows@).len() == rows@.len());
        rows.len()
    }

    /// Moves the selection down one row.
    pub fn next(&mut self)
        requires
            old(self).groups_fit(),
        ensures
            moved_down(old(self), final(self)),
    {
        let count = self.visible_row_count();
        if count == 0 {
            return;
        }
        let i = match self.table_state.selected() {
            Some(i) => {
                if i >= count - 1 {
                    i
                } else {
                    i + 1
                }
            },
            None => 0,
        };
        self.table_state.select(Some(i));
    }

    /// Moves the selection up one row.
    pub fn previous(&mut self)
        requires
            old(self).groups_fit(),
        ensures
            moved_up(old(self), final(self)),
    {
        let count = self.visible_row_count();
        if count == 0 {
            return;
        }
        let i = match self.table_state.selected() {
            Some(i) => {
                if i == 0 {
                    0
                } else {
                    i - 1
                }
            },
            None => 0,
        };
        self.table_state.select(Some(i));
    }

    /// Expands the selected group, or collapses it if it is expanded, when
    /// the selected row is a group with processes; then groups afresh.
    pub fn toggle_current(&mut self)
        requires
            old(self).wf(),
        ensures
            final(self).wf(),
            toggled_current(old(self), final(self)),
    {
        let rows = self.get_visible_rows();
        if let Some(selected) = self.table_state.selected() {
            if selected < rows.len() {
                let row = &rows[selected];
                assert(row@ == self.rows_view()[selected as int]);
                if row.is_group && row.has_children {
                    let pid = row.pid;
                    if self.expanded_pids.contains(&pid) {
                        self.expanded_pids.remove(&pid);
                    } else {
                        self.expanded_pids.insert(pid);
                    }
                    self.build_groups();
                }
            }
        }
    }

    /// Sorts by `mode`: again by the current mode reverses the direction,
    /// by another mode starts descending. Then groups afresh.
    pub fn toggle_sort_mode(&mut self, mode: SortMode)
        requires
            old(self).wf(),
        ensures
            final(self).wf(),
            resorted(old(self), final(self), mode),
    {
        if self.sort_mode == mode {
            self.sort_ascending = !self.sort_ascending;
        } else {
            self.sort_mode = mode;
            self.sort_ascending = false;
        }
        self.build_groups();
    }
}

} // verus!
