//! The records the monitor works on: processes as read from the system,
//! application groups, table rows, and the sort modes.
//!
//! CPU usage is carried as a fixed-point integer: the percentage times
//! `CPU_UNITS_PER_PERCENT` (2 to the 40th). A single-precision reading of
//! at least 2 to the -17th percent is held exactly.
use vstd::prelude::*;

verus! {

/// The units of CPU usage in one percent.
pub const CPU_UNITS_PER_PERCENT: u64 = 0x100_0000_0000;

/// The column by which application groups (and the processes in each
/// group) are ordered.
#[derive(Clone, Copy, Debug, PartialEq, Eq, Structural)]
pub enum SortMode {
    Cpu,
    Memory,
    DiskIo,
    Name,
}

/// The text shown for a sort mode in the table's title.
pub open spec fn sort_mode_label(mode: SortMode) -> Seq<char> {
    match mode {
        SortMode::Cpu => "CPU"@,
        SortMode::Memory => "MEM"@,
        SortMode::DiskIo => "DISK"@,
        SortMode::Name => "NAME"@,
    }
}

impl SortMode {
    /// The short label of this sort mode.
    pub fn label(&self) -> (r: &'static str)
        ensures
            r@ == sort_mode_label(*self),
    {
        match self {
            SortMode::Cpu => "CPU",
            SortMode::Memory => "MEM",
            SortMode::DiskIo => "DISK",
            SortMode::Name => "NAME",
        }
    }
}

/// One process as read from the system, with what the platform reports of
/// it: the process responsible for it and its process group.
#[derive(Clone, Debug)]
pub struct ProcessSnapshot {
    pub pid: u32,
    pub parent: Option<u32>,
    pub name: String,
    pub cpu_usage: u64,
    pub memory: u64,
    pub disk_read: u64,
    pub disk_write: u64,
    pub responsible: Option<u32>,
    pub process_group: Option<u32>,
}

/// The mathematical content of a `ProcessSnapshot`.
pub struct SnapView {
    pub pid: u32,
    pub parent: Option<u32>,
    pub name: Seq<char>,
    pub cpu_usage: int,
    pub memory: int,
    pub disk_read: int,
    pub disk_write: int,
    pub responsible: Option<u32>,
    pub process_group: Option<u32>,
}

impl View for ProcessSnapshot {
    type V = SnapView;

    open spec fn view(&self) -> SnapView {
        SnapView {
            pid: self.pid,
            parent: self.parent,
            name: self.name@,
            cpu_usage: self.cpu_usage as int,
            memory: self.memory as int,
            disk_read: self.disk_read as int,
            disk_write: self.disk_write as int,
            responsible: self.responsible,
            process_group: self.process_group,
        }
    }
}

/// Everything read from the system in one refresh: its processes (in the
/// order the system listed them), whether processes are also grouped by
/// application name and process group (as on macOS), the overall CPU usage
/// and the used and total memory.
#[derive(Clone, Debug)]
pub struct SystemSnapshot {
    pub processes: Vec<ProcessSnapshot>,
    pub group_by_app_name: bool,
    pub cpu_usage: u64,
    pub used_memory: u64,
    pub total_memory: u64,
}

impl SystemSnapshot {
    /// A snapshot of a system with no processes.
    pub fn new() -> (s: SystemSnapshot)
        ensures
            s.processes@.len() == 0,
            !s.group_by_app_name,
            s.cpu_usage == 0,
            s.used_memory == 0,
            s.total_memory == 0,
    {
        SystemSnapshot {
            processes: Vec::new(),
            group_by_app_name: false,
            cpu_usage: 0,
            used_memory: 0,
            total_memory: 0,
        }
    }

    /// The views of the processes, in order.
    pub open spec fn procs(&self) -> Seq<SnapView> {
        self.processes@.map_values(|p: ProcessSnapshot| p@)
    }
}

/// A process shown inside an application group.
#[derive(Clone, Debug)]
pub struct ProcessInfo {
    pub pid: u32,
    pub name: String,
    pub cpu_usage: u64,
    pub memory: u64,
    pub disk_read: u64,
    pub disk_write: u64,
}

/// The mathematical content of a `ProcessInfo`.
pub struct InfoView {
    pub pid: u32,
    pub name: Seq<char>,
    pub cpu_usage: int,
    pub memory: int,
    pub disk_read: int,
    pub disk_write: int,
}

impl View for ProcessInfo {
    type V = InfoView;

    open spec fn view(&self) -> InfoView {
        InfoView {
            pid: self.pid,
            name: self.name@,
            cpu_usage: self.cpu_usage as int,
            memory: self.memory as int,
            disk_read: self.disk_read as int,
            disk_write: self.disk_write as int,
        }
    }
}

/// An application: a root process with the processes grouped under it, and
/// the usage of all of them added up.
#[derive(Clone, Debug)]
pub struct ProcessGroup {
    pub pid: u32,
    pub name: String,
    pub cpu_usage: u64,
    pub memory: u64,
    pub disk_read: u64,
    pub disk_write: u64,
    pub children: Vec<ProcessInfo>,
    pub expanded: bool,
}

/// The mathematical content of a `ProcessGroup`.
pub struct GroupView {
    pub pid: u32,
    pub name: Seq<char>,
    pub cpu_usage: int,
    pub memory: int,
    pub disk_read: int,
    pub disk_write: int,
    pub children: Seq<InfoView>,
    pub expanded: bool,
}

/// The views of a sequence of processes.
pub open spec fn info_views(s: Seq<ProcessInfo>) -> Seq<InfoView> {
    s.map_values(|c: ProcessInfo| c@)
}

impl View for ProcessGroup {
    type V = GroupView;

    open spec fn view(&self) -> GroupView {
        GroupView {
            pid: self.pid,
            name: self.name@,
            cpu_usage: self.cpu_usage as int,
            memory: self.memory as int,
            disk_read: self.disk_read as int,
            disk_write: self.disk_write as int,
            children: info_views(self.children@),
            expanded: self.expanded,
        }
    }
}

/// The views of a sequence of groups.
pub open spec fn group_views(s: Seq<ProcessGroup>) -> Seq<GroupView> {
    s.map_values(|g: ProcessGroup| g@)
}

/// One line of the process table: a group or a process shown under it.
#[derive(Clone, Debug)]
pub struct DisplayRow {
    pub pid: u32,
    pub name: String,
    pub cpu_usage: u64,
    pub memory: u64,
    pub disk_io: u64,
    pub is_group: bool,
    pub expanded: bool,
    pub has_children: bool,
}

/// The mathematical content of a `DisplayRow`.
pub struct RowView {
    pub pid: u32,
    pub name: Seq<char>,
    pub cpu_usage: int,
    pub memory: int,
    pub disk_io: int,
    pub is_group: bool,
    pub expanded: bool,
    pub has_children: bool,
}

impl View for DisplayRow {
    type V = RowView;

    open spec fn view(&self) -> RowView {
        RowView {
            pid: self.pid,
            name: self.name@,
            cpu_usage: self.cpu_usage as int,
            memory: self.memory as int,
            disk_io: self.disk_io as int,
            is_group: self.is_group,
            expanded: self.expanded,
            has_children: self.has_children,
        }
    }
}

/// The views of a sequence of rows.
pub open spec fn row_views(s: Seq<DisplayRow>) -> Seq<RowView> {
    s.map_values(|r: DisplayRow| r@)
}

} // verus!
