# ttop

A minimal terminal process monitor. The library (`src/`) holds the
monitor's logic with its contracts and proofs; the terminal program
(`app/`) reads the system with sysinfo, draws with ratatui and crossterm,
and hands everything else to the library.

## Layout

- `src/domain.rs` — process snapshots, groups, table rows, sort modes.
- `src/grouping.rs` — which process is shown under which (platform
  responsibility, helper names, process-group leaders, parents) and the
  groups with their usage added up.
- `src/hierarchy.rs` — why the grouping is sound: each group lists its
  processes once, and its usage stays within the snapshot's.
- `src/order.rs` — sort keys and a stable sort, ascending or descending.
- `src/rows.rs` — the rows shown for a search filter.
- `src/state.rs` — the monitor's state: refresh, navigation, expanding
  groups, changing the sort.
- `src/events.rs` — what each key does.
- `src/format.rs` — sizes and percentages as text.
- `src/platform.rs` — helper-process names and the platform's reports.
- `src/text.rs` — case folding, substring search, lexicographic order.
- `src/laws.rs` — properties that span operations.

CPU usage is carried as a fixed-point integer: the percentage times 2^40.
