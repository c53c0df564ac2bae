//! A process monitor's model: process snapshots grouped by application,
//! ordered, filtered and navigated.
pub mod display;
pub mod domain;
pub mod events;
pub mod format;
pub mod grouping;
pub mod hierarchy;
pub mod laws;
pub mod order;
pub mod platform;
pub mod rows;
pub mod state;
pub mod text;

pub use domain::{DisplayRow, ProcessGroup, ProcessInfo, ProcessSnapshot, SortMode, SystemSnapshot};
pub use events::{handle_normal_input, handle_search_input, Key};
pub use format::{format_bytes, format_memory};
pub use state::{App, TableState};
