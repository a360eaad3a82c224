//! Snapshots of a process's virtual memory areas, as `/proc/<pid>/maps`
//! lists them, with the physical address of each area's first page, a
//! history of the snapshots that changed, coloured line diffs between them,
//! and the key handling of a terminal viewer over that history.
pub mod error;
pub mod text;
pub mod units;
pub mod maps;
pub mod diff_view;
pub mod info;
pub mod pagemap;
pub mod navigation;
pub mod header;
