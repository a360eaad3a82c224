//! Error kinds of the memory map reader.
use vstd::prelude::*;

verus! {

/// A process could not be found or opened.
#[derive(Debug, Clone, Copy, PartialEq, Eq, Structural)]
pub enum FileErr {
    ProcessErr,
}

/// Why a snapshot of a process's memory map, or the viewer, failed.
#[derive(Debug, Clone, Copy, PartialEq, Eq, Structural)]
pub enum InfoErr {
    /// A line of `/proc/<pid>/maps` could not be read.
    LineErr,
    /// An address range of `/proc/<pid>/maps` is not hexadecimal.
    AddrFmtErr,
    /// The page size could not be obtained.
    PageErr,
    /// The memory map listing holds no line.
    OutputErr,
    /// The process's memory map can no longer be opened.
    StoppedErr,
    /// A terminal event could not be read.
    EventErr,
    /// The terminal could not be drawn.
    DrawErr,
}

} // verus!
