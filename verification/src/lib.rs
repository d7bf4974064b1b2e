//! A tree-processing engine for directory hierarchies: at every directory
//! it runs an ordered list of tasks against a point-in-time snapshot of
//! the directory's entries — rebuilding the snapshot whenever a task
//! mutates the directory — then filters the subdirectories through the
//! configured ignore rules and recurses into each survivor as an
//! independent unit of work.  The concrete tasks (such as sorting media
//! files into season directories), the snapshot reader, and the async
//! fan-out are pluggable collaborators around this crate.

pub mod cursor;
pub mod ignore;
pub mod paths;
pub mod season;
pub mod settings;
pub mod snapshot;
pub mod walker;

use vstd::prelude::*;

verus! {

/// Outcome of one task invocation on one directory.
///
/// `FilesChanged` is a success that additionally signals that the task
/// mutated the directory's contents, so the snapshot handed to the next
/// task must be rebuilt first.
#[derive(Clone, Copy, Debug, PartialEq, Eq, Structural)]
pub enum Status {
    Unchanged,
    Error,
    FilesChanged,
}

} // verus!
