//! Why an operation of the engine fails.

use vstd::prelude::*;

verus! {

/// The failures of the engine. Each aborts the operation that met it and
/// leaves the workspace as it was.
#[derive(Clone, Copy, Debug, PartialEq, Eq, Structural)]
pub enum Error {
    /// At least one requested change could not be taken out: nothing was applied.
    IncompleteApplication,
    /// A stack, commit, object or replay step that was referred to does not exist.
    NotFound,
    /// A commit could not be re-applied cleanly onto its new parent.
    ReplayConflict,
    /// The object store could not take or hand out an object.
    StorageFault,
}

} // verus!
