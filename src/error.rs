//! The library's error kinds.

use vstd::prelude::*;

verus! {

/// Why an operation failed.
#[derive(Debug, PartialEq, Eq)]
pub enum GutsError {
    /// No object is stored under this id.
    ObjectNotFound(String),
    /// Stored bytes do not decode as an object, or an object is not of the
    /// kind that was needed.
    MalformedObject,
    /// No probed ref resolved this name.
    RefNotFound(String),
    /// The operation needs HEAD to name a branch, and it holds a bare id.
    DetachedHeadUnsupported,
    /// The working directory differs from what HEAD's tree records.
    UncommittedChanges,
    /// Both sides of a merge changed this path in different ways.
    MergeConflict(String),
    /// The two histories share no commit.
    NoCommonAncestor,
    /// A branch of this name already exists.
    BranchExists(String),
    /// A staged id or a path is not in the form the operation needs.
    InvalidInput,
    /// A commit was asked for with nothing staged.
    NothingToCommit,
}

/// An error that reading from the object store can give.
pub open spec fn is_read_error(e: GutsError) -> bool {
    e is ObjectNotFound || e is MalformedObject
}

} // verus!
