use vstd::prelude::*;

verus! {

/// What can go wrong in the operation log.
#[derive(PartialEq, Eq, Structural, Debug, Clone, Copy)]
pub enum OpLogError {
    /// An operation or view id that the store does not hold, or an operation
    /// that cannot be stored because it names one.
    NotFound,
    /// The head set changed between reading it and updating it.
    ConcurrentModification,
    /// A transaction lost a race on the head set; its changes were not applied.
    Retry,
    /// The workspace's recorded operation is neither an ancestor nor a
    /// descendant of the loaded operation.
    OperationDivergence { loaded: u64, checkout: u64 },
    /// A commit id that a view refers to cannot be resolved in commit storage.
    MissingReferent,
    /// Exporting the refs to the foreign repository failed as a whole.
    ExportFailed,
}

} // verus!
