use vstd::prelude::*;

verus! {

/// The kinds of failure of the stack operations.
#[derive(Debug, Clone, Copy, PartialEq, Eq, Structural)]
pub enum StackError {
    /// A mutating operation was attempted on a protected branch.
    ProtectedStack,
    /// The stack has no recorded state yet.
    NotInitialized,
    /// Spill was asked for with no applied patch.
    NoAppliedPatches,
    /// Unmerged entries or staged changes block the operation.
    DirtyWorkingTree,
    /// The live branch tip disagrees with the recorded stack head.
    HeadTopMismatch,
    /// A transaction's pending state breaks the stack's invariants.
    InvariantViolation,
    /// A patch name was unusable (empty, unknown, or already taken).
    InvalidPatchName,
    /// A commit that the operation needs is not in the repository.
    RepositoryError,
}

} // verus!
