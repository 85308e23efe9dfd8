//! The library's error type: filesystem trouble, a state file that cannot
//! be understood, and rollback precondition violations, kept apart as the
//! callers report them differently.

use vstd::prelude::*;

verus! {

/// Why a deploy, rollback or load did not happen.
#[derive(Debug, PartialEq, Eq, Structural, Clone, Copy)]
pub enum Error {
    /// The file to deploy could not be read.
    SourceUnreadable,
    /// A state file exists but cannot be understood: unknown schema, bad
    /// syntax, broken invariants, or a target that is not its own. There is
    /// no repair path.
    StateCorrupt,
    /// Rollback with fewer than two retained deployments: there is nothing
    /// to roll back to.
    NothingToRollBack,
    /// Rollback to an id that is not among the retained deployments.
    UnknownRollbackId(u32),
    /// The next deployment id would not fit in 32 bits.
    IdSpaceExhausted,
    /// The clock reported an instant outside the supported year range.
    ClockOutOfRange,
}

} // verus!
