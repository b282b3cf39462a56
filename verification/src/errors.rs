//! The error codes for the lockup engine.

use vstd::prelude::*;

verus! {

/// Everything that can make a lockup operation abort. Errors are fatal for
/// the call that raised them: no state mutation of a failed call is kept.
#[derive(Clone, Copy, PartialEq, Eq, Structural, Debug)]
pub enum TokenLockupError {
    /// `initialize` was called on an already initialized lockup.
    AlreadyInitializedError,
    /// The caller is not the principal the operation is reserved for.
    UnauthorizedError,
    /// A candidate schedule is empty, oversized, holds an invalid percent,
    /// or its thresholds are not strictly increasing.
    InvalidUnlocks,
    /// A schedule replacement would alter a checkpoint that has already been
    /// reached, or the existing schedule is already fully unlocked.
    AlreadyUnlocked,
    /// A checkpoint percent above the basis-point scale was supplied.
    InvalidPercentError,
    /// A claim or removal referenced a checkpoint that does not exist or is
    /// still in the future.
    InvalidUnlockSequenceError,
}

} // verus!
