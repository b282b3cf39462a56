//! Core data model: checkpoints of the unlock schedule and opaque principals.

use vstd::prelude::*;

verus! {

/// A single checkpoint of an unlock schedule: once `time` is reached, a
/// `percent` share (in basis points) of the asset balance still held becomes
/// releasable.
#[derive(Clone, Copy, PartialEq, Eq, Structural, Debug)]
pub struct Unlock {
    /// The ledger time (in seconds) the unlock occurs.
    pub time: u64,
    /// The amount of current tokens (in bps) to unlock.
    pub percent: u32,
}

/// An opaque principal or asset handle. The engine never looks inside an
/// address; it only compares addresses for identity, so a plain numeric
/// handle models the ledger's address type.
#[derive(Clone, Copy, PartialEq, Eq, Structural, Debug)]
pub struct Address {
    pub id: u64,
}

} // verus!
