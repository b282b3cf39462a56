//! A time-gated asset release engine.
//!
//! The library holds the unlock-schedule data model, its validation rules,
//! and the claim-settlement algorithm of a token lockup. Two variants of the
//! engine share the settlement arithmetic:
//!
//! * a time-watermarked variant ([`contract::TokenLockup`]) that keeps a
//!   per-asset watermark of the last claim time and never mutates its
//!   schedule while claiming, and
//! * a sequence-consuming variant ([`sequence::TokenLockup`]) that keys
//!   checkpoints by a ledger sequence number and destructively removes every
//!   checkpoint up to the claimed one.
//!
//! Identity checks, durable storage and asset transfers are collaborators at
//! the host boundary: callers authenticate the invoker, query live balances
//! and execute transfers, while every decision — which schedules are legal,
//! how much each claim releases, and how progress state advances — is made
//! and proved here, on plain values.

pub mod contract;
pub mod errors;
pub mod sequence;
pub mod settlement;
pub mod types;
pub mod unlocks;
pub mod validation;
