//! Velocity enforcement for a double-entry ledger.
//!
//! Given a batch of entries about to be committed in one ledger operation,
//! the library selects the entries whose accounts carry velocity controls,
//! groups them into rolling-balance buckets, folds each bucket's entries into
//! successive balance snapshots, enforces every configured limit after every
//! fold step, and appends the produced snapshot versions to the balance store.
//! A breached limit, or a condition that cannot be evaluated, aborts the whole
//! operation: nothing is written unless every step succeeds.

pub mod account_control;
pub mod context;
pub mod laws;
pub mod primitives;
pub mod selector;
pub mod snapshot;
pub mod store;
pub mod velocity;
