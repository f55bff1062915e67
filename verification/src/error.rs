//! Error kinds surfaced by the storage, log and credential subsystems.
//!
//! Uniqueness violations and missing keys are ordinary control-flow results
//! that callers branch on; store-layer failures are fatal to the operation
//! but recoverable by retry or abort; `DbCorrupt` means a cross-table
//! invariant was already broken before the call and is surfaced distinctly
//! from `NotFound`.

use vstd::prelude::*;

verus! {

/// One failure kind of the storage and credential core.
#[derive(Clone, Copy, PartialEq, Eq, Structural, Debug, Hash)]
pub enum Error {
    /// Creating the store environment or one of its tables failed.
    DbCreate,
    /// Opening the store environment or one of its tables failed.
    DbOpen,
    /// A write failed at the store layer.
    DbWrite,
    /// An internal cross-table invariant was violated, e.g. a resolved node
    /// has no matching entry row.
    DbCorrupt,
    /// The requested key, child or path component is absent.
    NotFound,
    /// Beginning, cursoring or committing a transaction failed.
    Transaction,
    /// A uniqueness invariant (id, sibling name, or block id) would be
    /// violated.
    EntryAlreadyExists,
    /// Converting a record to or from its durable byte form failed.
    Serialize,
    /// The randomness source could not supply enough entropy.
    RandomnessUnavailable,
}

} // verus!
