use vstd::prelude::*;

verus! {

/// Outcome taxonomy for the persistent store.
///
/// `NotFound` is recoverable (the caller may treat it as an empty collection
/// to be created on first write); `Corrupt` means the content was present but
/// unparsable and must never be masked as empty; `IoFailure` covers
/// read/write faults reported by the unverified shell around the library.
#[derive(Clone, Copy, PartialEq, Eq, Structural, Debug)]
pub enum StoreError {
    NotFound,
    Corrupt,
    IoFailure,
}

/// Why a candidate schedule was rejected: the text did not parse as a
/// date-time, or the moment was not strictly in the future.
#[derive(Clone, Copy, PartialEq, Eq, Structural, Debug)]
pub enum ValidationError {
    BadFormat,
    NotFuture,
}

/// Result of a disarm request: either the record was active and is now
/// cleared, or there was nothing to do.
#[derive(Clone, Copy, PartialEq, Eq, Structural, Debug)]
pub enum DisarmOutcome {
    Disarmed,
    NoOp,
}

} // verus!
