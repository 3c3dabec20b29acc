//! The outcome of publishing a transaction to a shared holder.
//!
//! A holder that shares a [`Radix`](super::Radix) between threads publishes a new
//! version with a compare-and-swap against the version a transaction was opened
//! from; when another writer published in between, the transaction lost the race
//! and reports a [`Conflict`], and the caller retries on a fresh transaction.

use vstd::prelude::*;

verus! {

/// Returned when another writer published a new version between opening a
/// transaction and committing it.
#[derive(Debug, Clone, Copy, PartialEq, Eq, Structural, Default)]
pub struct Conflict;

impl Conflict {
    /// Returns a human-readable description of the conflict.
    pub fn as_str(&self) -> (r: &'static str)
        ensures
            r@ == "iradix commit conflict: the holder was updated since the transaction began"@,
    {
        "iradix commit conflict: the holder was updated since the transaction began"
    }
}

/// The outcome of publishing a transaction, given whether the compare-and-swap
/// found the holder still at the version the transaction was opened from: success
/// exactly then, a [`Conflict`] otherwise.
pub fn publish_outcome(base_was_current: bool) -> (r: Result<(), Conflict>)
    ensures
        r is Ok <==> base_was_current,
{
    if base_was_current {
        Ok(())
    } else {
        Err(Conflict)
    }
}

} // verus!
