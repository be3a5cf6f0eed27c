//! The operation errors the ledger can surface.

use vstd::prelude::*;

verus! {

/// Why an operation failed.  Every failure is surfaced synchronously as
/// the operation's result; nothing is retried internally.
#[derive(Clone, Copy, Debug, PartialEq, Eq, Structural)]
pub enum Error {
    /// Identity initialization was attempted twice (or after a deposit had
    /// already created the collection).  Not retryable.
    AlreadyInitialized,
    /// A bad or missing credential was supplied for a read.
    Unauthorized,
    /// The namespace holds no collection of ours.
    NotACollection,
    /// A record index at or past the collection's length, or a full
    /// length counter.
    OutOfRange,
    /// The global configuration is missing: a mis-deployed instance.
    NotFound,
}

} // verus!
