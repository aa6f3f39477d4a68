//! Errors of the transaction pool.

use vstd::prelude::*;

verus! {

/// Why a pool operation did not take place.
#[derive(Debug, Copy, Clone, PartialEq, Eq, Structural)]
pub enum Error {
    /// No pooled transaction has the requested id or index.
    NotFound,
    /// The candidate does not outweigh the transactions it collides with.
    LessWorthy,
    /// A referenced coin or message does not exist or is spent, or a blob or
    /// contract to be created already exists.
    InvalidResource,
    /// A transaction with the same id is already pooled.
    AlreadyKnown,
    /// The pool is full and the candidate evicts nothing.
    CapacityExceeded,
    /// A mint transaction was offered; it has no maximum gas and is never pooled.
    MintNotPoolable,
}

} // verus!
