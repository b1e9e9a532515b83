use vstd::prelude::*;

verus! {

/// The ways an operation on the chunk store can fail.
///
/// Every error surfaces synchronously to the caller of the operation that
/// detected it; the store never retries internally.
#[derive(Debug, Clone, Copy, PartialEq, Eq, Structural)]
pub enum Error {
    /// A filesystem operation failed.  The verified core never produces this
    /// variant itself; the runner maps the I/O failures it meets onto it.
    Io,
    /// A key or value could not be encoded or decoded; in particular, a key
    /// too long to yield a chunk file name within the supported length.
    Serialisation,
    /// Accepting the value would push the used space above the ceiling.
    NotEnoughSpace,
    /// No chunk is stored under the requested key.
    NotFound,
    /// The root directory is already bound to another store instance.  Only
    /// the runner, which holds the directory lock, produces this variant.
    AlreadyLocked,
}

} // verus!
