//! The payment duty's handle onto the replica state it owns.
//!
//! A payment duty clears data payments against its section's transfer
//! replica before write requests travel on.  The clearing itself — the
//! consensus over transfers, the keys and the message wrapping — is out of
//! this library's scope; what belongs here is the duty's ownership of the
//! replica's durable state, which persists through a chunk store like every
//! other data-holding duty's state, and the access it hands out to it.

use vstd::prelude::*;

use crate::store::ChunkStore;
use crate::store::StoreView;

verus! {

/// The payment duty: owner of the chunk store holding its transfer
/// replica's durable state.
pub struct Payments {
    replica: ChunkStore,
}

impl View for Payments {
    type V = StoreView;

    closed spec fn view(&self) -> StoreView {
        self.replica@
    }
}

impl Payments {
    /// A payment duty over the store that persists its replica's state; the
    /// runner builds the store against the duty's configured root.
    pub fn new(replica: ChunkStore) -> (p: Payments)
        ensures
            p@ == replica@,
    {
        Payments { replica }
    }

    /// Mutable access to the replica state the duty owns, for the clearing
    /// logic around the library to read and update.
    pub fn replica_mut(&mut self) -> (r: &mut ChunkStore)
        ensures
            (*r)@ == old(self)@,
            final(self)@ == (*final(r))@,
    {
        &mut self.replica
    }
}

} // verus!
