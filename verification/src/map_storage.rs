//! The map duty's storage: it persists map chunks through the chunk store.
//!
//! The duty's message-level read and write handlers — permission checks,
//! envelopes, responses — belong to the network layer and are out of this
//! library's scope.  What they all drive is the persistence slice here: a
//! chunk store holding one serialised map per address.

use vstd::prelude::*;

use crate::error::Error;
use crate::naming::key_has_name;
use crate::store::put_accepted;
use crate::store::put_outcome;
use crate::store::reap_outcome;
use crate::store::ChunkStore;
use crate::store::StoreView;

verus! {

/// Storage for map chunks, each stored under its serialised address.
pub struct MapStorage {
    chunks: ChunkStore,
}

impl View for MapStorage {
    type V = StoreView;

    closed spec fn view(&self) -> StoreView {
        self.chunks@
    }
}

impl MapStorage {
    /// A fresh map storage over a chunk store that will hold at most
    /// `max_capacity` bytes; the runner supplies the root directory from its
    /// configuration and binds the store to it.
    pub fn new(max_capacity: u64) -> (s: MapStorage)
        ensures
            s@.max == max_capacity,
            s@.used == 0,
            s@.data == Map::<Seq<u8>, Seq<u8>>::empty(),
            s@.pending == Set::<Seq<u8>>::empty(),
    {
        MapStorage { chunks: ChunkStore::new(max_capacity) }
    }

    /// The map chunk stored under `address`: fails with `NotFound` when
    /// there is none.
    pub fn get_chunk(&self, address: &Vec<u8>) -> (r: Result<Vec<u8>, Error>)
        ensures
            match r {
                Ok(v) => self@.data.contains_key(address@) && v@ == self@.data[address@],
                Err(Error::NotFound) => key_has_name(address@) && !self@.data.contains_key(
                    address@,
                ),
                Err(Error::Serialisation) => !key_has_name(address@),
                Err(_) => false,
            },
    {
        self.chunks.get(address)
    }

    /// Store `data` as the map chunk under `address`, overwriting any chunk
    /// already there, within the store's quota rules.
    pub fn put_chunk(&mut self, address: &Vec<u8>, data: &Vec<u8>) -> (r: Result<(), Error>)
        ensures
            match r {
                Ok(()) => put_accepted(old(self)@, address@, data@) && final(self)@ == put_outcome(
                    old(self)@,
                    address@,
                    data@,
                ),
                Err(Error::Serialisation) => !key_has_name(address@) && final(self)@ == old(self)@,
                Err(Error::NotEnoughSpace) => key_has_name(address@) && old(self)@.used
                    + data@.len() > old(self)@.max && final(self)@ == reap_outcome(
                    old(self)@,
                    address@,
                ),
                Err(_) => false,
            },
    {
        self.chunks.put(address, data)
    }
}

} // verus!
