//! A quota-bounded, content-addressed key/value chunk store.
//!
//! The store accepts opaque byte keys and byte values, names each chunk with a
//! deterministic filesystem-safe name, and keeps a running account of the
//! space its chunks occupy, never exceeding a fixed ceiling.  Durability is
//! decoupled from acceptance: `put` returns once the bookkeeping is updated,
//! while the write of the chunk's bytes is carried out by a background worker
//! that the runner drives; the store records which chunks still have such a
//! write in flight and reaps the record for a key before that key is touched
//! again, so at most one write per key is ever in flight.
//!
//! The store itself is the verified bookkeeping core: it holds the accepted
//! contents, the space accounting and the pending-write records, all with
//! proved contracts.  A runner around the library mirrors every accepted
//! mutation onto a real directory (one file per chunk, written and synced by a
//! worker thread per accepted `put`) and holds the directory lock; the
//! decisions the runner needs — which file name a key gets, which files to
//! clear on acquisition — are verified functions of this library.

pub mod error;
pub mod guard;
pub mod map_storage;
pub mod naming;
pub mod payment;
pub mod space;
pub mod store;

pub use error::Error;
pub use store::ChunkStore;
