//! Space accounting.
//!
//! The accountant tracks the bytes the store has accepted against a fixed
//! ceiling.  A `put` is checked against the ceiling strictly before any other
//! mutation; accepted bytes are credited, and the actual size of a chunk
//! being replaced or deleted is debited, clamped so the counter never
//! underflows.

use vstd::prelude::*;

use crate::error::Error;

verus! {

/// The used/maximum space bookkeeping of one store.
pub struct SpaceAccountant {
    max_space: u64,
    used_space: u64,
}

/// The abstract state of a `SpaceAccountant`: how many bytes are in use, and
/// how many it will hold at most.
pub struct SpaceView {
    pub used: int,
    pub max: int,
}

impl View for SpaceAccountant {
    type V = SpaceView;

    closed spec fn view(&self) -> SpaceView {
        SpaceView { used: self.used_space as int, max: self.max_space as int }
    }
}

impl SpaceAccountant {
    /// The used space never exceeds the ceiling.
    #[verifier::type_invariant]
    spec fn space_inv(self) -> bool {
        self.used_space <= self.max_space
    }

    /// A fresh accountant: nothing used yet.
    pub fn new(max_space: u64) -> (s: SpaceAccountant)
        ensures
            s@.max == max_space,
            s@.used == 0,
    {
        SpaceAccountant { max_space, used_space: 0 }
    }

    /// Whether `size` more bytes still fit: fails with `NotEnoughSpace`
    /// exactly when crediting `size` would push the used space above the
    /// ceiling.  Performed before any mutation of a `put`.
    pub fn check(&self, size: u64) -> (r: Result<(), Error>)
        ensures
            match r {
                Ok(()) => self@.used + size <= self@.max,
                Err(e) => e == Error::NotEnoughSpace && self@.used + size > self@.max,
            },
    {
        proof {
            use_type_invariant(&*self);
        }
        if size > self.max_space - self.used_space {
            Err(Error::NotEnoughSpace)
        } else {
            Ok(())
        }
    }

    /// Credit `size` accepted bytes.
    pub fn credit(&mut self, size: u64)
        requires
            old(self)@.used + size <= old(self)@.max,
        ensures
            final(self)@.used == old(self)@.used + size,
            final(self)@.max == old(self)@.max,
        no_unwind
    {
        self.used_space = self.used_space + size;
    }

    /// Debit the actual size of a chunk being replaced or removed, clamped so
    /// the counter never underflows below zero.
    pub fn debit(&mut self, size: u64)
        ensures
            final(self)@.max == old(self)@.max,
            final(self)@.used == if size <= old(self)@.used {
                old(self)@.used - size
            } else {
                0
            },
        no_unwind
    {
        proof {
            use_type_invariant(&*self);
        }
        if size <= self.used_space {
            self.used_space = self.used_space - size;
        } else {
            self.used_space = 0;
        }
    }

    /// The amount of storage space already used; it never exceeds the
    /// ceiling.
    pub fn used_space(&self) -> (r: u64)
        ensures
            r == self@.used,
            self@.used <= self@.max,
    {
        proof {
            use_type_invariant(&*self);
        }
        self.used_space
    }

    /// The maximum amount of storage space available.
    pub fn max_space(&self) -> (r: u64)
        ensures
            r == self@.max,
    {
        self.max_space
    }
}

} // verus!
