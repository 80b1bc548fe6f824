//! Allocation of peer identifiers.
use vstd::prelude::*;

verus! {

/// A peer identifier: unique for the lifetime of the process.
pub type PeerId = u64;

/// Hands out peer identifiers from a counter that starts at one and only grows.
pub struct PeerIdAllocator {
    next: u64,
}

impl PeerIdAllocator {
    /// The identifier that the next call of `allocate` hands out.
    pub closed spec fn next_spec(&self) -> nat {
        self.next as nat
    }

    pub fn new() -> (r: PeerIdAllocator)
        ensures
            r.next_spec() == 1,
    {
        PeerIdAllocator { next: 1 }
    }

    /// Returns a fresh identifier, or `None` once the counter is exhausted.
    /// Every identifier handed out is below `next_spec` afterwards, so none is issued twice.
    pub fn allocate(&mut self) -> (r: Option<PeerId>)
        ensures
            old(self).next_spec() < u64::MAX ==> r == Some(old(self).next_spec() as u64)
                && final(self).next_spec() == old(self).next_spec() + 1,
            old(self).next_spec() >= u64::MAX ==> r is None && final(self).next_spec()
                == old(self).next_spec(),
    {
        if self.next == u64::MAX {
            None
        } else {
            let id = self.next;
            self.next = self.next + 1;
            Some(id)
        }
    }
}

} // verus!
