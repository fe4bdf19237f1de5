//! The registry mints one fresh id per accepted connection: a monotonic
//! counter, so no id is ever handed out twice in the life of the process.

use vstd::prelude::*;

verus! {

/// Allocator of player ids. Ids below `next_id` have been handed out; ids at
/// or above it never have, so two calls can never return the same id.
pub struct Registry {
    pub next_id: u64,
}

impl Registry {
    pub fn new() -> (r: Registry)
        ensures
            r.next_id == 0,
    {
        Registry { next_id: 0 }
    }

    /// Mints the next player id. Monotonic and never reused: the returned id
    /// is exactly the old counter, and the counter only grows.
    pub fn allocate(&mut self) -> (id: u64)
        requires
            old(self).next_id < u64::MAX,
        ensures
            id == old(self).next_id,
            final(self).next_id == old(self).next_id + 1,
    {
        let id = self.next_id;
        self.next_id = self.next_id + 1;
        id
    }
}

} // verus!
