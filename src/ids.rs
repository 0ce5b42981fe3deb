//! Process-wide identifiers for logical entries.
use vstd::prelude::*;

verus! {

/// A monotonic counter that hands out identifiers in increasing order, so
/// that no identifier is handed out twice. Running past `u32::MAX` is not
/// supported: callers stop before the counter reaches it.
pub struct IdCounter {
    pub next: u32,
}

impl IdCounter {
    /// A counter whose first identifier is `1`; `0` stays free to mean
    /// "no parent".
    pub fn new() -> (r: IdCounter)
        ensures
            r.next == 1,
    {
        IdCounter { next: 1 }
    }

    /// Hands out the next identifier.
    pub fn next(&mut self) -> (r: u32)
        requires
            old(self).next < u32::MAX,
        ensures
            r == old(self).next,
            final(self).next == old(self).next + 1,
    {
        let r = self.next;
        self.next = self.next + 1;
        r
    }

    /// Makes sure that `id` is never handed out later.
    pub fn reserve(&mut self, id: u32)
        requires
            id < u32::MAX,
        ensures
            final(self).next == (if id >= old(self).next { id + 1 } else { old(self).next as int }),
    {
        if id >= self.next {
            self.next = id + 1;
        }
    }
}

} // verus!
