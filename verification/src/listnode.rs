//! The per-slot record of forward and backward links.
use crate::listindex::ListIndex;
use vstd::prelude::*;

verus! {

/// One per arena slot: the handles of the next and previous slot in whichever
/// logical chain (used or free) currently owns the slot.
#[derive(Clone, Copy, Debug)]
pub struct ListNode {
    pub next: ListIndex,
    pub prev: ListIndex,
}

impl ListNode {
    /// A node with both links null.
    pub fn new() -> (r: ListNode)
        ensures
            r.next@ is None,
            r.prev@ is None,
    {
        ListNode { next: ListIndex::new(), prev: ListIndex::new() }
    }

    /// Replaces the forward link, returning the link it held before.
    pub fn new_next(&mut self, next: ListIndex) -> (r: ListIndex)
        ensures
            r == old(self).next,
            final(self).next == next,
            final(self).prev == old(self).prev,
    {
        let r = self.next;
        self.next = next;
        r
    }

    /// Replaces the backward link, returning the link it held before.
    pub fn new_prev(&mut self, prev: ListIndex) -> (r: ListIndex)
        ensures
            r == old(self).prev,
            final(self).prev == prev,
            final(self).next == old(self).next,
    {
        let r = self.prev;
        self.prev = prev;
        r
    }
}

} // verus!
