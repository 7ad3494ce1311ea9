//! The boundary record of one logical chain.
use crate::listindex::ListIndex;
use vstd::prelude::*;

verus! {

/// The head and tail handles of one logical chain (used or free).
///
/// Both are null exactly when the chain is empty.
#[derive(Clone, Copy, Debug)]
pub struct ListEnds {
    pub head: ListIndex,
    pub tail: ListIndex,
}

impl ListEnds {
    /// The ends of an empty chain.
    pub fn new() -> (r: ListEnds)
        ensures
            r.head@ is None,
            r.tail@ is None,
    {
        ListEnds { head: ListIndex::new(), tail: ListIndex::new() }
    }

    /// Resets both ends to null.
    pub fn clear(&mut self)
        ensures
            final(self).head@ is None,
            final(self).tail@ is None,
    {
        self.new_both(ListIndex::new());
    }

    /// Returns `true` when the chain has no head.
    pub fn is_empty(&self) -> (r: bool)
        ensures
            r == (self.head@ is None),
    {
        self.head.is_none()
    }

    /// Replaces the head handle, returning the head it held before.
    pub fn new_head(&mut self, head: ListIndex) -> (r: ListIndex)
        ensures
            r == old(self).head,
            final(self).head == head,
            final(self).tail == old(self).tail,
    {
        let r = self.head;
        self.head = head;
        r
    }

    /// Replaces the tail handle, returning the tail it held before.
    pub fn new_tail(&mut self, tail: ListIndex) -> (r: ListIndex)
        ensures
            r == old(self).tail,
            final(self).tail == tail,
            final(self).head == old(self).head,
    {
        let r = self.tail;
        self.tail = tail;
        r
    }

    /// Points both ends at the same slot.
    pub fn new_both(&mut self, both: ListIndex)
        ensures
            final(self).head == both,
            final(self).tail == both,
    {
        self.head = both;
        self.tail = both;
    }
}

} // verus!
