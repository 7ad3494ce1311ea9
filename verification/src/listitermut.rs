//! A double-ended mutating cursor over a list.
use crate::listindex::ListIndex;
use crate::IndexList;
use vstd::prelude::*;

verus! {

/// A double-ended cursor that yields one exclusive mutable reference per
/// element, at most once per element over the cursor's lifetime.
///
/// Like [`crate::listiter::ListIter`] it holds only boundary handles and a
/// count; each step takes the list mutably and returns a reference into it,
/// so the borrow checker serialises the accesses while the chain invariant
/// guarantees no element is visited twice.
#[derive(Clone, Copy, Debug)]
pub struct ListIterMut {
    pub(crate) start: ListIndex,
    pub(crate) end: ListIndex,
    pub(crate) len: usize,
}

impl ListIterMut {
    /// The cursor denotes the `self.len` positions of `list` that end at
    /// `list.pos_of(self.end)`: both boundary handles are valid and exactly
    /// `self.len` positions lie between them.  An exhausted cursor holds two
    /// null handles.
    pub closed spec fn valid_for<T>(self, list: IndexList<T>) -> bool {
        if self.len == 0 {
            self.start@ is None && self.end@ is None
        } else {
            &&& list.valid(self.start)
            &&& list.valid(self.end)
            &&& list.pos_of(self.end) - list.pos_of(self.start) + 1 == self.len
        }
    }

    /// The position of the next element yielded from the front.
    pub closed spec fn front_pos<T>(self, list: IndexList<T>) -> int {
        list.pos_of(self.start)
    }

    /// The position of the next element yielded from the back.
    pub closed spec fn back_pos<T>(self, list: IndexList<T>) -> int {
        list.pos_of(self.end)
    }

    pub(crate) fn set_empty(&mut self)
        ensures
            final(self).start@ is None,
            final(self).end@ is None,
            final(self).len == 0,
    {
        self.start = ListIndex::new();
        self.end = ListIndex::new();
        self.len = 0;
    }

    /// How many elements the cursor has yet to handle.
    pub closed spec fn remaining(self) -> int {
        self.len as int
    }

    /// A cursor over the whole of `list`, front at the first element and
    /// back at the last.
    pub(crate) fn fresh<T>(list: &IndexList<T>) -> (r: ListIterMut)
        requires
            list.wf(),
        ensures
            r.valid_for(*list),
            r.remaining() == list@.len(),
            list@.len() > 0 ==> r.front_pos(*list) == 0 && r.back_pos(*list) == list@.len() - 1,
    {
        proof {
            if list@.len() > 0 {
                list.lemma_order_pos(0);
                list.lemma_order_pos(list.order().len() - 1);
            }
        }
        ListIterMut { start: list.first_index(), end: list.last_index(), len: list.len() }
    }

    /// Yields a mutable reference to the next element from the front, or
    /// `None` once the cursor is exhausted.  Writing through the reference
    /// replaces that element; the structure of `list` does not change, so
    /// the cursor stays good for it.
    pub fn next<'a, T>(&mut self, list: &'a mut IndexList<T>) -> (r: Option<&'a mut T>)
        requires
            old(list).wf(),
            old(self).valid_for(*old(list)),
        ensures
            final(list).wf(),
            final(list).order() == old(list).order(),
            final(self).valid_for(*final(list)),
            old(self).remaining() == 0 ==> r is None && *final(list) == *old(list) && *final(self)
                == *old(self),
            old(self).remaining() > 0 ==> ({
                let p = old(self).front_pos(*old(list));
                &&& r is Some
                &&& *r.unwrap() == old(list)@[p]
                &&& final(list)@ == old(list)@.update(p, *final(r.unwrap()))
                &&& final(self).remaining() == old(self).remaining() - 1
                &&& final(self).remaining() > 0 ==> final(self).front_pos(*final(list)) == p + 1
                    && final(self).back_pos(*final(list)) == old(self).back_pos(*old(list))
            }),
    {
        proof {
            if self.len > 0 {
                assert(list.valid(self.start));
                let ps = list.pos_of(self.start);
                let pe = list.pos_of(self.end);
                assert(0 <= ps < list.order().len() && list.order()[ps] == self.start@.unwrap());
                assert(0 <= pe < list.order().len() && list.order()[pe] == self.end@.unwrap());
                if ps == pe {
                    ListIndex::lemma_eq_view(self.start, self.end);
                    assert(self.start == self.end);
                }
                list.lemma_order_pos(ps);
                if ps + 1 < list.order().len() {
                    list.lemma_order_pos(ps + 1);
                }
            }
        }
        let at_end = if self.len > 0 {
            self.start == self.end
        } else {
            false
        };
        let next_start = list.next_index(self.start);
        let item = list.get_mut(self.start);
        match item {
            None => {
                proof {
                    assert(self.len == 0);
                }
                None
            },
            Some(x) => {
                if at_end {
                    self.set_empty();
                } else {
                    self.start = next_start;
                    self.len = self.len - 1;
                }
                Some(x)
            },
        }
    }

    /// Yields a mutable reference to the next element from the back, or
    /// `None` once the cursor is exhausted.  Writing through the reference
    /// replaces that element; the structure of `list` does not change, so
    /// the cursor stays good for it.
    pub fn next_back<'a, T>(&mut self, list: &'a mut IndexList<T>) -> (r: Option<&'a mut T>)
        requires
            old(list).wf(),
            old(self).valid_for(*old(list)),
        ensures
            final(list).wf(),
            final(list).order() == old(list).order(),
            final(self).valid_for(*final(list)),
            old(self).remaining() == 0 ==> r is None && *final(list) == *old(list) && *final(self)
                == *old(self),
            old(self).remaining() > 0 ==> ({
                let p = old(self).back_pos(*old(list));
                &&& r is Some
                &&& *r.unwrap() == old(list)@[p]
                &&& final(list)@ == old(list)@.update(p, *final(r.unwrap()))
                &&& final(self).remaining() == old(self).remaining() - 1
                &&& final(self).remaining() > 0 ==> final(self).back_pos(*final(list)) == p - 1
                    && final(self).front_pos(*final(list)) == old(self).front_pos(*old(list))
            }),
    {
        proof {
            if self.len > 0 {
                assert(list.valid(self.end));
                let ps = list.pos_of(self.start);
                let pe = list.pos_of(self.end);
                assert(0 <= ps < list.order().len() && list.order()[ps] == self.start@.unwrap());
                assert(0 <= pe < list.order().len() && list.order()[pe] == self.end@.unwrap());
                if ps == pe {
                    ListIndex::lemma_eq_view(self.start, self.end);
                    assert(self.start == self.end);
                }
                list.lemma_order_pos(pe);
                if pe > 0 {
                    list.lemma_order_pos(pe - 1);
                }
            }
        }
        let at_end = if self.len > 0 {
            self.start == self.end
        } else {
            false
        };
        let prev_end = list.prev_index(self.end);
        let item = list.get_mut(self.end);
        match item {
            None => {
                proof {
                    assert(self.len == 0);
                }
                None
            },
            Some(x) => {
                if at_end {
                    self.set_empty();
                } else {
                    self.end = prev_end;
                    self.len = self.len - 1;
                }
                Some(x)
            },
        }
    }

    /// How many elements the cursor has yet to yield.
    pub fn size_hint(&self) -> (r: (usize, Option<usize>))
        ensures
            r.0 == self.remaining(),
            r.1 == Some(r.0),
    {
        (self.len, Some(self.len))
    }
}

} // verus!
