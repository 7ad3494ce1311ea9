//! A double-ended read cursor over a list.
use crate::listindex::ListIndex;
use crate::IndexList;
use vstd::prelude::*;

verus! {

/// A double-ended cursor over the elements of an [`IndexList`].
///
/// The cursor holds the handles of the next element to yield from the front
/// (`start`) and from the back (`end`), and the number of elements not yet
/// yielded.  It borrows nothing: each step takes the list it was built from,
/// which must not have been mutated in between.
#[derive(Clone, Copy, Debug)]
pub struct ListIter {
    pub(crate) start: ListIndex,
    pub(crate) end: ListIndex,
    pub(crate) len: usize,
}

impl ListIter {
    /// The cursor denotes the `self.len` positions of `list` that end at
    /// `list.pos_of(self.end)`: both boundary handles are valid and exactly
    /// `self.len` positions lie between them.  An exhausted cursor holds two
    /// null handles.
    pub closed spec fn valid_for<T>(self, list: IndexList<T>) -> bool {
        if self.len == 0 {
            self.start@ is None && self.end@ is None
        } else {
            &&& list.valid(self.start)
            &&& list.valid(self.end)
            &&& list.pos_of(self.end) - list.pos_of(self.start) + 1 == self.len
        }
    }

    /// The position of the next element yielded from the front.
    pub closed spec fn front_pos<T>(self, list: IndexList<T>) -> int {
        list.pos_of(self.start)
    }

    /// The position of the next element yielded from the back.
    pub closed spec fn back_pos<T>(self, list: IndexList<T>) -> int {
        list.pos_of(self.end)
    }

    pub(crate) fn set_empty(&mut self)
        ensures
            final(self).start@ is None,
            final(self).end@ is None,
            final(self).len == 0,
    {
        self.start = ListIndex::new();
        self.end = ListIndex::new();
        self.len = 0;
    }

    /// How many elements the cursor has yet to handle.
    pub closed spec fn remaining(self) -> int {
        self.len as int
    }

    /// A cursor over the whole of `list`, front at the first element and
    /// back at the last.
    pub(crate) fn fresh<T>(list: &IndexList<T>) -> (r: ListIter)
        requires
            list.wf(),
        ensures
            r.valid_for(*list),
            r.remaining() == list@.len(),
            list@.len() > 0 ==> r.front_pos(*list) == 0 && r.back_pos(*list) == list@.len() - 1,
    {
        proof {
            if list@.len() > 0 {
                list.lemma_order_pos(0);
                list.lemma_order_pos(list.order().len() - 1);
            }
        }
        ListIter { start: list.first_index(), end: list.last_index(), len: list.len() }
    }

    /// Yields a reference to the next element from the front, or `None`
    /// once the cursor is exhausted.  `list` must be the unchanged list the
    /// cursor was built over.
    pub fn next<'a, T>(&mut self, list: &'a IndexList<T>) -> (r: Option<&'a T>)
        requires
            list.wf(),
            old(self).valid_for(*list),
        ensures
            final(self).valid_for(*list),
            old(self).remaining() == 0 ==> r is None && *final(self) == *old(self),
            old(self).remaining() > 0 ==> ({
                &&& r is Some
                &&& r.unwrap() == list@[old(self).front_pos(*list)]
                &&& final(self).remaining() == old(self).remaining() - 1
                &&& final(self).remaining() > 0 ==> final(self).front_pos(*list) == old(
                    self,
                ).front_pos(*list) + 1 && final(self).back_pos(*list) == old(self).back_pos(*list)
            }),
    {
        let item = list.get(self.start);
        match item {
            None => {
                proof {
                    if self.len > 0 {
                        assert(list.valid(self.start));
                    }
                }
                None
            },
            Some(x) => {
                proof {
                    assert(self.len > 0);
                    let ps = list.pos_of(self.start);
                    let pe = list.pos_of(self.end);
                    assert(0 <= ps < list.order().len() && list.order()[ps] == self.start@.unwrap());
                    assert(0 <= pe < list.order().len() && list.order()[pe] == self.end@.unwrap());
                    if ps == pe {
                        ListIndex::lemma_eq_view(self.start, self.end);
                        assert(self.start == self.end);
                    }
                }
                if self.start == self.end {
                    self.set_empty();
                } else {
                    let ghost ps = list.pos_of(self.start);
                    self.start = list.next_index(self.start);
                    self.len = self.len - 1;
                    proof {
                        list.lemma_order_pos(ps);
                        list.lemma_order_pos(ps + 1);
                    }
                }
                Some(x)
            },
        }
    }

    /// Yields a reference to the next element from the back, or `None` once
    /// the cursor is exhausted.  `list` must be the unchanged list the
    /// cursor was built over.
    pub fn next_back<'a, T>(&mut self, list: &'a IndexList<T>) -> (r: Option<&'a T>)
        requires
            list.wf(),
            old(self).valid_for(*list),
        ensures
            final(self).valid_for(*list),
            old(self).remaining() == 0 ==> r is None && *final(self) == *old(self),
            old(self).remaining() > 0 ==> ({
                &&& r is Some
                &&& r.unwrap() == list@[old(self).back_pos(*list)]
                &&& final(self).remaining() == old(self).remaining() - 1
                &&& final(self).remaining() > 0 ==> final(self).back_pos(*list) == old(
                    self,
                ).back_pos(*list) - 1 && final(self).front_pos(*list) == old(self).front_pos(*list)
            }),
    {
        let item = list.get(self.end);
        match item {
            None => {
                proof {
                    if self.len > 0 {
                        assert(list.valid(self.end));
                    }
                }
                None
            },
            Some(x) => {
                proof {
                    assert(self.len > 0);
                    let ps = list.pos_of(self.start);
                    let pe = list.pos_of(self.end);
                    assert(0 <= ps < list.order().len() && list.order()[ps] == self.start@.unwrap());
                    assert(0 <= pe < list.order().len() && list.order()[pe] == self.end@.unwrap());
                    if ps == pe {
                        ListIndex::lemma_eq_view(self.start, self.end);
                        assert(self.start == self.end);
                    }
                }
                if self.start == self.end {
                    self.set_empty();
                } else {
                    let ghost pe = list.pos_of(self.end);
                    self.end = list.prev_index(self.end);
                    self.len = self.len - 1;
                    proof {
                        list.lemma_order_pos(pe);
                        list.lemma_order_pos(pe - 1);
                    }
                }
                Some(x)
            },
        }
    }

    /// How many elements the cursor has yet to yield.
    pub fn size_hint(&self) -> (r: (usize, Option<usize>))
        ensures
            r.0 == self.remaining(),
            r.1 == Some(r.0),
    {
        (self.len, Some(self.len))
    }
}

} // verus!
