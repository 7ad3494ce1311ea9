//! A double-ended draining cursor over a list.
use crate::IndexList;
use vstd::prelude::*;

verus! {

/// A double-ended draining cursor: each step removes and returns the first
/// or last element of the list it is stepped over, so the elements leave the
/// list as they are yielded.
///
/// The cursor holds only the count of elements it has yet to drain; the list
/// itself is passed to each step and must not be touched otherwise while the
/// drain is in progress.
#[derive(Clone, Copy, Debug)]
pub struct ListDrainIter {
    pub(crate) len: usize,
}

impl ListDrainIter {
    /// The cursor still has to drain the whole of `list`.
    pub closed spec fn valid_for<T>(self, list: IndexList<T>) -> bool {
        self.len == list@.len()
    }

    /// A cursor that will drain all of `list`.
    pub fn new<T>(list: &mut IndexList<T>) -> (r: Self)
        requires
            old(list).wf(),
        ensures
            *final(list) == *old(list),
            r.valid_for(*final(list)),
    {
        ListDrainIter { len: list.len() }
    }

    /// How many elements the cursor has yet to handle.
    pub closed spec fn remaining(self) -> int {
        self.len as int
    }

    /// Removes and yields the first element of `list`, or `None` once the
    /// list is drained.
    pub fn next<T>(&mut self, list: &mut IndexList<T>) -> (r: Option<T>)
        requires
            old(list).wf(),
            old(self).valid_for(*old(list)),
        ensures
            final(list).wf(),
            final(self).valid_for(*final(list)),
            old(list)@.len() == 0 ==> r is None && *final(list) == *old(list),
            old(list)@.len() > 0 ==> r == Some(old(list)@[0]) && final(list)@ == old(
                list,
            )@.drop_first(),
    {
        let r = list.remove_first();
        self.len = list.len();
        r
    }

    /// Removes and yields the last element of `list`, or `None` once the
    /// list is drained.
    pub fn next_back<T>(&mut self, list: &mut IndexList<T>) -> (r: Option<T>)
        requires
            old(list).wf(),
            old(self).valid_for(*old(list)),
        ensures
            final(list).wf(),
            final(self).valid_for(*final(list)),
            old(list)@.len() == 0 ==> r is None && *final(list) == *old(list),
            old(list)@.len() > 0 ==> r == Some(old(list)@[old(list)@.len() - 1]) && final(list)@
                == old(list)@.drop_last(),
    {
        let r = list.remove_last();
        self.len = list.len();
        r
    }

    /// Removes everything the cursor has not yet drained, leaving `list`
    /// empty, as dropping a draining iterator does.
    pub fn finish<T>(&mut self, list: &mut IndexList<T>)
        requires
            old(list).wf(),
        ensures
            final(list).wf(),
            final(list)@.len() == 0,
            final(self).valid_for(*final(list)),
    {
        list.clear();
        self.len = 0;
    }

    /// How many elements the cursor has yet to drain.
    pub fn size_hint(&self) -> (r: (usize, Option<usize>))
        ensures
            r.0 == self.remaining(),
            r.1 == Some(r.0),
    {
        (self.len, Some(self.len))
    }
}

} // verus!
