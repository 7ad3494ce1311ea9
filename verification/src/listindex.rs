//! The handle type that names one slot of an arena-backed list.
use vstd::prelude::*;

verus! {

/// Identifies one slot of an `IndexList` arena, or no slot at all.
///
/// The zero-based slot number is stored one-based in a `u32`, so the all-zero
/// bit pattern is the null handle and the type stays four bytes wide.  The
/// view of a handle is the slot number it carries, if any.
#[derive(Clone, Copy, Debug, PartialEq, Eq, Structural)]
pub struct ListIndex {
    raw: u32,
}

impl View for ListIndex {
    type V = Option<int>;

    closed spec fn view(&self) -> Option<int> {
        if self.raw == 0 {
            None
        } else {
            Some(self.raw - 1)
        }
    }
}

impl ListIndex {
    /// The null handle, naming no slot.
    pub fn new() -> (r: ListIndex)
        ensures
            r@ is None,
    {
        ListIndex { raw: 0 }
    }

    /// Returns `true` for a handle that names a slot.
    pub fn is_some(&self) -> (r: bool)
        ensures
            r == (self@ is Some),
    {
        self.raw != 0
    }

    /// Returns `true` for the null handle.
    pub fn is_none(&self) -> (r: bool)
        ensures
            r == (self@ is None),
    {
        self.raw == 0
    }

    /// The zero-based slot number this handle names, or `None` for the null
    /// handle.
    pub fn get(&self) -> (r: Option<usize>)
        ensures
            r is Some <==> self@ is Some,
            r is Some ==> self@ == Some(r.unwrap() as int),
    {
        if self.raw == 0 {
            None
        } else {
            Some((self.raw - 1) as usize)
        }
    }

    /// Returns a copy of this handle redirected to the given slot number.
    ///
    /// `Some(n)` yields the handle of slot `n`, degraded to the null handle
    /// when `n` does not fit the backing word; `None` leaves the handle as it
    /// was.
    pub fn set(self, index: Option<usize>) -> (r: ListIndex)
        ensures
            r@ == (match index {
                None => self@,
                Some(n) => if n < u32::MAX as usize {
                    Some(n as int)
                } else {
                    None::<int>
                },
            }),
    {
        let mut r = self;
        if let Some(n) = index {
            if n < u32::MAX as usize {
                r.raw = n as u32 + 1;
            } else {
                r.raw = 0;
            }
        }
        r
    }

    /// Two handles are equal exactly when they name the same slot, or are
    /// both null.
    pub proof fn lemma_eq_view(a: ListIndex, b: ListIndex)
        ensures
            (a == b) <==> (a@ == b@),
    {
    }

    /// Every slot number a handle can carry fits the backing word.
    pub broadcast proof fn lemma_view_range(i: ListIndex)
        ensures
            (#[trigger] i@) is Some ==> 0 <= i@.unwrap() < u32::MAX,
    {
    }
}

impl Default for ListIndex {
    /// The default handle is the null handle.
    fn default() -> (r: ListIndex)
        ensures
            r@ is None,
    {
        ListIndex { raw: 0 }
    }
}

impl From<u32> for ListIndex {
    /// The handle of slot `index`, or null when `index` is too large to
    /// carry.
    fn from(index: u32) -> (r: ListIndex) {
        ListIndex::new().set(Some(index as usize))
    }
}

impl vstd::std_specs::convert::FromSpecImpl<u32> for ListIndex {
    open spec fn obeys_from_spec() -> bool {
        true
    }

    closed spec fn from_spec(index: u32) -> ListIndex {
        ListIndex { raw: if index < u32::MAX { (index + 1) as u32 } else { 0 } }
    }
}

impl From<u64> for ListIndex {
    /// The handle of slot `index`, or null when `index` is too large to
    /// carry.
    fn from(index: u64) -> (r: ListIndex) {
        if index < u32::MAX as u64 {
            ListIndex::new().set(Some(index as usize))
        } else {
            ListIndex::new()
        }
    }
}

impl vstd::std_specs::convert::FromSpecImpl<u64> for ListIndex {
    open spec fn obeys_from_spec() -> bool {
        true
    }

    closed spec fn from_spec(index: u64) -> ListIndex {
        ListIndex { raw: if index < u32::MAX as u64 { (index + 1) as u32 } else { 0 } }
    }
}

impl From<usize> for ListIndex {
    /// The handle of slot `index`, or null when `index` is too large to
    /// carry.
    fn from(index: usize) -> (r: ListIndex) {
        ListIndex::new().set(Some(index))
    }
}

impl vstd::std_specs::convert::FromSpecImpl<usize> for ListIndex {
    open spec fn obeys_from_spec() -> bool {
        true
    }

    closed spec fn from_spec(index: usize) -> ListIndex {
        ListIndex { raw: if index < u32::MAX as usize { (index + 1) as u32 } else { 0 } }
    }
}

impl From<Option<usize>> for ListIndex {
    /// The handle of the given slot, or the null handle for `None`.
    fn from(index: Option<usize>) -> (r: ListIndex) {
        ListIndex::new().set(index)
    }
}

impl vstd::std_specs::convert::FromSpecImpl<Option<usize>> for ListIndex {
    open spec fn obeys_from_spec() -> bool {
        true
    }

    closed spec fn from_spec(index: Option<usize>) -> ListIndex {
        ListIndex {
            raw: (match index {
                None => 0,
                Some(n) => if n < u32::MAX as usize {
                    (n + 1) as u32
                } else {
                    0
                },
            }),
        }
    }
}

} // verus!
