//! A doubly-linked list whose nodes live in a contiguous arena.
//!
//! Elements are stored in a growable array and addressed by small integer
//! handles ([`ListIndex`]) instead of pointers.  A handle stays valid across
//! insertions, removals and repositionings of *other* elements, for as long
//! as the element it names is not removed.  Two intrusive chains thread the
//! arena: the used chain holds the occupied slots in list order, the free
//! chain holds the reclaimed slots awaiting reuse.
//!
//! The verified model of a list is the sequence of its elements in list
//! order (the view), together with the sequence of slot numbers that carry
//! them (`order`), so every contract can say exactly which handle names
//! which element.

pub mod listdrainiter;
pub mod listends;
pub mod listindex;
pub mod listiter;
pub mod listitermut;
pub mod listnode;

pub use crate::listdrainiter::ListDrainIter;
pub use crate::listends::ListEnds;
pub use crate::listindex::ListIndex;
pub use crate::listiter::ListIter;
pub use crate::listitermut::ListIterMut;
pub use crate::listnode::ListNode;
use vstd::prelude::*;
use vstd::std_specs::cmp::PartialEqSpec;

verus! {

broadcast use crate::listindex::ListIndex::lemma_view_range;

/// The handle type under its older name.
pub type Index = ListIndex;

/// Slot `order[k]` holds correct links for position `k` of its chain: its
/// backward link names `order[k - 1]` (null at the head) and its forward link
/// names `order[k + 1]` (null at the tail).
spec fn chain_node_ok(nodes: Seq<ListNode>, order: Seq<int>, k: int) -> bool {
    &&& 0 <= order[k] < nodes.len()
    &&& nodes[order[k]].prev@ == (if k == 0 {
        None::<int>
    } else {
        Some(order[k - 1])
    })
    &&& nodes[order[k]].next@ == (if k == order.len() - 1 {
        None::<int>
    } else {
        Some(order[k + 1])
    })
}

/// `order` lists the slots of one coherent chain: every position is linked to
/// its neighbours and `ends` names the first and last slot (null when empty).
spec fn chain_ok(nodes: Seq<ListNode>, order: Seq<int>, ends: ListEnds) -> bool {
    &&& forall|k: int| 0 <= k < order.len() ==> #[trigger] chain_node_ok(nodes, order, k)
    &&& ends.head@ == (if order.len() == 0 {
        None::<int>
    } else {
        Some(order[0])
    })
    &&& ends.tail@ == (if order.len() == 0 {
        None::<int>
    } else {
        Some(order[order.len() - 1])
    })
}

/// Inserting `x` at position `p` makes the sequence contain exactly the old
/// members and `x`.
proof fn lemma_insert_contains(s: Seq<int>, p: int, x: int, y: int)
    requires
        0 <= p <= s.len(),
    ensures
        s.insert(p, x).contains(y) <==> (s.contains(y) || y == x),
{
    s.insert_ensures(p, x);
    let t = s.insert(p, x);
    if s.contains(y) {
        let i = choose|i: int| 0 <= i < s.len() && s[i] == y;
        if i < p {
            assert(t[i] == y);
        } else {
            assert(t[i + 1] == y);
        }
        assert(t.contains(y));
    }
    if y == x {
        assert(t[p] == y);
        assert(t.contains(y));
    }
    if t.contains(y) && y != x {
        let i = choose|i: int| 0 <= i < t.len() && t[i] == y;
        if i < p {
            assert(s[i] == y);
            assert(s.contains(y));
        } else if i == p {
            assert(t[p] == x);
        } else {
            assert(s[i - 1] == y);
            assert(s.contains(y));
        }
    }
}

/// Inserting a fresh value keeps a sequence duplicate-free.
proof fn lemma_insert_no_duplicates(s: Seq<int>, p: int, x: int)
    requires
        0 <= p <= s.len(),
        s.no_duplicates(),
        !s.contains(x),
    ensures
        s.insert(p, x).no_duplicates(),
{
    s.insert_ensures(p, x);
    let t = s.insert(p, x);
    assert forall|i: int, j: int| 0 <= i < t.len() && 0 <= j < t.len() && i != j implies t[i]
        != t[j] by {
        if i != p && j != p {
            let si: int = if i < p {
                i
            } else {
                i - 1
            };
            let sj: int = if j < p {
                j
            } else {
                j - 1
            };
            assert(t[i] == s[si] && t[j] == s[sj]);
            assert(s[si] != s[sj]);
        } else if i == p {
            let sj: int = if j < p {
                j
            } else {
                j - 1
            };
            assert(t[j] == s[sj]);
            assert(s.contains(s[sj]));
        } else {
            let si: int = if i < p {
                i
            } else {
                i - 1
            };
            assert(t[i] == s[si]);
            assert(s.contains(s[si]));
        }
    }
}

/// Removing position `p` of a duplicate-free sequence removes exactly the
/// value `s[p]` from the members.
proof fn lemma_remove_contains(s: Seq<int>, p: int, y: int)
    requires
        0 <= p < s.len(),
        s.no_duplicates(),
    ensures
        s.remove(p).contains(y) <==> (s.contains(y) && y != s[p]),
{
    s.remove_ensures(p);
    let t = s.remove(p);
    if t.contains(y) {
        let i = choose|i: int| 0 <= i < t.len() && t[i] == y;
        if i < p {
            assert(s[i] == y);
            assert(s.contains(y));
            assert(s[i] != s[p]);
        } else {
            assert(s[i + 1] == y);
            assert(s.contains(y));
            assert(s[i + 1] != s[p]);
        }
    }
    if s.contains(y) && y != s[p] {
        let i = choose|i: int| 0 <= i < s.len() && s[i] == y;
        if i < p {
            assert(t[i] == y);
        } else {
            assert(t[i - 1] == y);
        }
        assert(t.contains(y));
    }
}

/// Removing a position keeps a sequence duplicate-free.
proof fn lemma_remove_no_duplicates(s: Seq<int>, p: int)
    requires
        0 <= p < s.len(),
        s.no_duplicates(),
    ensures
        s.remove(p).no_duplicates(),
{
    s.remove_ensures(p);
    let t = s.remove(p);
    assert forall|i: int, j: int| 0 <= i < t.len() && 0 <= j < t.len() && i != j implies t[i]
        != t[j] by {
        let si: int = if i < p {
            i
        } else {
            i + 1
        };
        let sj: int = if j < p {
            j
        } else {
            j + 1
        };
        assert(t[i] == s[si] && t[j] == s[sj]);
        assert(s[si] != s[sj]);
    }
}

/// In a duplicate-free sequence, `index_of` inverts indexing.
proof fn lemma_index_of_self(s: Seq<int>, p: int)
    requires
        s.no_duplicates(),
        0 <= p < s.len(),
    ensures
        s.contains(s[p]),
        s.index_of(s[p]) == p,
{
    assert(s.contains(s[p]));
    let q = s.index_of(s[p]);
    assert(0 <= q < s.len() && s[q] == s[p]);
    if q != p {
        assert(s[q] != s[p]);
    }
}

/// A chain is untouched by node updates outside its slots.
proof fn lemma_chain_same(nodes1: Seq<ListNode>, nodes2: Seq<ListNode>, order: Seq<int>, ends: ListEnds)
    requires
        chain_ok(nodes1, order, ends),
        nodes1.len() <= nodes2.len(),
        forall|k: int| 0 <= k < order.len() ==> nodes2[#[trigger] order[k]] == nodes1[order[k]],
    ensures
        chain_ok(nodes2, order, ends),
{
    assert forall|k: int| 0 <= k < order.len() implies #[trigger] chain_node_ok(
        nodes2,
        order,
        k,
    ) by {
        assert(chain_node_ok(nodes1, order, k));
        if k > 0 {
            assert(chain_node_ok(nodes1, order, k - 1));
        }
        if k < order.len() - 1 {
            assert(chain_node_ok(nodes1, order, k + 1));
        }
    }
}

/// The bracketed, order-preserving rendering of a list's parts: each part
/// joined to the next by `" >< "`.
pub open spec fn joined(parts: Seq<Seq<char>>) -> Seq<char>
    decreases parts.len(),
{
    if parts.len() == 0 {
        Seq::empty()
    } else if parts.len() == 1 {
        parts[0]
    } else {
        joined(parts.drop_last()) + seq![' ', '>', '<', ' '] + parts.last()
    }
}

/// The length of the run of unoccupied slots at the end of the arena.
pub open spec fn trailing_free<T>(s: Seq<Option<T>>) -> int
    decreases s.len(),
{
    if s.len() == 0 {
        0
    } else if s.last() is Some {
        0
    } else {
        1 + trailing_free(s.drop_last())
    }
}

/// A chain is untouched by node updates outside its slots, also when the
/// node array changes length, as long as every chain slot survives.
proof fn lemma_chain_same2(nodes1: Seq<ListNode>, nodes2: Seq<ListNode>, order: Seq<int>, ends: ListEnds)
    requires
        chain_ok(nodes1, order, ends),
        forall|k: int| 0 <= k < order.len() ==> 0 <= #[trigger] order[k] < nodes2.len(),
        forall|k: int| 0 <= k < order.len() ==> nodes2[#[trigger] order[k]] == nodes1[order[k]],
    ensures
        chain_ok(nodes2, order, ends),
{
    assert forall|k: int| 0 <= k < order.len() implies #[trigger] chain_node_ok(
        nodes2,
        order,
        k,
    ) by {
        assert(chain_node_ok(nodes1, order, k));
    }
}

/// Doubly-linked list stored in a contiguous arena and addressed by handles.
pub struct IndexList<T> {
    pub(crate) elems: Vec<Option<T>>,
    pub(crate) nodes: Vec<ListNode>,
    pub(crate) used: ListEnds,
    pub(crate) free: ListEnds,
    pub(crate) size: usize,
    pub(crate) used_order: Ghost<Seq<int>>,
    pub(crate) free_order: Ghost<Seq<int>>,
}

impl<T> View for IndexList<T> {
    type V = Seq<T>;

    /// The elements in list order.
    closed spec fn view(&self) -> Seq<T> {
        Seq::new(self.used_order@.len(), |p: int| self.elems@[self.used_order@[p]].unwrap())
    }
}

impl<T> IndexList<T> {
    /// The slot numbers of the occupied slots, in list order.  Position `p`
    /// of the list is stored in slot `self.order()[p]`.
    pub closed spec fn order(self) -> Seq<int> {
        self.used_order@
    }

    /// The slot numbers of the free slots, in the order the free chain
    /// yields them for reuse.
    pub closed spec fn free_slots(self) -> Seq<int> {
        self.free_order@
    }

    /// The arena storage: one entry per slot, occupied slots holding their
    /// element.  Its length is the capacity.
    pub closed spec fn slots(self) -> Seq<Option<T>> {
        self.elems@
    }

    /// A handle is valid when it names an occupied slot of this list.
    pub open spec fn valid(self, index: ListIndex) -> bool {
        index@ is Some && self.order().contains(index@.unwrap())
    }

    /// The list position of the slot a valid handle names.
    pub open spec fn pos_of(self, index: ListIndex) -> int {
        self.order().index_of(index@.unwrap())
    }

    /// The slot the next insertion will use: the first free slot, or a brand
    /// new slot at the end of the arena.
    pub open spec fn next_slot(self) -> int {
        if self.free_slots().len() > 0 {
            self.free_slots()[0]
        } else {
            self.slots().len() as int
        }
    }

    /// Well-formedness: the used and free chains are coherent, disjoint, and
    /// together cover the arena exactly; occupancy of a slot matches the
    /// chain it is on; the element count equals the used chain's length.
    pub closed spec fn wf(self) -> bool {
        &&& self.nodes@.len() == self.elems@.len()
        &&& self.elems@.len() <= u32::MAX
        &&& self.size == self.used_order@.len()
        &&& self.used_order@.len() + self.free_order@.len() == self.elems@.len()
        &&& chain_ok(self.nodes@, self.used_order@, self.used)
        &&& chain_ok(self.nodes@, self.free_order@, self.free)
        &&& self.used_order@.no_duplicates()
        &&& self.free_order@.no_duplicates()
        &&& forall|j: int|
            0 <= j < self.elems@.len() ==> (#[trigger] self.used_order@.contains(j) <==> self.elems@[j] is Some)
        &&& forall|j: int|
            0 <= j < self.elems@.len() ==> (#[trigger] self.free_order@.contains(j) <==> self.elems@[j] is None)
    }

    /// Well-formedness with one slot `j` detached: `j` lies in neither
    /// chain, and both chains are coherent over the rest of the arena.  The
    /// occupancy of `j` itself is unconstrained.
    spec fn wf_detached(self, j: int) -> bool {
        &&& self.nodes@.len() == self.elems@.len()
        &&& self.elems@.len() <= u32::MAX
        &&& 0 <= j < self.elems@.len()
        &&& self.used_order@.len() + self.free_order@.len() + 1 == self.elems@.len()
        &&& chain_ok(self.nodes@, self.used_order@, self.used)
        &&& chain_ok(self.nodes@, self.free_order@, self.free)
        &&& self.used_order@.no_duplicates()
        &&& self.free_order@.no_duplicates()
        &&& !self.used_order@.contains(j)
        &&& !self.free_order@.contains(j)
        &&& forall|i: int|
            0 <= i < self.elems@.len() && i != j ==> (#[trigger] self.used_order@.contains(i)
                <==> self.elems@[i] is Some)
        &&& forall|i: int|
            0 <= i < self.elems@.len() && i != j ==> (#[trigger] self.free_order@.contains(i)
                <==> self.elems@[i] is None)
    }

    /// Everything except the node array is unchanged between `pre` and
    /// `post`.
    spec fn same_but_nodes(pre: Self, post: Self) -> bool {
        &&& post.elems@ == pre.elems@
        &&& post.used == pre.used
        &&& post.free == pre.free
        &&& post.size == pre.size
        &&& post.used_order@ == pre.used_order@
        &&& post.free_order@ == pre.free_order@
    }

    /// Rewrites the backward link of the slot `index` names, returning the
    /// link it held before; a null handle changes nothing and is returned as
    /// it is.
    fn set_prev(&mut self, index: ListIndex, new_prev: ListIndex) -> (r: ListIndex)
        requires
            index@ is Some ==> index@.unwrap() < old(self).nodes@.len(),
        ensures
            Self::same_but_nodes(*old(self), *final(self)),
            index@ is None ==> final(self).nodes@ == old(self).nodes@ && r == index,
            index@ is Some ==> ({
                let at = index@.unwrap();
                &&& final(self).nodes@ == old(self).nodes@.update(
                    at,
                    (ListNode { next: old(self).nodes@[at].next, prev: new_prev }),
                )
                &&& r == old(self).nodes@[at].prev
            }),
    {
        if let Some(at) = index.get() {
            let mut node = self.nodes[at];
            let r = node.new_prev(new_prev);
            self.nodes[at] = node;
            r
        } else {
            index
        }
    }

    /// Rewrites the forward link of the slot `index` names, returning the
    /// link it held before; a null handle changes nothing and is returned as
    /// it is.
    fn set_next(&mut self, index: ListIndex, new_next: ListIndex) -> (r: ListIndex)
        requires
            index@ is Some ==> index@.unwrap() < old(self).nodes@.len(),
        ensures
            Self::same_but_nodes(*old(self), *final(self)),
            index@ is None ==> final(self).nodes@ == old(self).nodes@ && r == index,
            index@ is Some ==> ({
                let at = index@.unwrap();
                &&& final(self).nodes@ == old(self).nodes@.update(
                    at,
                    (ListNode { next: new_next, prev: old(self).nodes@[at].prev }),
                )
                &&& r == old(self).nodes@[at].next
            }),
    {
        if let Some(at) = index.get() {
            let mut node = self.nodes[at];
            let r = node.new_next(new_next);
            self.nodes[at] = node;
            r
        } else {
            index
        }
    }

    /// Unlinks the slot `this` names from the chain `order` it lies on,
    /// splicing its neighbours together and nulling its own links.  Returns
    /// the handles of the old backward and forward neighbours.  `p` is the
    /// chain position of `this`.
    fn linkout_node(
        &mut self,
        this: ListIndex,
        Ghost(order): Ghost<Seq<int>>,
        Ghost(p): Ghost<int>,
    ) -> (r: (ListIndex, ListIndex))
        requires
            this@ is Some,
            0 <= p < order.len(),
            order[p] == this@.unwrap(),
            order.no_duplicates(),
            forall|k: int|
                0 <= k < order.len() ==> #[trigger] chain_node_ok(old(self).nodes@, order, k),
        ensures
            Self::same_but_nodes(*old(self), *final(self)),
            final(self).nodes@.len() == old(self).nodes@.len(),
            r.0@ == (if p == 0 {
                None::<int>
            } else {
                Some(order[p - 1])
            }),
            r.1@ == (if p == order.len() - 1 {
                None::<int>
            } else {
                Some(order[p + 1])
            }),
            forall|k: int|
                0 <= k < order.remove(p).len() ==> #[trigger] chain_node_ok(
                    final(self).nodes@,
                    order.remove(p),
                    k,
                ),
            final(self).nodes@[order[p]].next@ is None,
            final(self).nodes@[order[p]].prev@ is None,
            forall|i: int|
                0 <= i < old(self).nodes@.len() && i != order[p] && (p == 0 || i != order[p - 1])
                    && (p == order.len() - 1 || i != order[p + 1]) ==> #[trigger] final(self).nodes@[i]
                    == old(self).nodes@[i],
    {
        proof {
            assert(chain_node_ok(old(self).nodes@, order, p));
            if p > 0 {
                assert(chain_node_ok(old(self).nodes@, order, p - 1));
            }
            if p < order.len() - 1 {
                assert(chain_node_ok(old(self).nodes@, order, p + 1));
            }
        }
        let next = self.set_next(this, ListIndex::new());
        let prev = self.set_prev(this, ListIndex::new());
        self.set_prev(next, prev);
        self.set_next(prev, next);
        proof {
            let n0 = old(self).nodes@;
            let n4 = self.nodes@;
            let j = order[p];
            let t = order.remove(p);
            order.remove_ensures(p);
            assert forall|k: int| 0 <= k < t.len() implies #[trigger] chain_node_ok(
                n4,
                t,
                k,
            ) by {
                if k < p {
                    assert(chain_node_ok(n0, order, k));
                } else {
                    assert(chain_node_ok(n0, order, k + 1));
                }
                if k > 0 {
                    if k - 1 < p {
                        assert(chain_node_ok(n0, order, k - 1));
                    } else {
                        assert(chain_node_ok(n0, order, k));
                    }
                }
                if k < t.len() - 1 {
                    if k + 1 < p {
                        assert(chain_node_ok(n0, order, k + 1));
                    } else {
                        assert(chain_node_ok(n0, order, k + 2));
                    }
                }
            }
        }
        (prev, next)
    }

    /// Links the detached slot `this` into the chain `order` at position
    /// `p`, between the slots `prev_h` and `next_h` name (the chain's
    /// neighbours of position `p`; null at an end of the chain).
    fn linkin_node(
        &mut self,
        this: ListIndex,
        prev_h: ListIndex,
        next_h: ListIndex,
        Ghost(order): Ghost<Seq<int>>,
        Ghost(p): Ghost<int>,
    )
        requires
            this@ is Some,
            this@.unwrap() < old(self).nodes@.len(),
            0 <= p <= order.len(),
            order.no_duplicates(),
            !order.contains(this@.unwrap()),
            forall|k: int|
                0 <= k < order.len() ==> #[trigger] chain_node_ok(old(self).nodes@, order, k),
            prev_h@ == (if p == 0 {
                None::<int>
            } else {
                Some(order[p - 1])
            }),
            next_h@ == (if p == order.len() {
                None::<int>
            } else {
                Some(order[p])
            }),
        ensures
            Self::same_but_nodes(*old(self), *final(self)),
            final(self).nodes@.len() == old(self).nodes@.len(),
            forall|k: int|
                0 <= k < order.insert(p, this@.unwrap()).len() ==> #[trigger] chain_node_ok(
                    final(self).nodes@,
                    order.insert(p, this@.unwrap()),
                    k,
                ),
            forall|i: int|
                0 <= i < old(self).nodes@.len() && i != this@.unwrap() && (p == 0 || i != order[p
                    - 1]) && (p == order.len() || i != order[p]) ==> #[trigger] final(self).nodes@[i]
                    == old(self).nodes@[i],
    {
        proof {
            if p > 0 {
                assert(chain_node_ok(old(self).nodes@, order, p - 1));
            }
            if p < order.len() {
                assert(chain_node_ok(old(self).nodes@, order, p));
            }
        }
        self.set_prev(next_h, this);
        self.set_next(prev_h, this);
        self.set_prev(this, prev_h);
        self.set_next(this, next_h);
        proof {
            let n0 = old(self).nodes@;
            let n1 = self.nodes@;
            let j = this@.unwrap();
            let t = order.insert(p, j);
            order.insert_ensures(p, j);
            assert forall|k: int| 0 <= k < t.len() implies #[trigger] chain_node_ok(
                n1,
                t,
                k,
            ) by {
                if k < p {
                    assert(chain_node_ok(n0, order, k));
                } else if k > p {
                    assert(chain_node_ok(n0, order, k - 1));
                }
                if k > 0 {
                    if k - 1 < p {
                        assert(chain_node_ok(n0, order, k - 1));
                    } else if k - 1 > p {
                        assert(chain_node_ok(n0, order, k - 2));
                    }
                }
                if k < t.len() - 1 {
                    if k + 1 < p {
                        assert(chain_node_ok(n0, order, k + 1));
                    } else if k + 1 > p {
                        assert(chain_node_ok(n0, order, k));
                    }
                }
            }
        }
    }

    /// Links the detached occupied slot `this` in as the new head of the
    /// used chain.
    fn linkin_first(&mut self, this: ListIndex)
        requires
            this@ is Some,
            old(self).wf_detached(this@.unwrap()),
            old(self).elems@[this@.unwrap()] is Some,
            old(self).size == old(self).used_order@.len() + 1,
        ensures
            final(self).wf(),
            final(self).used_order@ == old(self).used_order@.insert(0, this@.unwrap()),
            final(self).free_order@ == old(self).free_order@,
            final(self).elems@ == old(self).elems@,
            final(self).size == old(self).size,
    {
        let ghost ord = self.used_order@;
        let ghost j = this@.unwrap();
        let next = self.used.head;
        self.linkin_node(this, ListIndex::new(), next, Ghost(ord), Ghost(0));
        if self.used.is_empty() {
            self.used.new_both(this);
        } else {
            self.used.new_head(this);
        }
        proof {
            self.used_order@ = ord.insert(0, j);
            self.finish_linkin_used(*old(self), ord, 0, j);
        }
    }

    /// Links the detached occupied slot `this` in as the new tail of the
    /// used chain.
    fn linkin_last(&mut self, this: ListIndex)
        requires
            this@ is Some,
            old(self).wf_detached(this@.unwrap()),
            old(self).elems@[this@.unwrap()] is Some,
            old(self).size == old(self).used_order@.len() + 1,
        ensures
            final(self).wf(),
            final(self).used_order@ == old(self).used_order@.push(this@.unwrap()),
            final(self).free_order@ == old(self).free_order@,
            final(self).elems@ == old(self).elems@,
            final(self).size == old(self).size,
    {
        let ghost ord = self.used_order@;
        let ghost j = this@.unwrap();
        let prev = self.used.tail;
        self.linkin_node(this, prev, ListIndex::new(), Ghost(ord), Ghost(ord.len() as int));
        if self.used.is_empty() {
            self.used.new_both(this);
        } else {
            self.used.new_tail(this);
        }
        proof {
            self.used_order@ = ord.insert(ord.len() as int, j);
            self.finish_linkin_used(*old(self), ord, ord.len() as int, j);
            assert(self.used_order@ =~= ord.push(j));
        }
    }

    /// Links the detached free slot `this` in at the tail of the free
    /// chain.
    fn linkin_free(&mut self, this: ListIndex)
        requires
            this@ is Some,
            old(self).wf_detached(this@.unwrap()),
            old(self).elems@[this@.unwrap()] is None,
            old(self).size == old(self).used_order@.len(),
        ensures
            final(self).wf(),
            final(self).free_order@ == old(self).free_order@.push(this@.unwrap()),
            final(self).used_order@ == old(self).used_order@,
            final(self).elems@ == old(self).elems@,
            final(self).size == old(self).size,
    {
        let ghost ord = self.free_order@;
        let ghost j = this@.unwrap();
        let prev = self.free.tail;
        self.linkin_node(this, prev, ListIndex::new(), Ghost(ord), Ghost(ord.len() as int));
        if self.free.is_empty() {
            self.free.new_both(this);
        } else {
            self.free.new_tail(this);
        }
        proof {
            self.free_order@ = ord.insert(ord.len() as int, j);
            let pre = *old(self);
            let t = self.free_order@;
            let p = ord.len() as int;
            ord.insert_ensures(p, j);
            lemma_insert_no_duplicates(ord, p, j);
            assert forall|i: int| 0 <= i < self.elems@.len() && i != j implies (
            #[trigger] t.contains(i) <==> self.elems@[i] is None) by {
                lemma_insert_contains(ord, p, j, i);
            }
            assert(t.contains(j)) by {
                lemma_insert_contains(ord, p, j, j);
            }
            assert forall|i: int| 0 <= i < self.elems@.len() implies (
            #[trigger] self.used_order@.contains(i) <==> self.elems@[i] is Some) by {
                if i == j {
                    assert(!pre.used_order@.contains(j));
                }
            }
            // the used chain is untouched: the slots rewritten by the splice
            // are the new slot and its free-chain neighbour
            assert forall|k: int| 0 <= k < self.used_order@.len() implies self.nodes@[
                #[trigger] self.used_order@[k]] == pre.nodes@[self.used_order@[k]] by {
                let x = self.used_order@[k];
                assert(chain_node_ok(pre.nodes@, self.used_order@, k));
                assert(self.used_order@.contains(x));
                assert(pre.elems@[x] is Some);
                assert(x != j);
                if p > 0 {
                    assert(ord.contains(ord[p - 1]));
                    assert(x != ord[p - 1]);
                }
            }
            lemma_chain_same(pre.nodes@, self.nodes@, self.used_order@, self.used);
            assert(chain_ok(self.nodes@, t, self.free));
            assert(t =~= ord.push(j));
        }
    }

    /// Shared proof that linking a detached occupied slot into the used
    /// chain at position `p` restores well-formedness.  Expects the node
    /// surgery and the ends update to have happened, and the ghost order to
    /// have been set to `ord.insert(p, j)`.
    proof fn finish_linkin_used(&self, pre: Self, ord: Seq<int>, p: int, j: int)
        requires
            0 <= p <= ord.len(),
            pre.wf_detached(j),
            pre.elems@[j] is Some,
            pre.size == ord.len() + 1,
            pre.used_order@ == ord,
            self.used_order@ == ord.insert(p, j),
            self.free_order@ == pre.free_order@,
            self.elems@ == pre.elems@,
            self.size == pre.size,
            self.free == pre.free,
            self.nodes@.len() == pre.nodes@.len(),
            forall|k: int|
                0 <= k < ord.insert(p, j).len() ==> #[trigger] chain_node_ok(
                    self.nodes@,
                    ord.insert(p, j),
                    k,
                ),
            forall|i: int|
                0 <= i < pre.nodes@.len() && i != j && (p == 0 || i != ord[p - 1]) && (p
                    == ord.len() || i != ord[p]) ==> #[trigger] self.nodes@[i] == pre.nodes@[i],
            self.used.head@ == (if ord.insert(p, j).len() == 0 {
                None::<int>
            } else {
                Some(ord.insert(p, j)[0])
            }),
            self.used.tail@ == (if ord.insert(p, j).len() == 0 {
                None::<int>
            } else {
                Some(ord.insert(p, j)[ord.insert(p, j).len() - 1])
            }),
        ensures
            self.wf(),
    {
        let t = ord.insert(p, j);
        ord.insert_ensures(p, j);
        lemma_insert_no_duplicates(ord, p, j);
        assert forall|i: int| 0 <= i < self.elems@.len() && i != j implies (#[trigger] t.contains(
            i,
        ) <==> self.elems@[i] is Some) by {
            lemma_insert_contains(ord, p, j, i);
        }
        assert(t.contains(j)) by {
            lemma_insert_contains(ord, p, j, j);
        }
        assert forall|i: int| 0 <= i < self.elems@.len() implies (
        #[trigger] self.free_order@.contains(i) <==> self.elems@[i] is None) by {
            if i == j {
                assert(!pre.free_order@.contains(j));
            }
        }
        // the free chain is untouched: the slots rewritten by the splice are
        // the new slot and its used-chain neighbours
        assert forall|k: int| 0 <= k < self.free_order@.len() implies self.nodes@[
            #[trigger] self.free_order@[k]] == pre.nodes@[self.free_order@[k]] by {
            let x = self.free_order@[k];
            assert(chain_node_ok(pre.nodes@, self.free_order@, k));
            assert(self.free_order@.contains(x));
            assert(pre.elems@[x] is None);
            assert(x != j);
            if p > 0 {
                assert(ord.contains(ord[p - 1]));
                assert(x != ord[p - 1]);
            }
            if p < ord.len() {
                assert(ord.contains(ord[p]));
                assert(x != ord[p]);
            }
        }
        lemma_chain_same(pre.nodes@, self.nodes@, self.free_order@, self.free);
        assert(chain_ok(self.nodes@, t, self.used));
    }

    /// Links the detached occupied slot `this` into the used chain
    /// immediately before the occupied slot `that` names.
    fn linkin_this_before_that(&mut self, this: ListIndex, that: ListIndex)
        requires
            this@ is Some,
            old(self).wf_detached(this@.unwrap()),
            old(self).elems@[this@.unwrap()] is Some,
            old(self).size == old(self).used_order@.len() + 1,
            old(self).valid(that),
        ensures
            final(self).wf(),
            final(self).used_order@ == old(self).used_order@.insert(
                old(self).pos_of(that),
                this@.unwrap(),
            ),
            final(self).free_order@ == old(self).free_order@,
            final(self).elems@ == old(self).elems@,
            final(self).size == old(self).size,
    {
        let ghost ord = self.used_order@;
        let ghost j = this@.unwrap();
        let ghost p = self.pos_of(that);
        proof {
            assert(0 <= p < ord.len() && ord[p] == that@.unwrap());
            assert(chain_node_ok(self.nodes@, ord, p));
        }
        let at = match that.get() {
            Some(at) => at,
            None => { return; },
        };
        let prev = self.nodes[at].prev;
        self.linkin_node(this, prev, that, Ghost(ord), Ghost(p));
        if prev.is_none() {
            self.used.new_head(this);
        }
        proof {
            self.used_order@ = ord.insert(p, j);
            ord.insert_ensures(p, j);
            self.finish_linkin_used(*old(self), ord, p, j);
        }
    }

    /// Links the detached occupied slot `this` into the used chain
    /// immediately after the occupied slot `that` names.
    fn linkin_this_after_that(&mut self, this: ListIndex, that: ListIndex)
        requires
            this@ is Some,
            old(self).wf_detached(this@.unwrap()),
            old(self).elems@[this@.unwrap()] is Some,
            old(self).size == old(self).used_order@.len() + 1,
            old(self).valid(that),
        ensures
            final(self).wf(),
            final(self).used_order@ == old(self).used_order@.insert(
                old(self).pos_of(that) + 1,
                this@.unwrap(),
            ),
            final(self).free_order@ == old(self).free_order@,
            final(self).elems@ == old(self).elems@,
            final(self).size == old(self).size,
    {
        let ghost ord = self.used_order@;
        let ghost j = this@.unwrap();
        let ghost p = self.pos_of(that);
        proof {
            assert(0 <= p < ord.len() && ord[p] == that@.unwrap());
            assert(chain_node_ok(self.nodes@, ord, p));
            if p + 1 < ord.len() {
                assert(chain_node_ok(self.nodes@, ord, p + 1));
            }
        }
        let at = match that.get() {
            Some(at) => at,
            None => { return; },
        };
        let next = self.nodes[at].next;
        self.linkin_node(this, that, next, Ghost(ord), Ghost(p + 1));
        if next.is_none() {
            self.used.new_tail(this);
        }
        proof {
            self.used_order@ = ord.insert(p + 1, j);
            ord.insert_ensures(p + 1, j);
            self.finish_linkin_used(*old(self), ord, p + 1, j);
        }
    }

    /// Takes a slot for a new element: the head of the free chain when one
    /// exists, else a brand new slot pushed onto the arena.  The slot comes
    /// back detached, already holding the element, with the count bumped.
    fn new_node(&mut self, elem: T) -> (r: ListIndex)
        requires
            old(self).wf(),
            old(self).size < u32::MAX as usize,
        ensures
            r@ == Some(old(self).next_slot()),
            final(self).wf_detached(old(self).next_slot()),
            final(self).size == old(self).size + 1,
            final(self).used_order@ == old(self).used_order@,
            final(self).used == old(self).used,
            final(self).elems@ == (if old(self).free_order@.len() > 0 {
                old(self).elems@.update(old(self).next_slot(), Some(elem))
            } else {
                old(self).elems@.push(Some(elem))
            }),
            final(self).free_order@ == (if old(self).free_order@.len() > 0 {
                old(self).free_order@.drop_first()
            } else {
                old(self).free_order@
            }),
    {
        let ghost ford = self.free_order@;
        let reuse = self.free.head;
        if let Some(at) = reuse.get() {
            proof {
                assert(ford.len() > 0 && reuse@ == Some(ford[0]));
                assert(ford.contains(ford[0]));
                lemma_index_of_self(ford, 0);
            }
            self.linkout_free(reuse);
            self.elems[at] = Some(elem);
            self.size += 1;
            proof {
                assert(self.free_order@ =~= ford.drop_first());
            }
            return reuse;
        }
        let pos = self.nodes.len();
        self.nodes.push(ListNode::new());
        self.elems.push(Some(elem));
        self.size += 1;
        let r = ListIndex::new().set(Some(pos));
        proof {
            let pre = *old(self);
            assert(ford.len() == 0);
            assert(!pre.used_order@.contains(pos as int)) by {
                if pre.used_order@.contains(pos as int) {
                    let k = choose|k: int|
                        0 <= k < pre.used_order@.len() && pre.used_order@[k] == pos as int;
                    assert(chain_node_ok(pre.nodes@, pre.used_order@, k));
                }
            }
            assert forall|k: int| 0 <= k < pre.used_order@.len() implies self.nodes@[
                #[trigger] pre.used_order@[k]] == pre.nodes@[pre.used_order@[k]] by {
                assert(chain_node_ok(pre.nodes@, pre.used_order@, k));
            }
            lemma_chain_same(pre.nodes@, self.nodes@, pre.used_order@, pre.used);
            assert forall|k: int| 0 <= k < pre.free_order@.len() implies self.nodes@[
                #[trigger] pre.free_order@[k]] == pre.nodes@[pre.free_order@[k]] by {
                assert(chain_node_ok(pre.nodes@, pre.free_order@, k));
            }
            lemma_chain_same(pre.nodes@, self.nodes@, pre.free_order@, pre.free);
        }
        r
    }

    /// Unlinks an occupied slot from the used chain, leaving it detached.
    /// The handles of all other elements keep their positions, shifted down
    /// past the removed one.
    fn linkout_used(&mut self, this: ListIndex)
        requires
            old(self).wf(),
            old(self).valid(this),
        ensures
            final(self).wf_detached(this@.unwrap()),
            final(self).used_order@ == old(self).used_order@.remove(old(self).pos_of(this)),
            final(self).free_order@ == old(self).free_order@,
            final(self).elems@ == old(self).elems@,
            final(self).size == old(self).size,
            final(self).free == old(self).free,
            final(self).nodes@.len() == old(self).nodes@.len(),
            final(self).nodes@[this@.unwrap()].next@ is None,
            final(self).nodes@[this@.unwrap()].prev@ is None,
    {
        let ghost ord = self.used_order@;
        let ghost j = this@.unwrap();
        let ghost p = self.pos_of(this);
        proof {
            assert(0 <= p < ord.len() && ord[p] == j);
            assert(chain_ok(self.nodes@, ord, self.used));
        }
        let (prev, next) = self.linkout_node(this, Ghost(ord), Ghost(p));
        if next.is_none() {
            self.used.new_tail(prev);
        }
        if prev.is_none() {
            self.used.new_head(next);
        }
        proof {
            self.used_order@ = ord.remove(p);
            let t = self.used_order@;
            ord.remove_ensures(p);
            lemma_remove_no_duplicates(ord, p);
            assert forall|i: int| 0 <= i < self.elems@.len() && i != j implies (
            #[trigger] t.contains(i) <==> self.elems@[i] is Some) by {
                lemma_remove_contains(ord, p, i);
            }
            assert(!t.contains(j)) by {
                lemma_remove_contains(ord, p, j);
            }
            assert(chain_node_ok(old(self).nodes@, ord, p));
            assert(0 <= j < self.elems@.len());
            assert(!self.free_order@.contains(j));
            // the free chain is untouched: every slot changed by the unlink
            // lies on the used chain, and the two chains are disjoint
            assert forall|k: int| 0 <= k < self.free_order@.len() implies self.nodes@[
                #[trigger] self.free_order@[k]] == old(self).nodes@[self.free_order@[k]] by {
                let x = self.free_order@[k];
                assert(chain_node_ok(old(self).nodes@, self.free_order@, k));
                assert(self.free_order@.contains(x));
                assert(old(self).elems@[x] is None);
                assert(x != j);
                if p > 0 {
                    assert(ord.contains(ord[p - 1]));
                    assert(x != ord[p - 1]);
                }
                if p < ord.len() - 1 {
                    assert(ord.contains(ord[p + 1]));
                    assert(x != ord[p + 1]);
                }
            }
            lemma_chain_same(old(self).nodes@, self.nodes@, self.free_order@, self.free);
            assert(chain_ok(self.nodes@, t, self.used));
        }
    }

    /// Unlinks a free slot from the free chain, leaving it detached.
    fn linkout_free(&mut self, this: ListIndex)
        requires
            old(self).wf(),
            this@ is Some,
            old(self).free_order@.contains(this@.unwrap()),
        ensures
            final(self).wf_detached(this@.unwrap()),
            final(self).free_order@ == old(self).free_order@.remove(
                old(self).free_order@.index_of(this@.unwrap()),
            ),
            final(self).used_order@ == old(self).used_order@,
            final(self).elems@ == old(self).elems@,
            final(self).size == old(self).size,
            final(self).used == old(self).used,
            final(self).nodes@.len() == old(self).nodes@.len(),
            final(self).nodes@[this@.unwrap()].next@ is None,
            final(self).nodes@[this@.unwrap()].prev@ is None,
    {
        let ghost ord = self.free_order@;
        let ghost j = this@.unwrap();
        let ghost p = ord.index_of(j);
        proof {
            assert(0 <= p < ord.len() && ord[p] == j);
            assert(chain_ok(self.nodes@, ord, self.free));
        }
        let (prev, next) = self.linkout_node(this, Ghost(ord), Ghost(p));
        if next.is_none() {
            self.free.new_tail(prev);
        }
        if prev.is_none() {
            self.free.new_head(next);
        }
        proof {
            self.free_order@ = ord.remove(p);
            let t = self.free_order@;
            ord.remove_ensures(p);
            lemma_remove_no_duplicates(ord, p);
            assert forall|i: int| 0 <= i < self.elems@.len() && i != j implies (
            #[trigger] t.contains(i) <==> self.elems@[i] is None) by {
                lemma_remove_contains(ord, p, i);
            }
            assert(!t.contains(j)) by {
                lemma_remove_contains(ord, p, j);
            }
            assert(chain_node_ok(old(self).nodes@, ord, p));
            assert(0 <= j < self.elems@.len());
            assert(!self.used_order@.contains(j));
            // the used chain is untouched: every slot changed by the unlink
            // lies on the free chain, and the two chains are disjoint
            assert forall|k: int| 0 <= k < self.used_order@.len() implies self.nodes@[
                #[trigger] self.used_order@[k]] == old(self).nodes@[self.used_order@[k]] by {
                let x = self.used_order@[k];
                assert(chain_node_ok(old(self).nodes@, self.used_order@, k));
                assert(self.used_order@.contains(x));
                assert(old(self).elems@[x] is Some);
                assert(x != j);
                if p > 0 {
                    assert(ord.contains(ord[p - 1]));
                    assert(x != ord[p - 1]);
                }
                if p < ord.len() - 1 {
                    assert(ord.contains(ord[p + 1]));
                    assert(x != ord[p + 1]);
                }
            }
            lemma_chain_same(old(self).nodes@, self.nodes@, self.used_order@, self.used);
            assert(chain_ok(self.nodes@, t, self.free));
        }
    }

    /// Every slot on a coherent chain lies inside the arena.
    proof fn lemma_chain_in_range(nodes: Seq<ListNode>, order: Seq<int>, ends: ListEnds)
        requires
            chain_ok(nodes, order, ends),
        ensures
            forall|k: int| 0 <= k < order.len() ==> 0 <= #[trigger] order[k] < nodes.len(),
    {
        assert forall|k: int| 0 <= k < order.len() implies 0 <= #[trigger] order[k]
            < nodes.len() by {
            assert(chain_node_ok(nodes, order, k));
        }
    }

    /// The slot the next insertion takes is never occupied, and lies inside
    /// the arena exactly when it is recycled rather than brand new.
    proof fn lemma_next_slot_fresh(self)
        requires
            self.wf(),
        ensures
            !self.used_order@.contains(self.next_slot()),
            0 <= self.next_slot() <= self.elems@.len(),
            self.free_order@.len() > 0 ==> self.next_slot() < self.elems@.len(),
    {
        if self.free_order@.len() > 0 {
            let j = self.free_order@[0];
            assert(chain_node_ok(self.nodes@, self.free_order@, 0));
            assert(self.free_order@.contains(j));
            assert(self.elems@[j] is None);
        } else {
            let c = self.elems@.len() as int;
            if self.used_order@.contains(c) {
                let k = choose|k: int|
                    0 <= k < self.used_order@.len() && self.used_order@[k] == c;
                assert(chain_node_ok(self.nodes@, self.used_order@, k));
            }
        }
    }

    /// Inserting a fresh slot `j` holding `elem` at position `p` of the used
    /// chain inserts `elem` at position `p` of the view.
    proof fn lemma_view_insert(pre: Self, post: Self, p: int, elem: T)
        requires
            forall|k: int|
                0 <= k < pre.used_order@.len() ==> 0 <= #[trigger] pre.used_order@[k]
                    < pre.elems@.len(),
            post.wf(),
            0 <= p <= pre.used_order@.len(),
            !pre.used_order@.contains(post.used_order@[p]),
            post.used_order@ == pre.used_order@.insert(p, post.used_order@[p]),
            post.elems@.len() >= pre.elems@.len(),
            0 <= post.used_order@[p] < post.elems@.len(),
            post.elems@[post.used_order@[p]] == Some(elem),
            forall|i: int|
                0 <= i < pre.elems@.len() && i != post.used_order@[p]
                    ==> post.elems@[i] == pre.elems@[i],
        ensures
            post@ == pre@.insert(p, elem),
    {
        let j = post.used_order@[p];
        pre.used_order@.insert_ensures(p, j);
        pre@.insert_ensures(p, elem);
        assert forall|q: int| 0 <= q < post@.len() implies post@[q] == pre@.insert(p, elem)[q] by {
            if q < p {
                assert(pre.used_order@.contains(pre.used_order@[q]));
                assert(post@[q] == pre@[q]);
            } else if q > p {
                assert(pre.used_order@.contains(pre.used_order@[q - 1]));
                assert(post@[q] == pre@[q - 1]);
            }
        }
        assert(post@ =~= pre@.insert(p, elem));
    }

    /// Removing position `p` of the used chain removes position `p` of the
    /// view, provided the arena is unchanged everywhere else.
    proof fn lemma_view_remove(pre: Self, post: Self, p: int)
        requires
            pre.wf(),
            post.wf(),
            0 <= p < pre.used_order@.len(),
            post.used_order@ == pre.used_order@.remove(p),
            post.elems@.len() == pre.elems@.len(),
            forall|i: int|
                0 <= i < pre.elems@.len() && i != pre.used_order@[p]
                    ==> post.elems@[i] == pre.elems@[i],
        ensures
            post@ == pre@.remove(p),
    {
        pre.used_order@.remove_ensures(p);
        pre@.remove_ensures(p);
        Self::lemma_chain_in_range(pre.nodes@, pre.used_order@, pre.used);
        assert forall|q: int| 0 <= q < post@.len() implies post@[q] == pre@.remove(p)[q] by {
            if q < p {
                assert(pre.used_order@[q] != pre.used_order@[p]);
                assert(post@[q] == pre@[q]);
            } else {
                assert(pre.used_order@[q + 1] != pre.used_order@[p]);
                assert(post@[q] == pre@[q + 1]);
            }
        }
        assert(post@ =~= pre@.remove(p));
    }

    /// What one insertion does to the model: the fresh slot
    /// (`pre.next_slot()`) joins the used chain at position `p` carrying
    /// `elem`, recycled from the head of the free chain when one exists and
    /// newly allocated otherwise.
    pub open spec fn inserted_at(pre: Self, post: Self, p: int, elem: T) -> bool {
        &&& post.order() == pre.order().insert(p, pre.next_slot())
        &&& post@ == pre@.insert(p, elem)
        &&& post.slots() == (if pre.free_slots().len() > 0 {
            pre.slots().update(pre.next_slot(), Some(elem))
        } else {
            pre.slots().push(Some(elem))
        })
        &&& post.free_slots() == (if pre.free_slots().len() > 0 {
            pre.free_slots().drop_first()
        } else {
            pre.free_slots()
        })
    }

    /// Creates a new empty list.
    pub fn new() -> (r: Self)
        ensures
            r.wf(),
            r@ == Seq::<T>::empty(),
            r.slots().len() == 0,
            r.order().len() == 0,
            r.free_slots().len() == 0,
    {
        let r = IndexList::<T> {
            elems: Vec::new(),
            nodes: Vec::new(),
            used: ListEnds::new(),
            free: ListEnds::new(),
            size: 0,
            used_order: Ghost(Seq::empty()),
            free_order: Ghost(Seq::empty()),
        };
        proof {
            assert(r@ =~= Seq::<T>::empty());
        }
        r
    }

    /// Creates an empty list whose backing storage is pre-reserved for at
    /// least `capacity` slots.  No slots exist yet, so the capacity reported
    /// by [`Self::capacity`] is still zero.
    pub fn with_capacity(capacity: usize) -> (r: Self)
        ensures
            r.wf(),
            r@ == Seq::<T>::empty(),
            r.slots().len() == 0,
            r.order().len() == 0,
            r.free_slots().len() == 0,
    {
        let r = IndexList::<T> {
            elems: Vec::with_capacity(capacity),
            nodes: Vec::with_capacity(capacity),
            used: ListEnds::new(),
            free: ListEnds::new(),
            size: 0,
            used_order: Ghost(Seq::empty()),
            free_order: Ghost(Seq::empty()),
        };
        proof {
            assert(r@ =~= Seq::<T>::empty());
        }
        r
    }

    /// Returns the number of slots in the arena, occupied or free.  Always at
    /// least the length.
    pub fn capacity(&self) -> (r: usize)
        ensures
            r == self.slots().len(),
    {
        self.elems.len()
    }

    /// Returns the number of elements in the list.
    pub fn len(&self) -> (r: usize)
        requires
            self.wf(),
        ensures
            r == self@.len(),
    {
        self.size
    }

    /// Returns `true` when the list holds no elements.
    pub fn is_empty(&self) -> (r: bool)
        requires
            self.wf(),
        ensures
            r == (self@.len() == 0),
    {
        self.used.is_empty()
    }

    /// Removes all elements and all slots, leaving the empty state.  Every
    /// handle into this list becomes invalid.
    pub fn clear(&mut self)
        ensures
            final(self).wf(),
            final(self)@ == Seq::<T>::empty(),
            final(self).slots().len() == 0,
            final(self).order().len() == 0,
            final(self).free_slots().len() == 0,
    {
        self.elems.clear();
        self.nodes.clear();
        self.used.clear();
        self.free.clear();
        self.size = 0;
        proof {
            self.used_order@ = Seq::empty();
            self.free_order@ = Seq::empty();
            assert(self@ =~= Seq::<T>::empty());
        }
    }

    /// Returns the handle of the first element, or the null handle when the
    /// list is empty.
    pub fn first_index(&self) -> (r: ListIndex)
        requires
            self.wf(),
        ensures
            r@ == (if self.order().len() == 0 {
                None::<int>
            } else {
                Some(self.order()[0])
            }),
    {
        self.used.head
    }

    /// Returns the handle of the last element, or the null handle when the
    /// list is empty.
    pub fn last_index(&self) -> (r: ListIndex)
        requires
            self.wf(),
        ensures
            r@ == (if self.order().len() == 0 {
                None::<int>
            } else {
                Some(self.order()[self.order().len() - 1])
            }),
    {
        self.used.tail
    }

    /// One forward step of a traversal: from the null handle to the first
    /// slot, from an occupied slot to its successor (null past the last),
    /// and from anything else to the null handle.
    pub open spec fn step_next(self, h: Option<int>) -> Option<int> {
        match h {
            None => if self.order().len() == 0 {
                None::<int>
            } else {
                Some(self.order()[0])
            },
            Some(j) => if self.order().contains(j) {
                if self.order().index_of(j) == self.order().len() - 1 {
                    None::<int>
                } else {
                    Some(self.order()[self.order().index_of(j) + 1])
                }
            } else {
                None::<int>
            },
        }
    }

    /// One backward step of a traversal: from the null handle to the last
    /// slot, from an occupied slot to its predecessor (null before the
    /// first), and from anything else to the null handle.
    pub open spec fn step_prev(self, h: Option<int>) -> Option<int> {
        match h {
            None => if self.order().len() == 0 {
                None::<int>
            } else {
                Some(self.order()[self.order().len() - 1])
            },
            Some(j) => if self.order().contains(j) {
                if self.order().index_of(j) == 0 {
                    None::<int>
                } else {
                    Some(self.order()[self.order().index_of(j) - 1])
                }
            } else {
                None::<int>
            },
        }
    }

    /// `n` forward steps from `h`, stopping at the null handle the moment a
    /// step runs off the end.
    pub open spec fn walk_next(self, h: Option<int>, n: nat) -> Option<int>
        decreases n,
    {
        if n == 0 {
            h
        } else {
            let h1 = self.step_next(h);
            if h1 is None {
                None::<int>
            } else {
                self.walk_next(h1, (n - 1) as nat)
            }
        }
    }

    /// `n` backward steps from `h`, stopping at the null handle the moment a
    /// step runs off the beginning.
    pub open spec fn walk_prev(self, h: Option<int>, n: nat) -> Option<int>
        decreases n,
    {
        if n == 0 {
            h
        } else {
            let h1 = self.step_prev(h);
            if h1 is None {
                None::<int>
            } else {
                self.walk_prev(h1, (n - 1) as nat)
            }
        }
    }

    /// Returns the handle of the element after `index`, the first element's
    /// handle when `index` is null, and the null handle past the end or for
    /// an invalid `index`.
    pub fn next_index(&self, index: ListIndex) -> (r: ListIndex)
        requires
            self.wf(),
        ensures
            r@ == self.step_next(index@),
    {
        if let Some(at) = index.get() {
            if at < self.nodes.len() && self.elems[at].is_some() {
                let r = self.nodes[at].next;
                proof {
                    let j = index@.unwrap();
                    assert(self.used_order@.contains(j));
                    let p = self.used_order@.index_of(j);
                    assert(0 <= p < self.used_order@.len() && self.used_order@[p] == j);
                    assert(chain_node_ok(self.nodes@, self.used_order@, p));
                }
                r
            } else {
                proof {
                    let j = index@.unwrap();
                    if self.used_order@.contains(j) {
                        let p = self.used_order@.index_of(j);
                        assert(0 <= p < self.used_order@.len() && self.used_order@[p] == j);
                        assert(chain_node_ok(self.nodes@, self.used_order@, p));
                    }
                }
                ListIndex::new()
            }
        } else {
            self.first_index()
        }
    }

    /// Returns the handle of the element before `index`, the last element's
    /// handle when `index` is null, and the null handle before the beginning
    /// or for an invalid `index`.
    pub fn prev_index(&self, index: ListIndex) -> (r: ListIndex)
        requires
            self.wf(),
        ensures
            r@ == self.step_prev(index@),
    {
        if let Some(at) = index.get() {
            if at < self.nodes.len() && self.elems[at].is_some() {
                let r = self.nodes[at].prev;
                proof {
                    let j = index@.unwrap();
                    assert(self.used_order@.contains(j));
                    let p = self.used_order@.index_of(j);
                    assert(0 <= p < self.used_order@.len() && self.used_order@[p] == j);
                    assert(chain_node_ok(self.nodes@, self.used_order@, p));
                }
                r
            } else {
                proof {
                    let j = index@.unwrap();
                    if self.used_order@.contains(j) {
                        let p = self.used_order@.index_of(j);
                        assert(0 <= p < self.used_order@.len() && self.used_order@[p] == j);
                        assert(chain_node_ok(self.nodes@, self.used_order@, p));
                    }
                }
                ListIndex::new()
            }
        } else {
            self.last_index()
        }
    }

    /// Walks `steps` elements away from `index`: forwards for positive
    /// `steps`, backwards for negative ones, returning `index` itself for
    /// zero.  The walk returns the null handle the moment it runs off
    /// either end.
    pub fn move_index(&self, index: ListIndex, steps: i32) -> (r: ListIndex)
        requires
            self.wf(),
        ensures
            steps == 0 ==> r == index,
            steps > 0 ==> r@ == self.walk_next(index@, steps as nat),
            steps < 0 ==> r@ == self.walk_prev(index@, (-(steps as i64)) as nat),
    {
        let mut cur = index;
        if steps > 0 {
            let mut i: i32 = 0;
            while i < steps
                invariant_except_break
                    self.wf(),
                    0 <= i <= steps,
                    self.walk_next(index@, steps as nat) == self.walk_next(
                        cur@,
                        (steps - i) as nat,
                    ),
                ensures
                    cur@ == self.walk_next(index@, steps as nat),
                decreases steps - i,
            {
                cur = self.next_index(cur);
                i = i + 1;
                if cur.is_none() {
                    break;
                }
            }
        } else if steps < 0 {
            let total: u64 = (-(steps as i64)) as u64;
            let mut i: u64 = 0;
            while i < total
                invariant_except_break
                    self.wf(),
                    0 <= i <= total,
                    self.walk_prev(index@, total as nat) == self.walk_prev(
                        cur@,
                        (total - i) as nat,
                    ),
                ensures
                    cur@ == self.walk_prev(index@, total as nat),
                decreases total - i,
            {
                cur = self.prev_index(cur);
                i = i + 1;
                if cur.is_none() {
                    break;
                }
            }
        }
        cur
    }

    /// Returns a reference to the first element, or `None` when the list is
    /// empty.
    pub fn get_first(&self) -> (r: Option<&T>)
        requires
            self.wf(),
        ensures
            self@.len() == 0 ==> r is None,
            self@.len() > 0 ==> r is Some && r.unwrap() == self@[0],
    {
        proof {
            if self.used_order@.len() > 0 {
                lemma_index_of_self(self.used_order@, 0);
            }
        }
        self.get(self.first_index())
    }

    /// Returns a reference to the last element, or `None` when the list is
    /// empty.
    pub fn get_last(&self) -> (r: Option<&T>)
        requires
            self.wf(),
        ensures
            self@.len() == 0 ==> r is None,
            self@.len() > 0 ==> r is Some && r.unwrap() == self@[self@.len() - 1],
    {
        proof {
            if self.used_order@.len() > 0 {
                lemma_index_of_self(self.used_order@, self.used_order@.len() - 1);
            }
        }
        self.get(self.last_index())
    }

    /// Returns a reference to the element one step after `index`, if there
    /// is one.
    pub fn peek_next(&self, index: ListIndex) -> (r: Option<&T>)
        requires
            self.wf(),
        ensures
            self.step_next(index@) is None ==> r is None,
            self.step_next(index@) is Some ==> r is Some && r.unwrap() == self@[self.order().index_of(
                self.step_next(index@).unwrap(),
            )],
    {
        proof {
            self.lemma_step_next_valid(index@);
        }
        self.get(self.next_index(index))
    }

    /// Returns a reference to the element one step before `index`, if there
    /// is one.
    pub fn peek_prev(&self, index: ListIndex) -> (r: Option<&T>)
        requires
            self.wf(),
        ensures
            self.step_prev(index@) is None ==> r is None,
            self.step_prev(index@) is Some ==> r is Some && r.unwrap() == self@[self.order().index_of(
                self.step_prev(index@).unwrap(),
            )],
    {
        proof {
            self.lemma_step_prev_valid(index@);
        }
        self.get(self.prev_index(index))
    }

    /// A successful forward step lands on an occupied slot.
    proof fn lemma_step_next_valid(self, h: Option<int>)
        requires
            self.wf(),
        ensures
            self.step_next(h) is Some ==> self.order().contains(self.step_next(h).unwrap()),
    {
        if self.step_next(h) is Some {
            let ord = self.used_order@;
            match h {
                None => {
                    assert(ord.contains(ord[0]));
                },
                Some(j) => {
                    let p = ord.index_of(j);
                    assert(0 <= p < ord.len() && ord[p] == j);
                    assert(ord.contains(ord[p + 1]));
                },
            }
        }
    }

    /// A successful backward step lands on an occupied slot.
    proof fn lemma_step_prev_valid(self, h: Option<int>)
        requires
            self.wf(),
        ensures
            self.step_prev(h) is Some ==> self.order().contains(self.step_prev(h).unwrap()),
    {
        if self.step_prev(h) is Some {
            let ord = self.used_order@;
            match h {
                None => {
                    assert(ord.contains(ord[ord.len() - 1]));
                },
                Some(j) => {
                    let p = ord.index_of(j);
                    assert(0 <= p < ord.len() && ord[p] == j);
                    assert(ord.contains(ord[p - 1]));
                },
            }
        }
    }

    /// Returns a reference to the element at the handle, or `None` when the
    /// handle is null, out of range, or names an unoccupied slot.
    pub fn get(&self, index: ListIndex) -> (r: Option<&T>)
        requires
            self.wf(),
        ensures
            self.valid(index) ==> r is Some && r.unwrap() == self@[self.pos_of(index)],
            !self.valid(index) ==> r is None,
    {
        if let Some(at) = index.get() {
            if at < self.elems.len() {
                let r = self.elems[at].as_ref();
                proof {
                    let j = index@.unwrap();
                    if self.valid(index) {
                        let p = self.pos_of(index);
                        assert(0 <= p < self.used_order@.len() && self.used_order@[p] == j);
                        assert(self.used_order@.contains(j));
                    } else {
                        assert(!self.used_order@.contains(j));
                    }
                }
                return r;
            }
        }
        proof {
            if self.valid(index) {
                let j = index@.unwrap();
                let p = self.pos_of(index);
                assert(0 <= p < self.used_order@.len() && self.used_order@[p] == j);
                assert(chain_node_ok(self.nodes@, self.used_order@, p));
            }
        }
        None
    }

    /// Returns `true` when the handle names an occupied slot of this list.
    pub fn is_index_used(&self, index: ListIndex) -> (r: bool)
        requires
            self.wf(),
        ensures
            r == self.valid(index),
    {
        self.get(index).is_some()
    }

    /// Inserts a new element at the beginning and returns its handle.  All
    /// existing handles keep their elements, one position later.
    pub fn insert_first(&mut self, elem: T) -> (r: ListIndex)
        requires
            old(self).wf(),
            old(self)@.len() < u32::MAX as usize,
        ensures
            final(self).wf(),
            r@ == Some(old(self).next_slot()),
            Self::inserted_at(*old(self), *final(self), 0, elem),
    {
        let this = self.new_node(elem);
        self.linkin_first(this);
        proof {
            old(self).lemma_next_slot_fresh();
            Self::lemma_chain_in_range(old(self).nodes@, old(self).used_order@, old(self).used);
            Self::lemma_view_insert(*old(self), *self, 0, elem);
        }
        this
    }

    /// Inserts a new element at the end and returns its handle.  All
    /// existing handles keep their elements and positions.
    pub fn insert_last(&mut self, elem: T) -> (r: ListIndex)
        requires
            old(self).wf(),
            old(self)@.len() < u32::MAX as usize,
        ensures
            final(self).wf(),
            r@ == Some(old(self).next_slot()),
            Self::inserted_at(*old(self), *final(self), old(self)@.len() as int, elem),
    {
        let this = self.new_node(elem);
        self.linkin_last(this);
        proof {
            old(self).lemma_next_slot_fresh();
            Self::lemma_chain_in_range(old(self).nodes@, old(self).used_order@, old(self).used);
            let n = old(self)@.len() as int;
            assert(self.used_order@ =~= old(self).used_order@.insert(n, this@.unwrap()));
            Self::lemma_view_insert(*old(self), *self, n, elem);
        }
        this
    }

    /// Inserts a new element immediately before the element `index` names
    /// and returns its handle.  A null or invalid `index` inserts at the
    /// beginning.  All existing handles keep their elements.
    pub fn insert_before(&mut self, index: ListIndex, elem: T) -> (r: ListIndex)
        requires
            old(self).wf(),
            old(self)@.len() < u32::MAX as usize,
        ensures
            final(self).wf(),
            r@ == Some(old(self).next_slot()),
            Self::inserted_at(
                *old(self),
                *final(self),
                (if old(self).valid(index) {
                    old(self).pos_of(index)
                } else {
                    0
                }),
                elem,
            ),
    {
        if !self.is_index_used(index) {
            return self.insert_first(elem);
        }
        let this = self.new_node(elem);
        self.linkin_this_before_that(this, index);
        proof {
            old(self).lemma_next_slot_fresh();
            Self::lemma_chain_in_range(old(self).nodes@, old(self).used_order@, old(self).used);
            Self::lemma_view_insert(*old(self), *self, old(self).pos_of(index), elem);
        }
        this
    }

    /// Inserts a new element immediately after the element `index` names
    /// and returns its handle.  A null or invalid `index` inserts at the
    /// end.  All existing handles keep their elements.
    pub fn insert_after(&mut self, index: ListIndex, elem: T) -> (r: ListIndex)
        requires
            old(self).wf(),
            old(self)@.len() < u32::MAX as usize,
        ensures
            final(self).wf(),
            r@ == Some(old(self).next_slot()),
            Self::inserted_at(
                *old(self),
                *final(self),
                (if old(self).valid(index) {
                    old(self).pos_of(index) + 1
                } else {
                    old(self)@.len() as int
                }),
                elem,
            ),
    {
        if !self.is_index_used(index) {
            return self.insert_last(elem);
        }
        let this = self.new_node(elem);
        self.linkin_this_after_that(this, index);
        proof {
            old(self).lemma_next_slot_fresh();
            Self::lemma_chain_in_range(old(self).nodes@, old(self).used_order@, old(self).used);
            Self::lemma_view_insert(*old(self), *self, old(self).pos_of(index) + 1, elem);
        }
        this
    }

    /// Removes the element at the handle and returns it, recycling its slot
    /// onto the free chain.  A null, out-of-range, unoccupied or already
    /// removed handle removes nothing and returns `None`, so removing the
    /// same handle twice is safe.  All other handles keep their elements.
    pub fn remove(&mut self, index: ListIndex) -> (r: Option<T>)
        requires
            old(self).wf(),
        ensures
            final(self).wf(),
            old(self).valid(index) ==> ({
                let p = old(self).pos_of(index);
                &&& r == Some(old(self)@[p])
                &&& final(self).order() == old(self).order().remove(p)
                &&& final(self)@ == old(self)@.remove(p)
                &&& final(self).slots() == old(self).slots().update(index@.unwrap(), None)
                &&& final(self).free_slots() == old(self).free_slots().push(index@.unwrap())
                &&& !final(self).valid(index)
            }),
            !old(self).valid(index) ==> r is None && *final(self) == *old(self),
    {
        if !self.is_index_used(index) {
            return None;
        }
        let ghost p = self.pos_of(index);
        let ghost j = index@.unwrap();
        proof {
            assert(0 <= p < self.used_order@.len() && self.used_order@[p] == j);
        }
        self.linkout_used(index);
        let at = match index.get() {
            Some(at) => at,
            None => { return None; },
        };
        let mut tmp: Option<T> = None;
        core::mem::swap(&mut self.elems[at], &mut tmp);
        self.size = self.size - 1;
        self.linkin_free(index);
        proof {
            assert(old(self)@[p] == old(self).elems@[j].unwrap());
            Self::lemma_view_remove(*old(self), *self, p);
            assert(!self.used_order@.contains(j));
        }
        tmp
    }

    /// Removes and returns the first element, or `None` when the list is
    /// empty.
    pub fn remove_first(&mut self) -> (r: Option<T>)
        requires
            old(self).wf(),
        ensures
            final(self).wf(),
            old(self)@.len() == 0 ==> r is None && *final(self) == *old(self),
            old(self)@.len() > 0 ==> ({
                &&& r == Some(old(self)@[0])
                &&& final(self).order() == old(self).order().drop_first()
                &&& final(self)@ == old(self)@.drop_first()
                &&& final(self).slots() == old(self).slots().update(old(self).order()[0], None)
                &&& final(self).free_slots() == old(self).free_slots().push(old(self).order()[0])
            }),
    {
        let first = self.first_index();
        proof {
            if old(self)@.len() > 0 {
                lemma_index_of_self(self.used_order@, 0);
            }
        }
        let r = self.remove(first);
        proof {
            if old(self)@.len() > 0 {
                assert(old(self).order().remove(0) =~= old(self).order().drop_first());
                assert(old(self)@.remove(0) =~= old(self)@.drop_first());
            }
        }
        r
    }

    /// Removes and returns the last element, or `None` when the list is
    /// empty.
    pub fn remove_last(&mut self) -> (r: Option<T>)
        requires
            old(self).wf(),
        ensures
            final(self).wf(),
            old(self)@.len() == 0 ==> r is None && *final(self) == *old(self),
            old(self)@.len() > 0 ==> ({
                let n = old(self)@.len() - 1;
                &&& r == Some(old(self)@[n])
                &&& final(self).order() == old(self).order().drop_last()
                &&& final(self)@ == old(self)@.drop_last()
                &&& final(self).slots() == old(self).slots().update(old(self).order()[n], None)
                &&& final(self).free_slots() == old(self).free_slots().push(old(self).order()[n])
            }),
    {
        let last = self.last_index();
        let ghost n = self.used_order@.len() - 1;
        proof {
            if old(self)@.len() > 0 {
                lemma_index_of_self(self.used_order@, n);
            }
        }
        let r = self.remove(last);
        proof {
            if old(self)@.len() > 0 {
                assert(old(self).order().remove(n) =~= old(self).order().drop_last());
                assert(old(self)@.remove(n) =~= old(self)@.drop_last());
            }
        }
        r
    }

    /// Repositioning the slot at position `p` of the used chain to position
    /// `p2` repositions the element the same way in the view, when the
    /// arena storage is untouched.
    proof fn lemma_view_reinsert(pre: Self, post: Self, p: int, p2: int)
        requires
            pre.wf(),
            post.wf(),
            0 <= p < pre.used_order@.len(),
            0 <= p2 <= pre.used_order@.len() - 1,
            post.used_order@ == pre.used_order@.remove(p).insert(p2, pre.used_order@[p]),
            post.elems@ == pre.elems@,
        ensures
            post@ == pre@.remove(p).insert(p2, pre@[p]),
    {
        let ord = pre.used_order@;
        let j = ord[p];
        let mid = ord.remove(p);
        ord.remove_ensures(p);
        mid.insert_ensures(p2, j);
        pre@.remove_ensures(p);
        pre@.remove(p).insert_ensures(p2, pre@[p]);
        Self::lemma_chain_in_range(pre.nodes@, pre.used_order@, pre.used);
        let rhs = pre@.remove(p).insert(p2, pre@[p]);
        assert forall|q: int| 0 <= q < post@.len() implies post@[q] == rhs[q] by {
            if q == p2 {
                assert(post.used_order@[q] == j);
                assert(post@[q] == pre@[p]);
            } else {
                let m: int = if q < p2 {
                    q
                } else {
                    q - 1
                };
                assert(post.used_order@[q] == mid[m]);
                assert(rhs[q] == pre@.remove(p)[m]);
                if m < p {
                    assert(mid[m] == ord[m]);
                    assert(pre@.remove(p)[m] == pre@[m]);
                } else {
                    assert(mid[m] == ord[m + 1]);
                    assert(pre@.remove(p)[m] == pre@[m + 1]);
                }
            }
        }
        assert(post@ =~= rhs);
    }

    /// Repositions the element `this` names to come immediately before the
    /// element `that` names, without moving it to a new slot: `this` still
    /// names the same element afterwards.  Fails, changing nothing, when
    /// either handle is invalid or the two are equal.
    pub fn shift_index_before(&mut self, this: ListIndex, that: ListIndex) -> (r: bool)
        requires
            old(self).wf(),
        ensures
            final(self).wf(),
            r == (old(self).valid(this) && old(self).valid(that) && this != that),
            !r ==> *final(self) == *old(self),
            r ==> ({
                let p = old(self).pos_of(this);
                let q0 = old(self).pos_of(that);
                let q = if q0 < p {
                    q0
                } else {
                    q0 - 1
                };
                &&& final(self).order() == old(self).order().remove(p).insert(q, this@.unwrap())
                &&& final(self)@ == old(self)@.remove(p).insert(q, old(self)@[p])
                &&& final(self).slots() == old(self).slots()
                &&& final(self).free_slots() == old(self).free_slots()
            }),
    {
        let valid = self.is_index_used(this) && self.is_index_used(that) && this != that;
        if valid {
            let ghost ord = self.used_order@;
            let ghost j = this@.unwrap();
            let ghost jt = that@.unwrap();
            let ghost p = self.pos_of(this);
            let ghost q0 = self.pos_of(that);
            proof {
                assert(0 <= p < ord.len() && ord[p] == j);
                assert(0 <= q0 < ord.len() && ord[q0] == jt);
                ListIndex::lemma_eq_view(this, that);
                assert(p != q0);
            }
            self.linkout_used(this);
            proof {
                let ghost q: int = if q0 < p {
                    q0
                } else {
                    q0 - 1
                };
                ord.remove_ensures(p);
                assert(self.used_order@[q] == jt);
                lemma_remove_contains(ord, p, jt);
                lemma_remove_no_duplicates(ord, p);
                lemma_index_of_self(self.used_order@, q);
            }
            self.linkin_this_before_that(this, that);
            proof {
                Self::lemma_view_reinsert(*old(self), *self, p, if q0 < p { q0 } else { q0 - 1 });
            }
        }
        valid
    }

    /// Repositions the element `this` names to come immediately after the
    /// element `that` names, without moving it to a new slot: `this` still
    /// names the same element afterwards.  Fails, changing nothing, when
    /// either handle is invalid or the two are equal.
    pub fn shift_index_after(&mut self, this: ListIndex, that: ListIndex) -> (r: bool)
        requires
            old(self).wf(),
        ensures
            final(self).wf(),
            r == (old(self).valid(this) && old(self).valid(that) && this != that),
            !r ==> *final(self) == *old(self),
            r ==> ({
                let p = old(self).pos_of(this);
                let q0 = old(self).pos_of(that);
                let q = if q0 < p {
                    q0 + 1
                } else {
                    q0
                };
                &&& final(self).order() == old(self).order().remove(p).insert(q, this@.unwrap())
                &&& final(self)@ == old(self)@.remove(p).insert(q, old(self)@[p])
                &&& final(self).slots() == old(self).slots()
                &&& final(self).free_slots() == old(self).free_slots()
            }),
    {
        let valid = self.is_index_used(this) && self.is_index_used(that) && this != that;
        if valid {
            let ghost ord = self.used_order@;
            let ghost j = this@.unwrap();
            let ghost jt = that@.unwrap();
            let ghost p = self.pos_of(this);
            let ghost q0 = self.pos_of(that);
            proof {
                assert(0 <= p < ord.len() && ord[p] == j);
                assert(0 <= q0 < ord.len() && ord[q0] == jt);
                ListIndex::lemma_eq_view(this, that);
                assert(p != q0);
            }
            self.linkout_used(this);
            proof {
                let ghost qm: int = if q0 < p {
                    q0
                } else {
                    q0 - 1
                };
                ord.remove_ensures(p);
                assert(self.used_order@[qm] == jt);
                lemma_remove_contains(ord, p, jt);
                lemma_remove_no_duplicates(ord, p);
                lemma_index_of_self(self.used_order@, qm);
            }
            self.linkin_this_after_that(this, that);
            proof {
                Self::lemma_view_reinsert(*old(self), *self, p, if q0 < p { q0 + 1 } else { q0 });
            }
        }
        valid
    }

    /// Repositions the element `this` names to the front of the list,
    /// without moving it to a new slot: `this` still names the same element
    /// afterwards, and `first_index()` becomes `this`.  Fails, changing
    /// nothing, when `this` is invalid.
    pub fn shift_index_to_front(&mut self, this: ListIndex) -> (r: bool)
        requires
            old(self).wf(),
        ensures
            final(self).wf(),
            r == old(self).valid(this),
            !r ==> *final(self) == *old(self),
            r ==> ({
                let p = old(self).pos_of(this);
                &&& final(self).order() == old(self).order().remove(p).insert(0, this@.unwrap())
                &&& final(self)@ == old(self)@.remove(p).insert(0, old(self)@[p])
                &&& final(self).slots() == old(self).slots()
                &&& final(self).free_slots() == old(self).free_slots()
                &&& final(self).order().len() > 0 && final(self).order()[0] == this@.unwrap()
            }),
    {
        let valid = self.is_index_used(this);
        if valid {
            let ghost ord = self.used_order@;
            let ghost p = self.pos_of(this);
            proof {
                assert(0 <= p < ord.len() && ord[p] == this@.unwrap());
            }
            self.linkout_used(this);
            self.linkin_first(this);
            proof {
                ord.remove(p).insert_ensures(0, ord[p]);
                Self::lemma_view_reinsert(*old(self), *self, p, 0);
            }
        }
        valid
    }

    /// Repositions the element `this` names to the back of the list,
    /// without moving it to a new slot: `this` still names the same element
    /// afterwards, and `last_index()` becomes `this`.  Fails, changing
    /// nothing, when `this` is invalid.
    pub fn shift_index_to_back(&mut self, this: ListIndex) -> (r: bool)
        requires
            old(self).wf(),
        ensures
            final(self).wf(),
            r == old(self).valid(this),
            !r ==> *final(self) == *old(self),
            r ==> ({
                let p = old(self).pos_of(this);
                let n = old(self).order().len() - 1;
                &&& final(self).order() == old(self).order().remove(p).insert(n, this@.unwrap())
                &&& final(self)@ == old(self)@.remove(p).insert(n, old(self)@[p])
                &&& final(self).slots() == old(self).slots()
                &&& final(self).free_slots() == old(self).free_slots()
                &&& final(self).order().len() > 0 && final(self).order()[final(self).order().len()
                    - 1] == this@.unwrap()
            }),
    {
        let valid = self.is_index_used(this);
        if valid {
            let ghost ord = self.used_order@;
            let ghost p = self.pos_of(this);
            proof {
                assert(0 <= p < ord.len() && ord[p] == this@.unwrap());
            }
            self.linkout_used(this);
            self.linkin_last(this);
            proof {
                let n = ord.len() - 1;
                assert(self.used_order@ =~= ord.remove(p).insert(n, ord[p]));
                ord.remove(p).insert_ensures(n, ord[p]);
                Self::lemma_view_reinsert(*old(self), *self, p, n);
            }
        }
        valid
    }

    /// Exchanges the element values at two valid handles; each handle keeps
    /// its position and afterwards names the other's former value.  Does
    /// nothing when either handle is invalid.
    pub fn swap_index(&mut self, this: ListIndex, that: ListIndex)
        requires
            old(self).wf(),
        ensures
            final(self).wf(),
            !(old(self).valid(this) && old(self).valid(that)) ==> *final(self) == *old(self),
            old(self).valid(this) && old(self).valid(that) ==> ({
                let p = old(self).pos_of(this);
                let q = old(self).pos_of(that);
                &&& final(self)@ == old(self)@.update(p, old(self)@[q]).update(q, old(self)@[p])
                &&& final(self).order() == old(self).order()
                &&& final(self).free_slots() == old(self).free_slots()
                &&& final(self).slots() == old(self).slots().update(
                    this@.unwrap(),
                    old(self).slots()[that@.unwrap()],
                ).update(that@.unwrap(), old(self).slots()[this@.unwrap()])
            }),
    {
        let valid = self.is_index_used(this) && self.is_index_used(that);
        if valid {
            let ghost ord = self.used_order@;
            let ghost p = self.pos_of(this);
            let ghost q = self.pos_of(that);
            proof {
                assert(0 <= p < ord.len() && ord[p] == this@.unwrap());
                assert(0 <= q < ord.len() && ord[q] == that@.unwrap());
                assert(chain_node_ok(self.nodes@, ord, p));
                assert(chain_node_ok(self.nodes@, ord, q));
            }
            let here = match this.get() {
                Some(at) => at,
                None => { return; },
            };
            let there = match that.get() {
                Some(at) => at,
                None => { return; },
            };
            self.swap_data(here, there);
            proof {
                let pre = *old(self);
                Self::lemma_chain_in_range(pre.nodes@, ord, pre.used);
                assert forall|i: int| 0 <= i < self.elems@.len() implies ((
                #[trigger] self.elems@[i]) is Some <==> pre.elems@[i] is Some) by {}
                let rhs = pre@.update(p, pre@[q]).update(q, pre@[p]);
                assert forall|m: int| 0 <= m < self@.len() implies self@[m] == rhs[m] by {
                    if m != p && m != q {
                        assert(ord[m] != ord[p] && ord[m] != ord[q]);
                    }
                }
                assert(self@ =~= rhs);
            }
        }
    }

    /// Exchanges the stored contents of two arena slots.
    fn swap_data(&mut self, here: usize, there: usize)
        requires
            here < old(self).elems@.len(),
            there < old(self).elems@.len(),
        ensures
            final(self).elems@ == old(self).elems@.update(
                here as int,
                old(self).elems@[there as int],
            ).update(there as int, old(self).elems@[here as int]),
            final(self).nodes@ == old(self).nodes@,
            final(self).used == old(self).used,
            final(self).free == old(self).free,
            final(self).size == old(self).size,
            final(self).used_order@ == old(self).used_order@,
            final(self).free_order@ == old(self).free_order@,
    {
        if here != there {
            let mut tmp: Option<T> = None;
            core::mem::swap(&mut self.elems[here], &mut tmp);
            core::mem::swap(&mut self.elems[there], &mut tmp);
            core::mem::swap(&mut self.elems[here], &mut tmp);
            proof {
                assert(self.elems@ =~= old(self).elems@.update(
                    here as int,
                    old(self).elems@[there as int],
                ).update(there as int, old(self).elems@[here as int]));
            }
        } else {
            proof {
                assert(self.elems@ =~= old(self).elems@.update(
                    here as int,
                    old(self).elems@[there as int],
                ).update(there as int, old(self).elems@[here as int]));
            }
        }
    }

    /// The list `post` is `pre` with the element at position `p` of the
    /// used chain replaced by `v`, and nothing else changed.
    pub closed spec fn updated_model(pre: Self, post: Self, p: int, v: T) -> bool {
        &&& post.used_order@ == pre.used_order@
        &&& post.free_order@ == pre.free_order@
        &&& post.nodes@ == pre.nodes@
        &&& post.used == pre.used
        &&& post.free == pre.free
        &&& post.size == pre.size
        &&& post.elems@ == pre.elems@.update(pre.used_order@[p], Some(v))
    }

    /// Replacing the element in the slot at position `p` of the used chain
    /// updates position `p` of the view and preserves well-formedness,
    /// whatever the replacement value turns out to be.
    proof fn lemma_view_update(pre: Self, p: int)
        requires
            pre.wf(),
            0 <= p < pre.used_order@.len(),
        ensures
            forall|post: Self, v: T|
                #![trigger post.view(), pre.view().update(p, v)]
                Self::updated_model(pre, post, p, v) ==> post.wf() && post@ == pre@.update(p, v),
    {
        Self::lemma_chain_in_range(pre.nodes@, pre.used_order@, pre.used);
        let j = pre.used_order@[p];
        assert(pre.used_order@.contains(j));
        assert forall|post: Self, v: T|
            #![trigger post.view(), pre.view().update(p, v)]
            Self::updated_model(pre, post, p, v) implies post.wf() && post@ == pre@.update(
            p,
            v,
        ) by {
            assert forall|i: int| 0 <= i < post.elems@.len() implies ((
            #[trigger] post.elems@[i]) is Some <==> pre.elems@[i] is Some) by {}
            assert forall|q: int| 0 <= q < post@.len() implies post@[q] == pre@.update(p, v)[q] by {
                if q != p {
                    assert(pre.used_order@[q] != j);
                }
            }
            assert(post@ =~= pre@.update(p, v));
        }
    }

    /// Returns a mutable reference to the element at the handle, or `None`
    /// (changing nothing) when the handle is null, out of range, or names an
    /// unoccupied slot.  Writing through the reference replaces that
    /// element; the structure of the list does not change.
    #[verifier::rlimit(60)]
    pub fn get_mut(&mut self, index: ListIndex) -> (r: Option<&mut T>)
        requires
            old(self).wf(),
        ensures
            !old(self).valid(index) ==> r is None && *final(self) == *old(self),
            old(self).valid(index) ==> r is Some && *r.unwrap() == old(self)@[old(self).pos_of(
                index,
            )],
            old(self).valid(index) ==> Self::updated_model(
                *old(self),
                *final(self),
                old(self).pos_of(index),
                *final(r.unwrap()),
            ),
            old(self).valid(index) ==> final(self).wf(),
            old(self).valid(index) ==> final(self)@ == old(self)@.update(
                old(self).pos_of(index),
                *final(r.unwrap()),
            ),
            old(self).valid(index) ==> final(self).order() == old(self).order(),
            old(self).valid(index) ==> final(self).free_slots() == old(self).free_slots(),
            old(self).valid(index) ==> final(self).slots() == old(self).slots().update(
                index@.unwrap(),
                Some(*final(r.unwrap())),
            ),
    {
        proof {
            if self.valid(index) {
                let p = self.pos_of(index);
                assert(0 <= p < self.used_order@.len() && self.used_order@[p] == index@.unwrap());
                assert(chain_node_ok(self.nodes@, self.used_order@, p));
                Self::lemma_view_update(*self, p);
            }
        }
        if let Some(at) = index.get() {
            if at < self.elems.len() {
                proof {
                    if !self.valid(index) {
                        assert(!self.used_order@.contains(at as int));
                    }
                }
                if self.elems[at].is_some() {
                    let slot = &mut self.elems[at];
                    return slot.as_mut();
                }
            }
        }
        None
    }

    /// Returns a mutable reference to the first element, or `None` when the
    /// list is empty.
    pub fn get_mut_first(&mut self) -> (r: Option<&mut T>)
        requires
            old(self).wf(),
        ensures
            old(self)@.len() == 0 ==> r is None && *final(self) == *old(self),
            old(self)@.len() > 0 ==> ({
                &&& r is Some
                &&& *r.unwrap() == old(self)@[0]
                &&& final(self).wf()
                &&& final(self)@ == old(self)@.update(0, *final(r.unwrap()))
                &&& final(self).order() == old(self).order()
                &&& final(self).free_slots() == old(self).free_slots()
            }),
    {
        proof {
            if self.used_order@.len() > 0 {
                lemma_index_of_self(self.used_order@, 0);
            }
        }
        let first = self.first_index();
        self.get_mut(first)
    }

    /// Returns a mutable reference to the last element, or `None` when the
    /// list is empty.
    pub fn get_mut_last(&mut self) -> (r: Option<&mut T>)
        requires
            old(self).wf(),
        ensures
            old(self)@.len() == 0 ==> r is None && *final(self) == *old(self),
            old(self)@.len() > 0 ==> ({
                let n = old(self)@.len() - 1;
                &&& r is Some
                &&& *r.unwrap() == old(self)@[n]
                &&& final(self).wf()
                &&& final(self)@ == old(self)@.update(n, *final(r.unwrap()))
                &&& final(self).order() == old(self).order()
                &&& final(self).free_slots() == old(self).free_slots()
            }),
    {
        proof {
            if self.used_order@.len() > 0 {
                lemma_index_of_self(self.used_order@, self.used_order@.len() - 1);
            }
        }
        let last = self.last_index();
        self.get_mut(last)
    }

    /// Returns `true` when some element of the list equals `elem`.  The
    /// scan runs over the arena in storage order.
    pub fn contains(&self, elem: T) -> (r: bool) where T: PartialEq
        requires
            self.wf(),
        ensures
            T::obeys_eq_spec() ==> (r <==> exists|q: int|
                0 <= q < self@.len() && (#[trigger] self@[q]).eq_spec(&elem)),
    {
        let mut i: usize = 0;
        while i < self.elems.len()
            invariant
                self.wf(),
                0 <= i <= self.elems@.len(),
                T::obeys_eq_spec() ==> forall|j: int|
                    0 <= j < i && (#[trigger] self.elems@[j]) is Some
                        ==> !self.elems@[j].unwrap().eq_spec(&elem),
            decreases self.elems@.len() - i,
        {
            if let Some(e) = self.elems[i].as_ref() {
                if *e == elem {
                    proof {
                        if T::obeys_eq_spec() {
                            let j = i as int;
                            assert(self.used_order@.contains(j));
                            let q = self.used_order@.index_of(j);
                            assert(0 <= q < self.used_order@.len() && self.used_order@[q] == j);
                            assert(self@[q].eq_spec(&elem));
                        }
                    }
                    return true;
                }
            }
            i = i + 1;
        }
        proof {
            if T::obeys_eq_spec() {
                assert forall|q: int| 0 <= q < self@.len() implies !(#[trigger] self@[q]).eq_spec(
                    &elem,
                ) by {
                    assert(chain_node_ok(self.nodes@, self.used_order@, q));
                    assert(self.used_order@.contains(self.used_order@[q]));
                    assert(self.elems@[self.used_order@[q]] is Some);
                }
            }
        }
        false
    }

    /// Returns the handle of the element equal to `elem` whose slot number
    /// is lowest, or the null handle when there is none.  The scan runs in
    /// arena storage order, which need not match list order.
    pub fn index_of(&self, elem: T) -> (r: ListIndex) where T: PartialEq
        requires
            self.wf(),
        ensures
            T::obeys_eq_spec() && r@ is None ==> forall|j: int|
                0 <= j < self.slots().len() && (#[trigger] self.slots()[j]) is Some
                    ==> !self.slots()[j].unwrap().eq_spec(&elem),
            T::obeys_eq_spec() && r@ is Some ==> ({
                let j = r@.unwrap();
                &&& 0 <= j < self.slots().len()
                &&& self.slots()[j] is Some
                &&& self.slots()[j].unwrap().eq_spec(&elem)
                &&& self.valid(r)
                &&& self@[self.pos_of(r)].eq_spec(&elem)
                &&& forall|j2: int|
                    0 <= j2 < j && (#[trigger] self.slots()[j2]) is Some
                        ==> !self.slots()[j2].unwrap().eq_spec(&elem)
            }),
    {
        let mut i: usize = 0;
        while i < self.elems.len()
            invariant
                self.wf(),
                0 <= i <= self.elems@.len(),
                T::obeys_eq_spec() ==> forall|j: int|
                    0 <= j < i && (#[trigger] self.elems@[j]) is Some
                        ==> !self.elems@[j].unwrap().eq_spec(&elem),
            decreases self.elems@.len() - i,
        {
            if let Some(e) = self.elems[i].as_ref() {
                if *e == elem {
                    let r = ListIndex::new().set(Some(i));
                    proof {
                        if T::obeys_eq_spec() {
                            let j = i as int;
                            assert(self.used_order@.contains(j));
                            let q = self.used_order@.index_of(j);
                            assert(0 <= q < self.used_order@.len() && self.used_order@[q] == j);
                            assert(self@[q].eq_spec(&elem));
                        }
                    }
                    return r;
                }
            }
            i = i + 1;
        }
        ListIndex::new()
    }

    /// Builds a list from the elements of `vec`, in order, draining the
    /// vector.  Position `q` ends up in slot `q`.
    pub fn from(vec: &mut Vec<T>) -> (r: IndexList<T>)
        requires
            old(vec)@.len() < u32::MAX as usize,
        ensures
            r.wf(),
            r@ == old(vec)@,
            final(vec)@.len() == 0,
            r.order() == Seq::new(old(vec)@.len(), |q: int| q),
            r.slots().len() == old(vec)@.len(),
            r.free_slots().len() == 0,
    {
        let ghost orig = vec@;
        let mut list = IndexList::<T>::new();
        while vec.len() > 0
            invariant
                list.wf(),
                vec@.len() + list@.len() == orig.len(),
                orig.len() < u32::MAX as usize,
                list@ == orig.take(list@.len() as int),
                vec@ == orig.skip(list@.len() as int),
                list.order() == Seq::new(list@.len(), |q: int| q),
                list.slots().len() == list@.len(),
                list.free_slots().len() == 0,
            decreases vec@.len(),
        {
            let ghost k = list@.len() as int;
            let x = vec.remove(0);
            list.insert_last(x);
            proof {
                assert(list.order() =~= Seq::new(list@.len(), |q: int| q));
                assert(list@ =~= orig.take(k + 1));
                assert(vec@ =~= orig.skip(k + 1));
            }
        }
        proof {
            assert(list@ =~= orig);
        }
        list
    }

    /// Collects references to all elements, in list order, into a vector.
    pub fn to_vec(&self) -> (r: Vec<&T>)
        requires
            self.wf(),
        ensures
            r@.len() == self@.len(),
            forall|q: int| 0 <= q < self@.len() ==> r@[q] == self@[q],
    {
        let mut r: Vec<&T> = Vec::new();
        let mut cur = self.first_index();
        proof {
            if self.used_order@.len() > 0 {
                lemma_index_of_self(self.used_order@, 0);
            }
        }
        while cur.is_some()
            invariant
                self.wf(),
                r@.len() <= self@.len(),
                cur@ is Some ==> self.valid(cur) && self.pos_of(cur) == r@.len(),
                cur@ is None ==> r@.len() == self@.len(),
                forall|q: int| 0 <= q < r@.len() ==> r@[q] == self@[q],
            decreases self@.len() - r@.len(),
        {
            let ghost p = self.pos_of(cur);
            match self.get(cur) {
                Some(x) => {
                    r.push(x);
                },
                None => {},
            }
            cur = self.next_index(cur);
            proof {
                if p + 1 < self.used_order@.len() {
                    lemma_index_of_self(self.used_order@, p + 1);
                }
            }
        }
        r
    }

    /// A prefix of a duplicate-free sequence contains exactly its first `k`
    /// values.
    proof fn lemma_take_contains(s: Seq<int>, k: int, p: int)
        requires
            s.no_duplicates(),
            0 <= k <= s.len(),
            0 <= p < s.len(),
        ensures
            s.take(k).contains(s[p]) <==> p < k,
    {
        if p < k {
            assert(s.take(k)[p] == s[p]);
            assert(s.take(k).contains(s[p]));
        }
        if s.take(k).contains(s[p]) {
            let m = choose|m: int| 0 <= m < k && s.take(k)[m] == s[p];
            assert(s[m] == s[p]);
            if m != p {
                assert(s[m] != s[p]);
            }
        }
    }

    /// Moves every element of `other` to the end of this list, in order,
    /// leaving `other` empty.  Handles into this list keep their elements
    /// and positions; handles into `other` become invalid.
    pub fn append(&mut self, other: &mut IndexList<T>)
        requires
            old(self).wf(),
            old(other).wf(),
            old(self)@.len() + old(other)@.len() < u32::MAX as usize,
        ensures
            final(self).wf(),
            final(other).wf(),
            final(self)@ == old(self)@ + old(other)@,
            final(other)@.len() == 0,
            final(self).order().len() == old(self)@.len() + old(other)@.len(),
            forall|q: int|
                0 <= q < old(self)@.len() ==> final(self).order()[q] == old(self).order()[q],
    {
        let ghost orig_self = self@;
        let ghost orig_other = other@;
        let ghost orig_order = self.order();
        while other.len() > 0
            invariant
                self.wf(),
                other.wf(),
                orig_self.len() <= self@.len(),
                self@.len() + other@.len() == orig_self.len() + orig_other.len(),
                orig_self.len() + orig_other.len() < u32::MAX as usize,
                self@ == orig_self + orig_other.take(self@.len() - orig_self.len()),
                other@ == orig_other.skip(self@.len() - orig_self.len()),
                forall|q: int| 0 <= q < orig_self.len() ==> self.order()[q] == orig_order[q],
            decreases other@.len(),
        {
            let ghost k = self@.len() - orig_self.len();
            let e = other.remove_first();
            if let Some(elem) = e {
                let ghost mid_order = self.order();
                self.insert_last(elem);
                proof {
                    mid_order.insert_ensures(mid_order.len() as int, self.used_order@.last());
                    assert(self@ =~= orig_self + orig_other.take(k + 1));
                    assert(other@ =~= orig_other.skip(k + 1));
                }
            }
        }
        proof {
            assert(self@ =~= orig_self + orig_other);
        }
    }

    /// Moves every element of `other` to the beginning of this list, in
    /// order, leaving `other` empty.  Handles into this list keep their
    /// elements, shifted past the new ones; handles into `other` become
    /// invalid.
    pub fn prepend(&mut self, other: &mut IndexList<T>)
        requires
            old(self).wf(),
            old(other).wf(),
            old(self)@.len() + old(other)@.len() < u32::MAX as usize,
        ensures
            final(self).wf(),
            final(other).wf(),
            final(self)@ == old(other)@ + old(self)@,
            final(other)@.len() == 0,
            final(self).order().len() == old(self)@.len() + old(other)@.len(),
            forall|q: int|
                0 <= q < old(self)@.len() ==> final(self).order()[q + old(other)@.len()]
                    == old(self).order()[q],
    {
        let ghost orig_self = self@;
        let ghost orig_other = other@;
        let ghost orig_order = self.order();
        while other.len() > 0
            invariant
                self.wf(),
                other.wf(),
                orig_self.len() <= self@.len(),
                self@.len() + other@.len() == orig_self.len() + orig_other.len(),
                orig_self.len() + orig_other.len() < u32::MAX as usize,
                self@ == orig_other.skip(other@.len() as int) + orig_self,
                other@ == orig_other.take(other@.len() as int),
                forall|q: int|
                    0 <= q < orig_self.len() ==> self.order()[q + (self@.len()
                        - orig_self.len())] == orig_order[q],
            decreases other@.len(),
        {
            let ghost m = other@.len() as int;
            let e = other.remove_last();
            if let Some(elem) = e {
                let ghost mid_order = self.order();
                self.insert_first(elem);
                proof {
                    mid_order.insert_ensures(0, self.used_order@[0]);
                    assert(orig_other.take(m)[m - 1] == orig_other[m - 1]);
                    assert(self@ =~= orig_other.skip(m - 1) + orig_self);
                    assert(other@ =~= orig_other.take(m - 1));
                }
            }
        }
        proof {
            assert(orig_other.skip(0) =~= orig_other);
        }
    }

    /// Splits the list at `index`: the element it names and everything
    /// after it move, in order, to a returned new list; this list keeps the
    /// prefix, whose handles stay valid.  An invalid or null `index`
    /// returns an empty list and changes nothing.
    pub fn split(&mut self, index: ListIndex) -> (r: IndexList<T>)
        requires
            old(self).wf(),
        ensures
            final(self).wf(),
            r.wf(),
            !old(self).valid(index) ==> r@.len() == 0 && *final(self) == *old(self),
            old(self).valid(index) ==> ({
                let p = old(self).pos_of(index);
                &&& final(self)@ == old(self)@.take(p)
                &&& r@ == old(self)@.skip(p)
                &&& final(self).order() == old(self).order().take(p)
                &&& !final(self).valid(index)
            }),
    {
        let ghost orig = *old(self);
        let ghost p: int = if old(self).valid(index) {
            old(self).pos_of(index)
        } else {
            0
        };
        let mut list = IndexList::<T>::new();
        if !self.is_index_used(index) {
            return list;
        }
        proof {
            assert(0 <= p < orig.used_order@.len() && orig.used_order@[p] == index@.unwrap());
            self.lemma_len_le_capacity();
            assert(orig.order().take(orig.order().len() as int) =~= orig.order());
            assert(orig@.take(orig@.len() as int) =~= orig@);
            assert(orig@.skip(orig@.len() as int) =~= Seq::<T>::empty());
        }
        while self.is_index_used(index)
            invariant
                self.wf(),
                list.wf(),
                orig.wf(),
                orig.valid(index),
                0 <= p < orig.used_order@.len(),
                orig.used_order@[p] == index@.unwrap(),
                p <= self@.len() <= orig@.len(),
                orig@.len() <= u32::MAX,
                self@ == orig@.take(self@.len() as int),
                self.order() == orig.order().take(self@.len() as int),
                list@ == orig@.skip(self@.len() as int),
                self.valid(index) <==> self@.len() > p,
            decreases self@.len(),
        {
            let ghost k = self@.len() as int;
            proof {
                Self::lemma_take_contains(orig.used_order@, k, p);
                assert(orig.order().take(k)[p] == orig.used_order@[p]);
                assert(self@.len() > 0);
            }
            let e = self.remove_last();
            match e {
                Some(elem) => {
                    list.insert_first(elem);
                },
                None => {},
            }
            proof {
                assert(self@ =~= orig@.take(k - 1));
                assert(self.order() =~= orig.order().take(k - 1));
                assert(orig@[k - 1] == orig@.skip(k - 1)[0]);
                assert(list@ =~= orig@.skip(k - 1));
                Self::lemma_take_contains(orig.used_order@, k - 1, p);
            }
        }
        proof {
            if orig.valid(index) {
                assert(self@.len() == p);
            }
        }
        list
    }

    /// Discards the last arena slot, which must be free, unlinking it from
    /// the free chain.  No occupied slot is touched.
    fn shrink_one(&mut self)
        requires
            old(self).wf(),
            old(self).elems@.len() > 0,
            old(self).elems@.last() is None,
        ensures
            final(self).wf(),
            final(self).used_order@ == old(self).used_order@,
            final(self)@ == old(self)@,
            final(self).elems@ == old(self).elems@.take(old(self).elems@.len() - 1),
            final(self).size == old(self).size,
    {
        let c = self.elems.len();
        let ghost j = c - 1;
        let h = ListIndex::new().set(Some(c - 1));
        proof {
            assert(self.free_order@.contains(j as int));
        }
        self.linkout_free(h);
        let ghost mid = *self;
        self.elems.pop();
        self.nodes.pop();
        proof {
            assert forall|k: int| 0 <= k < self.used_order@.len() implies 0 <= (
            #[trigger] self.used_order@[k]) < self.nodes@.len() && self.nodes@[self.used_order@[k]]
                == mid.nodes@[self.used_order@[k]] by {
                assert(chain_node_ok(mid.nodes@, self.used_order@, k));
                assert(self.used_order@.contains(self.used_order@[k]));
            }
            lemma_chain_same2(mid.nodes@, self.nodes@, self.used_order@, self.used);
            assert forall|k: int| 0 <= k < self.free_order@.len() implies 0 <= (
            #[trigger] self.free_order@[k]) < self.nodes@.len() && self.nodes@[self.free_order@[k]]
                == mid.nodes@[self.free_order@[k]] by {
                assert(chain_node_ok(mid.nodes@, self.free_order@, k));
                assert(self.free_order@.contains(self.free_order@[k]));
            }
            lemma_chain_same2(mid.nodes@, self.nodes@, self.free_order@, self.free);
            assert(self@ =~= old(self)@);
        }
    }

    /// Shrinks the arena by discarding the maximal run of free slots at its
    /// end.  No handle changes validity or meaning: every element keeps its
    /// slot and its position.
    pub fn trim_safe(&mut self)
        requires
            old(self).wf(),
        ensures
            final(self).wf(),
            final(self).order() == old(self).order(),
            final(self)@ == old(self)@,
            final(self).slots() == old(self).slots().take(
                old(self).slots().len() - trailing_free(old(self).slots()),
            ),
    {
        let ghost orig_slots = self.elems@;
        let ghost orig_order = self.used_order@;
        let ghost orig_view = self@;
        proof {
            assert(orig_slots.take(orig_slots.len() as int) =~= orig_slots);
        }
        loop
            invariant_except_break
                self.wf(),
                self.used_order@ == orig_order,
                self@ == orig_view,
                self.elems@.len() <= orig_slots.len(),
                self.elems@ == orig_slots.take(self.elems@.len() as int),
                trailing_free(orig_slots) == trailing_free(self.elems@) + (orig_slots.len()
                    - self.elems@.len()),
            ensures
                self.wf(),
                self.used_order@ == orig_order,
                self@ == orig_view,
                self.elems@.len() <= orig_slots.len(),
                self.elems@ == orig_slots.take(self.elems@.len() as int),
                trailing_free(orig_slots) == trailing_free(self.elems@) + (orig_slots.len()
                    - self.elems@.len()),
                self.elems@.len() == 0 || self.elems@.last() is Some,
            decreases self.elems@.len(),
        {
            let c = self.elems.len();
            if c == 0 {
                break;
            }
            if self.elems[c - 1].is_some() {
                break;
            }
            let ghost pre = self.elems@;
            self.shrink_one();
            proof {
                assert(pre.drop_last() =~= orig_slots.take(self.elems@.len() as int));
            }
        }
        proof {
            assert(trailing_free(self.elems@) == 0);
        }
    }

    /// Moves the element in the last arena slot into the first slot of the
    /// free chain, keeping its list position; the last slot becomes free.
    /// The handle of the moved element changes meaning.
    fn replace_dest_with_source(&mut self, src: ListIndex)
        requires
            old(self).wf(),
            old(self).valid(src),
            old(self).free_order@.len() > 0,
        ensures
            final(self).wf(),
            final(self)@ == old(self)@,
            final(self).elems@.len() == old(self).elems@.len(),
            final(self).elems@[src@.unwrap()] is None,
    {
        let ghost orig = *old(self);
        let ghost p = self.pos_of(src);
        let ghost ord = self.used_order@;
        proof {
            assert(0 <= p < ord.len() && ord[p] == src@.unwrap());
            assert(chain_node_ok(self.nodes@, ord, p));
            if p > 0 {
                assert(chain_node_ok(self.nodes@, ord, p - 1));
            }
            if p < ord.len() - 1 {
                assert(chain_node_ok(self.nodes@, ord, p + 1));
            }
            self.lemma_len_le_capacity();
        }
        let at = match src.get() {
            Some(at) => at,
            None => { return; },
        };
        let next = self.nodes[at].next;
        let prev = self.nodes[at].prev;
        let elem = match self.remove(src) {
            Some(e) => e,
            None => { return; },
        };
        proof {
            ord.remove_ensures(p);
            lemma_remove_no_duplicates(ord, p);
            orig@.remove_ensures(p);
        }
        let this = self.new_node(elem);
        let ghost mid = *self;
        proof {
            if p < ord.len() - 1 {
                assert(self.used_order@[p] == ord[p + 1]);
                lemma_index_of_self(self.used_order@, p);
                assert(next@ == Some(ord[p + 1]));
            }
            if p > 0 {
                assert(self.used_order@[p - 1] == ord[p - 1]);
                lemma_index_of_self(self.used_order@, p - 1);
                assert(prev@ == Some(ord[p - 1]));
            }
        }
        if next.is_some() {
            self.linkin_this_before_that(this, next);
        } else if prev.is_some() {
            self.linkin_this_after_that(this, prev);
        } else {
            self.linkin_first(this);
        }
        proof {
            assert(self.used_order@ == mid.used_order@.insert(p, this@.unwrap()));
            orig.lemma_next_slot_fresh();
            Self::lemma_chain_in_range(orig.nodes@, orig.used_order@, orig.used);
            assert forall|k: int| 0 <= k < mid.used_order@.len() implies 0 <= (
            #[trigger] mid.used_order@[k]) < mid.elems@.len() by {
                if k < p {
                    assert(mid.used_order@[k] == ord[k]);
                } else {
                    assert(mid.used_order@[k] == ord[k + 1]);
                }
            }
            Self::lemma_view_insert(mid, *self, p, elem);
            assert(orig@.remove(p).insert(p, orig@[p]) =~= orig@);
            assert(!self.used_order@.contains(src@.unwrap())) by {
                lemma_insert_contains(mid.used_order@, p, this@.unwrap(), src@.unwrap());
                lemma_remove_contains(ord, p, src@.unwrap());
            }
            assert(self.free_order@.contains(src@.unwrap())) by {
                assert(mid.free_order@ == orig.free_order@.push(src@.unwrap()).drop_first());
                let f = orig.free_order@.push(src@.unwrap());
                assert(f.drop_first()[f.len() - 2] == src@.unwrap());
            }
        }
    }

    /// Shrinks the arena to exactly the length of the list by moving
    /// elements out of the trailing slots into free slots and truncating.
    /// The sequence of elements is unchanged, but the handles of relocated
    /// elements silently change meaning; use [`Self::trim_safe`] to keep
    /// every handle valid.
    pub fn trim_swap(&mut self)
        requires
            old(self).wf(),
        ensures
            final(self).wf(),
            final(self)@ == old(self)@,
            final(self).slots().len() == final(self)@.len(),
            final(self).free_slots().len() == 0,
    {
        let ghost orig_view = self@;
        loop
            invariant_except_break
                self.wf(),
                self@ == orig_view,
            ensures
                self.wf(),
                self@ == orig_view,
                self.elems@.len() == self.used_order@.len(),
            decreases
                    self.elems@.len(),
                    (if self.elems@.len() > 0 && self.elems@.last() is Some {
                        1int
                    } else {
                        0int
                    }),
        {
            let c = self.elems.len();
            let n = self.len();
            if c <= n {
                proof {
                    self.lemma_len_le_capacity();
                }
                break;
            }
            if self.elems[c - 1].is_some() {
                let src = ListIndex::new().set(Some(c - 1));
                proof {
                    assert(self.used_order@.contains((c - 1) as int));
                }
                self.replace_dest_with_source(src);
            } else {
                self.shrink_one();
            }
        }
    }

    /// Creates a read cursor over all elements, positioned at both ends.
    pub fn iter(&self) -> (r: crate::listiter::ListIter)
        requires
            self.wf(),
        ensures
            r.valid_for(*self),
            r.remaining() == self@.len(),
            self@.len() > 0 ==> r.front_pos(*self) == 0 && r.back_pos(*self) == self@.len() - 1,
    {
        crate::listiter::ListIter::fresh(self)
    }

    /// Creates a draining cursor: stepping it removes and yields the
    /// elements of this list from either end.
    pub fn drain_iter(&mut self) -> (r: crate::listdrainiter::ListDrainIter)
        requires
            old(self).wf(),
        ensures
            *final(self) == *old(self),
            r.valid_for(*final(self)),
    {
        crate::listdrainiter::ListDrainIter::new(self)
    }

    /// Creates a mutating cursor over all elements, positioned at both
    /// ends.
    pub fn iter_mut(&self) -> (r: crate::listitermut::ListIterMut)
        requires
            self.wf(),
        ensures
            r.valid_for(*self),
            r.remaining() == self@.len(),
            self@.len() > 0 ==> r.front_pos(*self) == 0 && r.back_pos(*self) == self@.len() - 1,
    {
        crate::listitermut::ListIterMut::fresh(self)
    }

    /// At every position of the used chain, `index_of` inverts indexing:
    /// the slot stored there is found back at that position.
    pub proof fn lemma_order_pos(self, p: int)
        requires
            self.wf(),
            0 <= p < self.order().len(),
        ensures
            self.order().contains(self.order()[p]),
            self.order().index_of(self.order()[p]) == p,
    {
        lemma_index_of_self(self.used_order@, p);
    }

    /// Walking forwards from the slot at position `p` takes one position
    /// per step, and falls off the end to the null handle, where it stays.
    pub proof fn lemma_walk_next_from(self, p: int, k: int)
        requires
            self.wf(),
            0 <= p < self.order().len(),
            0 <= k,
        ensures
            self.walk_next(Some(self.order()[p]), k as nat) == (if p + k < self.order().len() {
                Some(self.order()[p + k])
            } else {
                None::<int>
            }),
        decreases k,
    {
        self.lemma_order_pos(p);
        if k > 0 {
            if p == self.order().len() - 1 {
                assert(self.step_next(Some(self.order()[p])) is None);
            } else {
                self.lemma_walk_next_from(p + 1, k - 1);
            }
        }
    }

    /// Walking backwards from the slot at position `p` takes one position
    /// per step, and falls off the beginning to the null handle, where it
    /// stays.
    pub proof fn lemma_walk_prev_from(self, p: int, k: int)
        requires
            self.wf(),
            0 <= p < self.order().len(),
            0 <= k,
        ensures
            self.walk_prev(Some(self.order()[p]), k as nat) == (if p - k >= 0 {
                Some(self.order()[p - k])
            } else {
                None::<int>
            }),
        decreases k,
    {
        self.lemma_order_pos(p);
        if k > 0 {
            if p == 0 {
                assert(self.step_prev(Some(self.order()[p])) is None);
            } else {
                self.lemma_walk_prev_from(p - 1, k - 1);
            }
        }
    }

    /// Forward traversal from the null handle visits exactly the `len()`
    /// occupied slots, in list order, and then stays at the null handle:
    /// the `k`-th step lands on the slot of position `k - 1`.
    pub proof fn lemma_forward_traversal(self, k: int)
        requires
            self.wf(),
            0 <= k,
        ensures
            self.walk_next(None::<int>, k as nat) == (if 1 <= k <= self@.len() {
                Some(self.order()[k - 1])
            } else {
                None::<int>
            }),
    {
        if k > 0 {
            if self.order().len() == 0 {
                assert(self.step_next(None::<int>) is None);
            } else {
                self.lemma_walk_next_from(0, k - 1);
            }
        }
    }

    /// Backward traversal from the null handle visits exactly the `len()`
    /// occupied slots, in reverse list order, and then stays at the null
    /// handle: the `k`-th step lands on the slot of position `len() - k`.
    /// Together with [`Self::lemma_forward_traversal`] this says the two
    /// traversals visit the same slots, each in the other's reverse order.
    pub proof fn lemma_backward_traversal(self, k: int)
        requires
            self.wf(),
            0 <= k,
        ensures
            self.walk_prev(None::<int>, k as nat) == (if 1 <= k <= self@.len() {
                Some(self.order()[self@.len() - k])
            } else {
                None::<int>
            }),
    {
        if k > 0 {
            if self.order().len() == 0 {
                assert(self.step_prev(None::<int>) is None);
            } else {
                self.lemma_walk_prev_from(self.order().len() - 1, k - 1);
            }
        }
    }

    /// Immediately after `insert_before(index, elem)` returns the handle
    /// `r`, the predecessor of `r` is the slot that preceded `index` before
    /// the call, or the null handle if `index` was first.
    pub proof fn lemma_insert_before_prev(pre: Self, post: Self, index: ListIndex, r: ListIndex, elem: T)
        requires
            pre.wf(),
            post.wf(),
            pre.valid(index),
            r@ == Some(pre.next_slot()),
            Self::inserted_at(pre, post, pre.pos_of(index), elem),
        ensures
            post.step_prev(r@) == (if pre.pos_of(index) == 0 {
                None::<int>
            } else {
                Some(pre.order()[pre.pos_of(index) - 1])
            }),
    {
        let p = pre.pos_of(index);
        let j = pre.next_slot();
        assert(0 <= p < pre.order().len() && pre.order()[p] == index@.unwrap());
        pre.order().insert_ensures(p, j);
        assert(post.order()[p] == j);
        post.lemma_order_pos(p);
    }

    /// A list built from an ordered sequence reads back, by traversal, as
    /// exactly that sequence: the round trip through the structure is the
    /// identity.
    pub proof fn lemma_round_trip(l: Self, xs: Seq<T>, r: Seq<T>)
        requires
            l@ == xs,
            r.len() == l@.len(),
            forall|q: int| 0 <= q < r.len() ==> r[q] == l@[q],
        ensures
            r == xs,
    {
        assert(r =~= xs);
    }

    /// Every slot in the trailing free run is unoccupied, and the slot just
    /// below the run, if any, is occupied.
    pub proof fn lemma_trailing_free_region(s: Seq<Option<T>>)
        ensures
            0 <= trailing_free(s) <= s.len(),
            forall|i: int| s.len() - trailing_free(s) <= i < s.len() ==> s[i] is None,
            s.len() - trailing_free(s) - 1 >= 0 ==> s[s.len() - trailing_free(s) - 1] is Some,
        decreases s.len(),
    {
        if s.len() > 0 && s.last() is None {
            Self::lemma_trailing_free_region(s.drop_last());
            let t = s.drop_last();
            assert forall|i: int| s.len() - trailing_free(s) <= i < s.len() implies s[i]
                is None by {
                if i < s.len() - 1 {
                    assert(t[i] is None);
                }
            }
            if s.len() - trailing_free(s) - 1 >= 0 {
                assert(s[s.len() - trailing_free(s) - 1] == t[t.len() - trailing_free(t) - 1]);
            }
        }
    }

    /// After `trim_safe`, the capacity equals the length only if every free
    /// slot was in the trailing run.
    pub proof fn lemma_trim_safe_exact(pre: Self, post: Self)
        requires
            pre.wf(),
            post.wf(),
            post@ == pre@,
            post.slots() == pre.slots().take(pre.slots().len() - trailing_free(pre.slots())),
        ensures
            post.slots().len() == post@.len() ==> forall|j: int|
                0 <= j < pre.slots().len() && pre.slots()[j] is None ==> j >= pre.slots().len()
                    - trailing_free(pre.slots()),
    {
        Self::lemma_trailing_free_region(pre.slots());
        if post.slots().len() == post@.len() {
            assert(post.used_order@.len() + post.free_order@.len() == post.elems@.len());
            assert(post.free_order@.len() == 0);
            assert forall|j: int|
                0 <= j < pre.slots().len() && pre.slots()[j] is None implies j >= pre.slots().len()
                    - trailing_free(pre.slots()) by {
                if j < pre.slots().len() - trailing_free(pre.slots()) {
                    assert(post.elems@[j] is None);
                    assert(post.free_order@.contains(j));
                }
            }
        }
    }

    /// The length never exceeds the capacity: the occupied slots are a
    /// duplicate-free part of the arena.
    pub proof fn lemma_len_le_capacity(self)
        requires
            self.wf(),
        ensures
            self@.len() <= self.slots().len(),
    {
    }
}

impl<T> Default for IndexList<T> {
    /// The default list is empty.
    fn default() -> (r: Self)
        ensures
            r.wf(),
            r@ == Seq::<T>::empty(),
            r.slots().len() == 0,
    {
        IndexList::new()
    }
}

impl IndexList<String> {
    /// Renders the list as its elements in traversal order, joined by
    /// `" >< "` inside brackets.
    pub fn to_string(&self) -> (r: String)
        requires
            self.wf(),
        ensures
            r@ == seq!['['] + joined(self@.map_values(|e: String| e@)) + seq![']'],
    {
        let ghost parts = self@.map_values(|e: String| e@);
        let mut r = <String as vstd::string::StringExecFns>::from_str("[");
        proof {
            reveal_strlit("[");
            assert(r@ =~= seq!['[']);
            assert(parts.take(0) =~= Seq::<Seq<char>>::empty());
            if self.used_order@.len() > 0 {
                lemma_index_of_self(self.used_order@, 0);
            }
        }
        let mut cur = self.first_index();
        let mut count: usize = 0;
        while cur.is_some()
            invariant
                self.wf(),
                parts == self@.map_values(|e: String| e@),
                count <= self@.len(),
                cur@ is Some ==> self.valid(cur) && self.pos_of(cur) == count,
                cur@ is None ==> count == self@.len(),
                r@ == seq!['['] + joined(parts.take(count as int)),
            decreases self@.len() - count,
        {
            let ghost p = self.pos_of(cur);
            if count > 0 {
                vstd::string::StringExecFns::append(&mut r, " >< ");
                proof {
                    reveal_strlit(" >< ");
                    assert((" >< ")@ =~= seq![' ', '>', '<', ' ']);
                }
            }
            match self.get(cur) {
                Some(x) => {
                    vstd::string::StringExecFns::append(&mut r, x.as_str());
                },
                None => {},
            }
            count = count + 1;
            cur = self.next_index(cur);
            proof {
                if p + 1 < self.used_order@.len() {
                    lemma_index_of_self(self.used_order@, p + 1);
                }
                let t = parts.take(count as int);
                assert(t.len() == count);
                assert(t.last() == parts[p]);
                if count > 1 {
                    assert(t.drop_last() =~= parts.take(p));
                    assert(r@ =~= seq!['['] + joined(t));
                } else {
                    assert(r@ =~= seq!['['] + joined(t));
                }
            }
        }
        vstd::string::StringExecFns::append(&mut r, "]");
        proof {
            reveal_strlit("]");
            assert(parts.take(self@.len() as int) =~= parts);
            assert(r@ =~= seq!['['] + joined(parts) + seq![']']);
        }
        r
    }
}

impl<'a> IndexList<&'a str> {
    /// Renders the list as its elements in traversal order, joined by
    /// `" >< "` inside brackets.
    pub fn to_string(&self) -> (r: String)
        requires
            self.wf(),
        ensures
            r@ == seq!['['] + joined(self@.map_values(|e: &str| e@)) + seq![']'],
    {
        let ghost parts = self@.map_values(|e: &str| e@);
        let mut r = <String as vstd::string::StringExecFns>::from_str("[");
        proof {
            reveal_strlit("[");
            assert(r@ =~= seq!['[']);
            assert(parts.take(0) =~= Seq::<Seq<char>>::empty());
            if self.used_order@.len() > 0 {
                lemma_index_of_self(self.used_order@, 0);
            }
        }
        let mut cur = self.first_index();
        let mut count: usize = 0;
        while cur.is_some()
            invariant
                self.wf(),
                parts == self@.map_values(|e: &str| e@),
                count <= self@.len(),
                cur@ is Some ==> self.valid(cur) && self.pos_of(cur) == count,
                cur@ is None ==> count == self@.len(),
                r@ == seq!['['] + joined(parts.take(count as int)),
            decreases self@.len() - count,
        {
            let ghost p = self.pos_of(cur);
            if count > 0 {
                vstd::string::StringExecFns::append(&mut r, " >< ");
                proof {
                    reveal_strlit(" >< ");
                    assert((" >< ")@ =~= seq![' ', '>', '<', ' ']);
                }
            }
            match self.get(cur) {
                Some(x) => {
                    vstd::string::StringExecFns::append(&mut r, x);
                },
                None => {},
            }
            count = count + 1;
            cur = self.next_index(cur);
            proof {
                if p + 1 < self.used_order@.len() {
                    lemma_index_of_self(self.used_order@, p + 1);
                }
                let t = parts.take(count as int);
                assert(t.len() == count);
                assert(t.last() == parts[p]);
                if count > 1 {
                    assert(t.drop_last() =~= parts.take(p));
                    assert(r@ =~= seq!['['] + joined(t));
                } else {
                    assert(r@ =~= seq!['['] + joined(t));
                }
            }
        }
        vstd::string::StringExecFns::append(&mut r, "]");
        proof {
            reveal_strlit("]");
            assert(parts.take(self@.len() as int) =~= parts);
            assert(r@ =~= seq!['['] + joined(parts) + seq![']']);
        }
        r
    }
}

} // verus!
