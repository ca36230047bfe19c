//! A doubly linked list.
//!
//! The nodes live in one owned arena and point at each other by index,
//! forwards and backwards; a ghost sequence records the order of the
//! indices from the first node to the last, so that every operation can
//! state exactly how the sequence of stored values changes.

use vstd::prelude::*;

verus! {

/// One node of a [`LinkedList`]: a value and the arena indices of its two
/// neighbours.
pub struct DbNode<T> {
    pub(crate) data: T,
    pub(crate) next: Option<usize>,
    pub(crate) prev: Option<usize>,
}

/// A doubly linked list over an arena of nodes.
pub struct LinkedList<T> {
    nodes: Vec<DbNode<T>>,
    first: Option<usize>,
    last: Option<usize>,
    order: Ghost<Seq<int>>,
}

impl<T> View for LinkedList<T> {
    type V = Seq<T>;

    /// The stored values, from the first node to the last.
    closed spec fn view(&self) -> Seq<T> {
        self.order@.map_values(|i: int| self.nodes@[i].data)
    }
}

impl<T> LinkedList<T> {
    /// The arena indices in list order describe every node once, and the
    /// chains of forward and backward links follow that order.
    pub closed spec fn wf(&self) -> bool {
        let ord = self.order@;
        let n = self.nodes@.len() as int;
        &&& ord.len() == n
        &&& forall|k: int| 0 <= k < n ==> 0 <= #[trigger] ord[k] < n
        &&& ord.no_duplicates()
        &&& forall|k: int|
            0 <= k < n ==> (#[trigger] self.nodes@[ord[k]]).next == (if k + 1 < n {
                Some(ord[k + 1] as usize)
            } else {
                None
            })
        &&& forall|k: int|
            0 <= k < n ==> (#[trigger] self.nodes@[ord[k]]).prev == (if k >= 1 {
                Some(ord[k - 1] as usize)
            } else {
                None
            })
        &&& self.first == (if n > 0 {
            Some(self.order@[0] as usize)
        } else {
            None::<usize>
        })
        &&& self.last == (if n > 0 {
            Some(self.order@[n - 1] as usize)
        } else {
            None::<usize>
        })
    }

    /// An empty list.
    pub fn new() -> (l: Self)
        ensures
            l.wf(),
            l@ == Seq::<T>::empty(),
    {
        let l = LinkedList { nodes: Vec::new(), first: None, last: None, order: Ghost(Seq::empty()) };
        proof {
            assert(l@ =~= Seq::<T>::empty());
        }
        l
    }

    /// Prepend `data` before the first node.
    pub fn push_front(&mut self, data: T)
        requires
            old(self).wf(),
        ensures
            final(self).wf(),
            final(self)@ == seq![data] + old(self)@,
    {
        let n: usize = self.nodes.len();
        let ghost ord0 = self.order@;
        match self.first {
            Some(f) => {
                self.nodes.push(DbNode { data, next: Some(f), prev: None });
                self.nodes[f].prev = Some(n);
                self.first = Some(n);
            },
            None => {
                self.nodes.push(DbNode { data, next: None, prev: None });
                self.last = Some(n);
                self.first = Some(n);
            },
        }
        proof {
            self.order = Ghost(seq![n as int] + ord0);
            let ord = self.order@;
            assert forall|k: int, l: int|
                0 <= k < ord.len() && 0 <= l < ord.len() && k != l implies ord[k] != ord[l] by {
                if k >= 1 && l >= 1 {
                    assert(ord0[k - 1] != ord0[l - 1]);
                } else if k == 0 {
                    assert(0 <= ord0[l - 1] < n);
                } else {
                    assert(0 <= ord0[k - 1] < n);
                }
            }
            assert(self@ =~= seq![data] + old(self)@);
        }
    }

    /// Append `data` after the last node.
    pub fn push_back(&mut self, data: T)
        requires
            old(self).wf(),
        ensures
            final(self).wf(),
            final(self)@ == old(self)@.push(data),
    {
        let n: usize = self.nodes.len();
        let ghost ord0 = self.order@;
        match self.last {
            Some(r) => {
                self.nodes.push(DbNode { data, next: None, prev: Some(r) });
                self.nodes[r].next = Some(n);
                self.last = Some(n);
            },
            None => {
                self.nodes.push(DbNode { data, next: None, prev: None });
                self.last = Some(n);
                self.first = Some(n);
            },
        }
        proof {
            self.order = Ghost(ord0.push(n as int));
            let ord = self.order@;
            assert forall|k: int, l: int|
                0 <= k < ord.len() && 0 <= l < ord.len() && k != l implies ord[k] != ord[l] by {
                if k < ord0.len() && l < ord0.len() {
                    assert(ord0[k] != ord0[l]);
                } else if k == ord0.len() {
                    assert(0 <= ord0[l] < n);
                } else {
                    assert(0 <= ord0[k] < n);
                }
            }
            assert(self@ =~= old(self)@.push(data));
        }
    }
}

} // verus!
