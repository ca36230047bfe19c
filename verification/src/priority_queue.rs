//! A priority queue backed by a binary heap.
//!
//! The ordering of the queue is not baked into the element type: every
//! operation that has to compare elements receives a [`Comparator`], a
//! strategy value whose `prefers` relation says which of two elements has
//! the higher priority.  Handing the strategy to each call (instead of
//! capturing it at construction time) keeps the ownership of any state the
//! strategy reads — such as the live distance table of the shortest-path
//! engine — explicit at every mutation.

use vstd::prelude::*;

verus! {

use vstd::seq_lib::group_to_multiset_ensures;

/// An ordering strategy for a heap: `prefers(a, b)` means "`a` has strictly
/// higher priority than `b`".  The executable `prefer` must agree with the
/// specification-level relation on every pair of elements.
pub trait Comparator<T> {
    /// The meaning of "`a` has strictly higher priority than `b`".
    spec fn prefers(&self, a: T, b: T) -> bool;

    /// Decide at run time whether `a` has strictly higher priority than `b`.
    fn prefer(&self, a: &T, b: &T) -> (r: bool)
        ensures
            r == self.prefers(*a, *b),
    ;
}

/// Index of the parent of heap slot `i`, for `i >= 1`.
pub open spec fn parent_of(i: int) -> int {
    (i - 1) / 2
}

/// No element is preferred over its own parent: the heap invariant over the
/// plain sequence of slots.
pub open spec fn heap_ordered<T, C: Comparator<T>>(cmp: C, s: Seq<T>) -> bool {
    forall|i: int|
        1 <= i < s.len() ==> !cmp.prefers(#[trigger] s[i], s[parent_of(i)])
}

/// The heap invariant, allowed to fail at slot `j` only.
pub open spec fn heap_ordered_except<T, C: Comparator<T>>(cmp: C, s: Seq<T>, j: int) -> bool {
    forall|i: int|
        1 <= i < s.len() && i != j ==> !cmp.prefers(#[trigger] s[i], s[parent_of(i)])
}

/// The heap invariant, allowed to fail only on the edges from the children
/// of the root: the state right after the root has been replaced by the
/// last element.
pub open spec fn heap_ordered_below_root<T, C: Comparator<T>>(cmp: C, s: Seq<T>) -> bool {
    forall|i: int|
        3 <= i < s.len() ==> !cmp.prefers(#[trigger] s[i], s[parent_of(i)])
}

/// Two elements are never each preferred over the other.
pub open spec fn asymmetric<T, C: Comparator<T>>(cmp: C) -> bool {
    forall|a: T, b: T| #[trigger] cmp.prefers(a, b) ==> !cmp.prefers(b, a)
}

/// "Not preferred over" is transitive.  Together with asymmetry this is
/// what a strict weak ordering — a consistent priority — provides.
pub open spec fn co_transitive<T, C: Comparator<T>>(cmp: C) -> bool {
    forall|a: T, b: T, c: T|
        !(#[trigger] cmp.prefers(b, a)) && !(#[trigger] cmp.prefers(c, b)) ==> !cmp.prefers(c, a)
}

/// A comparator that behaves as an ordering: the preconditions under which
/// the heap invariant is maintained by `push` and `pop`.
pub open spec fn valid_ordering<T, C: Comparator<T>>(cmp: C) -> bool {
    asymmetric(cmp) && co_transitive(cmp)
}

/// A binary heap over elements of type `T`, laid out in an array: slot 0 is
/// the root and the children of slot `i` are slots `2 * i + 1` and
/// `2 * i + 2`.
pub struct PriorityQueue<T> {
    heap: Vec<T>,
}

impl<T> View for PriorityQueue<T> {
    type V = Seq<T>;

    closed spec fn view(&self) -> Seq<T> {
        self.heap@
    }
}

impl<T: Copy> PriorityQueue<T> {
    /// The heap invariant under the given strategy.
    pub open spec fn well_formed<C: Comparator<T>>(&self, cmp: &C) -> bool {
        heap_ordered(*cmp, self@)
    }

    /// Create an empty queue.
    pub fn new() -> (q: Self)
        ensures
            q@ == Seq::<T>::empty(),
    {
        PriorityQueue { heap: Vec::new() }
    }

    /// The number of stored elements.
    pub fn size(&self) -> (n: usize)
        ensures
            n == self@.len(),
    {
        self.heap.len()
    }

    /// Whether the queue holds no element.
    pub fn is_empty(&self) -> (r: bool)
        ensures
            r == (self@.len() == 0),
    {
        self.heap.len() == 0
    }

    /// The slot of the parent of slot `idx`.
    pub fn _parent(&self, idx: usize) -> (p: usize)
        requires
            idx >= 1,
        ensures
            p == parent_of(idx as int),
    {
        (idx - 1) / 2
    }

    /// The slot of the left child of slot `idx`.
    pub fn _left_child(&self, idx: usize) -> (c: usize)
        requires
            2 * idx + 1 <= usize::MAX,
        ensures
            c == 2 * idx + 1,
    {
        2 * idx + 1
    }

    /// The slot of the right child of slot `idx`.
    pub fn _right_child(&self, idx: usize) -> (c: usize)
        requires
            2 * idx + 2 <= usize::MAX,
        ensures
            c == 2 * idx + 2,
    {
        2 * idx + 2
    }

    /// Whether the element in slot `i` is preferred over the one in slot `j`.
    fn _compare<C: Comparator<T>>(&self, cmp: &C, i: usize, j: usize) -> (r: bool)
        requires
            i < self@.len(),
            j < self@.len(),
        ensures
            r == cmp.prefers(self@[i as int], self@[j as int]),
    {
        cmp.prefer(&self.heap[i], &self.heap[j])
    }

    /// Exchange the elements in slots `i` and `j`.
    fn _swap(&mut self, i: usize, j: usize)
        requires
            i < old(self)@.len(),
            j < old(self)@.len(),
        ensures
            final(self)@ == old(self)@.update(i as int, old(self)@[j as int]).update(
                j as int,
                old(self)@[i as int],
            ),
            final(self)@.to_multiset() == old(self)@.to_multiset(),
    {
        let vi: T = self.heap[i];
        let vj: T = self.heap[j];
        self.heap[i] = vj;
        self.heap[j] = vi;
        proof {
            broadcast use group_to_multiset_ensures;

            let s = old(self)@;
            let s1 = s.update(i as int, s[j as int]);
            let s2 = s1.update(j as int, s[i as int]);
            assert(s.contains(s[i as int]));
            assert(s1.contains(s1[j as int]));
            assert(s2.to_multiset() =~= s.to_multiset());
        }
    }

    /// Let the element in the last slot rise until it is no longer preferred
    /// over its parent.
    fn _sift_up<C: Comparator<T>>(&mut self, cmp: &C)
        requires
            old(self)@.len() >= 1,
        ensures
            final(self)@.len() == old(self)@.len(),
            final(self)@.to_multiset() == old(self)@.to_multiset(),
            valid_ordering(*cmp) && heap_ordered_except(
                *cmp,
                old(self)@,
                old(self)@.len() - 1,
            ) ==> heap_ordered(*cmp, final(self)@),
    {
        let ghost hyp = valid_ordering(*cmp) && heap_ordered_except(
            *cmp,
            old(self)@,
            old(self)@.len() - 1,
        );
        let mut node_index: usize = self.size() - 1;
        while node_index > 0 && self._compare(cmp, node_index, self._parent(node_index))
            invariant
                node_index < self@.len(),
                self@.len() == old(self)@.len(),
                self@.to_multiset() == old(self)@.to_multiset(),
                hyp == (valid_ordering(*cmp) && heap_ordered_except(
                    *cmp,
                    old(self)@,
                    old(self)@.len() - 1,
                )),
                hyp ==> heap_ordered_except(*cmp, self@, node_index as int),
                hyp ==> forall|i: int|
                    1 <= i < self@.len() && parent_of(i) == node_index && node_index >= 1
                        ==> !cmp.prefers(#[trigger] self@[i], self@[parent_of(node_index as int)]),
            decreases node_index,
        {
            let parent: usize = self._parent(node_index);
            let ghost s = self@;
            self._swap(node_index, parent);
            proof {
                if hyp {
                    let t = self@;
                    let j = node_index as int;
                    let p = parent as int;
                    assert forall|i: int|
                        1 <= i < t.len() && i != p implies !cmp.prefers(
                        #[trigger] t[i],
                        t[parent_of(i)],
                    ) by {
                        if i == j {
                            // the displaced parent is now below the risen element
                            assert(cmp.prefers(s[j], s[p]));
                            assert(!cmp.prefers(s[p], s[j]));
                        } else if parent_of(i) == j {
                            // grandchildren were covered against their grandparent
                            assert(!cmp.prefers(s[i], s[parent_of(j)]));
                        } else if parent_of(i) == p {
                            // the sibling was not preferred over the old parent,
                            // which the risen element beats
                            assert(!cmp.prefers(s[i], s[p]));
                            assert(!cmp.prefers(s[p], s[j]));
                        } else {
                            assert(!cmp.prefers(s[i], s[parent_of(i)]));
                        }
                    }
                    assert forall|i: int|
                        1 <= i < t.len() && parent_of(i) == p && p >= 1 implies !cmp.prefers(
                        #[trigger] t[i],
                        t[parent_of(p)],
                    ) by {
                        if i == j {
                            assert(!cmp.prefers(s[p], s[parent_of(p)]));
                        } else {
                            assert(!cmp.prefers(s[i], s[p]));
                            assert(cmp.prefers(s[j], s[p]));
                            assert(!cmp.prefers(s[parent_of(p)], s[j]) ==> !cmp.prefers(
                                s[i],
                                s[j],
                            ));
                            assert(!cmp.prefers(s[i], t[parent_of(p)]));
                        }
                    }
                }
            }
            node_index = parent;
        }
    }

    /// Append `value` and restore the heap invariant upwards; returns the
    /// new size of the queue.
    pub fn push<C: Comparator<T>>(&mut self, cmp: &C, value: T) -> (n: usize)
        ensures
            final(self)@.len() == old(self)@.len() + 1,
            n == final(self)@.len(),
            final(self)@.to_multiset() == old(self)@.to_multiset().insert(value),
            forall|x: T|
                final(self)@.contains(x) <==> (old(self)@.contains(x) || x == value),
            valid_ordering(*cmp) && old(self).well_formed(cmp) ==> final(self).well_formed(cmp),
    {
        self.heap.push(value);
        proof {
            broadcast use group_to_multiset_ensures;

            assert(heap_ordered(*cmp, old(self)@) ==> heap_ordered_except(
                *cmp,
                self@,
                self@.len() - 1,
            ));
        }
        self._sift_up(cmp);
        proof {
            broadcast use group_to_multiset_ensures;
            broadcast use vstd::multiset::group_multiset_axioms;

            assert forall|x: T| self@.contains(x) <==> (old(self)@.contains(x) || x == value) by {
                assert(self@.to_multiset().count(x) == old(self)@.to_multiset().insert(
                    value,
                ).count(x));
            }
        }
        self.heap.len()
    }

    /// Let the element in the root slot descend, always exchanged with its
    /// most preferred child, until no child is preferred over it.
    fn _sift_down<C: Comparator<T>>(&mut self, cmp: &C)
        ensures
            final(self)@.len() == old(self)@.len(),
            final(self)@.to_multiset() == old(self)@.to_multiset(),
            valid_ordering(*cmp) && heap_ordered_below_root(*cmp, old(self)@) ==> heap_ordered(
                *cmp,
                final(self)@,
            ),
    {
        let ghost hyp = valid_ordering(*cmp) && heap_ordered_below_root(*cmp, old(self)@);
        let size: usize = self.size();
        let mut node_index: usize = 0;
        if size == 0 {
            return ;
        }
        while (node_index < size / 2 && self._compare(cmp, 2 * node_index + 1, node_index))
            || (node_index < (size - 1) / 2 && self._compare(cmp, 2 * node_index + 2, node_index))
            invariant
                size == self@.len(),
                size >= 1,
                node_index < size,
                self@.len() == old(self)@.len(),
                self@.to_multiset() == old(self)@.to_multiset(),
                hyp == (valid_ordering(*cmp) && heap_ordered_below_root(*cmp, old(self)@)),
                hyp ==> forall|i: int|
                    1 <= i < self@.len() && parent_of(i) != node_index ==> !cmp.prefers(
                        #[trigger] self@[i],
                        self@[parent_of(i)],
                    ),
                hyp ==> forall|i: int|
                    1 <= i < self@.len() && parent_of(i) == node_index && node_index >= 1
                        ==> !cmp.prefers(#[trigger] self@[i], self@[parent_of(node_index as int)]),
            decreases size - node_index,
        {
            proof {
                assert(2 * node_index + 1 < size);
            }
            let mut greater_index: usize = 2 * node_index + 1;
            if node_index < (size - 1) / 2 && self._compare(cmp, 2 * node_index + 2, 2 * node_index
                + 1) {
                greater_index = 2 * node_index + 2;
            }
            proof {
                if hyp {
                    let s = self@;
                    let j = node_index as int;
                    let g = greater_index as int;
                    // the chosen child is preferred over the current node,
                    // and the other child is not preferred over the chosen one
                    if !cmp.prefers(s[g], s[j]) {
                        assert(false);
                    }
                }
            }
            let ghost s = self@;
            self._swap(node_index, greater_index);
            proof {
                if hyp {
                    let t = self@;
                    let j = node_index as int;
                    let g = greater_index as int;
                    assert forall|i: int|
                        1 <= i < t.len() && parent_of(i) != g implies !cmp.prefers(
                        #[trigger] t[i],
                        t[parent_of(i)],
                    ) by {
                        if i == g {
                            assert(cmp.prefers(s[g], s[j]));
                        } else if parent_of(i) == j {
                            // the sibling of the chosen child
                            if g == 2 * j + 1 {
                                assert(!cmp.prefers(s[i], s[g]));
                            } else {
                                assert(cmp.prefers(s[g], s[2 * j + 1]));
                            }
                        } else if i == j && j >= 1 {
                            assert(!cmp.prefers(s[g], s[parent_of(j)]));
                        } else {
                            assert(!cmp.prefers(s[i], s[parent_of(i)]));
                        }
                    }
                    assert forall|i: int|
                        1 <= i < t.len() && parent_of(i) == g implies !cmp.prefers(
                        #[trigger] t[i],
                        t[parent_of(g)],
                    ) by {
                        assert(!cmp.prefers(s[i], s[g]));
                    }
                }
            }
            node_index = greater_index;
        }
        proof {
            if hyp {
                let s = self@;
                let j = node_index as int;
                assert forall|i: int| 1 <= i < s.len() implies !cmp.prefers(
                    #[trigger] s[i],
                    s[parent_of(i)],
                ) by {
                    if parent_of(i) == j {
                        assert(i == 2 * j + 1 || i == 2 * j + 2);
                    }
                }
            }
        }
    }

    /// Remove and return the most preferred element, or nothing when the
    /// queue is empty.  When the strategy is a consistent ordering and the
    /// heap invariant held before the call, it holds afterwards and no
    /// element of the queue was preferred over the returned one.
    pub fn pop<C: Comparator<T>>(&mut self, cmp: &C) -> (r: Option<T>)
        ensures
            old(self)@.len() == 0 ==> r.is_none() && final(self)@ == old(self)@,
            old(self)@.len() > 0 ==> {
                &&& r == Some(old(self)@[0])
                &&& final(self)@.len() == old(self)@.len() - 1
                &&& final(self)@.to_multiset() == old(self)@.to_multiset().remove(old(self)@[0])
                &&& forall|x: T| final(self)@.contains(x) ==> old(self)@.contains(x)
                &&& forall|x: T|
                    x != old(self)@[0] ==> (final(self)@.contains(x) <==> old(self)@.contains(x))
                &&& valid_ordering(*cmp) && old(self).well_formed(cmp)
                    ==> final(self).well_formed(cmp)
                &&& valid_ordering(*cmp) && old(self).well_formed(cmp) ==> forall|i: int|
                    0 <= i < old(self)@.len() ==> !cmp.prefers(#[trigger] old(self)@[i], old(self)@[0])
            },
    {
        if self.size() > 1 {
            let last: usize = self.size() - 1;
            self._swap(0, last);
        }
        let ghost mid = self@;
        let value: Option<T> = self.heap.pop();
        proof {
            broadcast use group_to_multiset_ensures;

            if old(self)@.len() > 0 {
                assert(self@ == mid.remove(mid.len() - 1));
                if old(self)@.len() > 1 {
                    assert(mid[mid.len() - 1] == old(self)@[0]);
                    assert(mid.to_multiset() == old(self)@.to_multiset());
                } else {
                    assert(mid == old(self)@);
                }
                assert(self@.to_multiset() == old(self)@.to_multiset().remove(old(self)@[0]));
                if valid_ordering(*cmp) && heap_ordered(*cmp, old(self)@) {
                    assert forall|i: int| 3 <= i < self@.len() implies !cmp.prefers(
                        #[trigger] self@[i],
                        self@[parent_of(i)],
                    ) by {
                        assert(!cmp.prefers(old(self)@[i], old(self)@[parent_of(i)]));
                    }
                }
            }
        }
        self._sift_down(cmp);
        proof {
            if old(self)@.len() > 0 && valid_ordering(*cmp) && heap_ordered(*cmp, old(self)@) {
                assert forall|i: int| 0 <= i < old(self)@.len() implies !cmp.prefers(
                    #[trigger] old(self)@[i],
                    old(self)@[0],
                ) by {
                    lemma_root_most_preferred(*cmp, old(self)@, i);
                    if i == 0 && cmp.prefers(old(self)@[0], old(self)@[0]) {
                        assert(!cmp.prefers(old(self)@[0], old(self)@[0]));
                    }
                }
            }
            broadcast use vstd::multiset::group_multiset_axioms;
            broadcast use group_to_multiset_ensures;

            if old(self)@.len() > 0 {
                assert forall|x: T| self@.contains(x) implies old(self)@.contains(x) by {
                    assert(self@.to_multiset().count(x) <= old(self)@.to_multiset().count(x));
                }
                assert forall|x: T| x != old(self)@[0] implies (self@.contains(x)
                    <==> old(self)@.contains(x)) by {
                    assert(self@.to_multiset().count(x) == old(self)@.to_multiset().count(x));
                }
            }
        }
        value
    }

    /// A view of the most preferred element, or nothing when the queue is
    /// empty.  The call never changes the queue, so repeated peeks return
    /// the same value.
    pub fn peek(&self) -> (r: Option<&T>)
        ensures
            r.is_none() <==> self@.len() == 0,
            r matches Some(v) ==> *v == self@[0],
    {
        if self.heap.len() == 0 {
            None
        } else {
            Some(&self.heap[0])
        }
    }
}

/// Root law: in a well-formed heap under a co-transitive strategy, no
/// element is preferred over the root.  Each `pop` therefore returns an
/// element that nothing remaining in the queue was preferred over.
pub proof fn lemma_root_most_preferred<T, C: Comparator<T>>(cmp: C, s: Seq<T>, i: int)
    requires
        co_transitive(cmp),
        heap_ordered(cmp, s),
        0 <= i < s.len(),
    ensures
        !cmp.prefers(s[i], s[0]) || i == 0,
    decreases i,
{
    if i >= 1 {
        let p = parent_of(i);
        assert(!cmp.prefers(s[i], s[p]));
        lemma_root_most_preferred(cmp, s, p);
        if p > 0 {
            assert(!cmp.prefers(s[p], s[0]));
        }
    }
}

/// Pop-order law: popping a well-formed heap twice yields elements in
/// non-increasing priority.  `s` is the heap before the first pop and `t`
/// any state the heap can be in before the second: the second element
/// popped, `t[0]`, is never preferred over the first, `s[0]`.
pub proof fn lemma_pop_order<T, C: Comparator<T>>(cmp: C, s: Seq<T>, t: Seq<T>)
    requires
        valid_ordering(cmp),
        heap_ordered(cmp, s),
        s.len() > 0,
        t.len() > 0,
        t.to_multiset() == s.to_multiset().remove(s[0]),
    ensures
        !cmp.prefers(t[0], s[0]),
{
    broadcast use group_to_multiset_ensures;

    assert(t.contains(t[0]));
    assert(t.to_multiset().count(t[0]) > 0);
    assert(s.to_multiset().count(t[0]) > 0);
    assert(s.contains(t[0]));
    let i = choose|i: int| 0 <= i < s.len() && s[i] == t[0];
    lemma_root_most_preferred(cmp, s, i);
    if i == 0 && cmp.prefers(s[0], s[0]) {
        assert(!cmp.prefers(s[0], s[0]));
    }
}

/// Orders `usize` elements ascending: the smaller value has priority (a
/// min-heap).
pub struct MinComparator;

impl Comparator<usize> for MinComparator {
    open spec fn prefers(&self, a: usize, b: usize) -> bool {
        a < b
    }

    fn prefer(&self, a: &usize, b: &usize) -> (r: bool) {
        *a < *b
    }
}

/// Orders `usize` elements descending: the larger value has priority (a
/// max-heap).
pub struct MaxComparator;

impl Comparator<usize> for MaxComparator {
    open spec fn prefers(&self, a: usize, b: usize) -> bool {
        a > b
    }

    fn prefer(&self, a: &usize, b: &usize) -> (r: bool) {
        *a > *b
    }
}

} // verus!
