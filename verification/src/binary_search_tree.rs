//! A binary search tree ordered by the element type's own comparison.
//!
//! The contracts hold for element types whose `PartialOrd` and `PartialEq`
//! implementations agree with their specification-level comparison (all
//! primitive integers do).

use vstd::prelude::*;

verus! {

use core::cmp::Ordering;
use vstd::std_specs::cmp::PartialEqSpec;
use vstd::std_specs::cmp::PartialOrdSpec;

/// `a` is strictly below `b` in the element order.
pub open spec fn lt_spec<T: PartialOrd>(a: T, b: T) -> bool {
    a.partial_cmp_spec(&b) == Some(Ordering::Less)
}

/// `a` is below `b` or equal to it in the element order.
pub open spec fn le_spec<T: PartialOrd>(a: T, b: T) -> bool {
    a.partial_cmp_spec(&b) matches Some(Ordering::Less | Ordering::Equal)
}

/// `a` is above `b` or equal to it in the element order.
pub open spec fn ge_spec<T: PartialOrd>(a: T, b: T) -> bool {
    a.partial_cmp_spec(&b) matches Some(Ordering::Greater | Ordering::Equal)
}

/// A binary search tree: either empty or a root node with two subtrees.
#[derive(Debug)]
pub struct BST<T>(pub(crate) Option<Box<BinaryNode<T>>>);

/// One node of a [`BST`].
#[derive(Debug)]
pub struct BinaryNode<T> {
    pub(crate) data: T,
    pub(crate) left: BST<T>,
    pub(crate) right: BST<T>,
}

impl<T> BinaryNode<T> {
    /// The value stored in this node.
    pub closed spec fn data_spec(&self) -> T {
        self.data
    }

    /// The left subtree under this node.
    pub closed spec fn left_spec(&self) -> BST<T> {
        self.left
    }

    /// The right subtree under this node.
    pub closed spec fn right_spec(&self) -> BST<T> {
        self.right
    }

    /// A leaf node holding `data`.
    pub fn new(data: T) -> (n: Self)
        ensures
            n.data_spec() == data,
            n.left_spec().is_nil(),
            n.right_spec().is_nil(),
    {
        BinaryNode { data, left: BST(None), right: BST(None) }
    }
}

/// The tree `t1` is `t0` with `data` inserted: equal elements are refused,
/// smaller ones descend to the left, all others to the right.
pub closed spec fn insert_shape<T: PartialOrd>(t0: BST<T>, data: T, t1: BST<T>) -> bool
    decreases t0,
{
    match t0.0 {
        None => match t1.0 {
            None => false,
            Some(n1) => n1.data == data && n1.left.0 is None && n1.right.0 is None,
        },
        Some(n0) => match t1.0 {
            None => false,
            Some(n1) => {
                if n0.data.eq_spec(&data) {
                    t1 == t0
                } else if lt_spec(data, n0.data) {
                    n1.data == n0.data && n1.right == n0.right && insert_shape(
                        n0.left,
                        data,
                        n1.left,
                    )
                } else {
                    n1.data == n0.data && n1.left == n0.left && insert_shape(
                        n0.right,
                        data,
                        n1.right,
                    )
                }
            },
        },
    }
}

/// Whether inserting `data` adds a node: it does unless an equal element
/// sits on the search path.
pub closed spec fn insert_adds<T: PartialOrd>(t0: BST<T>, data: T) -> bool
    decreases t0,
{
    match t0.0 {
        None => true,
        Some(n0) => {
            if n0.data.eq_spec(&data) {
                false
            } else if lt_spec(data, n0.data) {
                insert_adds(n0.left, data)
            } else {
                insert_adds(n0.right, data)
            }
        },
    }
}

/// What a search along the comparison path returns.
pub closed spec fn search_spec<T: PartialOrd>(t: BST<T>, data: T) -> Option<T>
    decreases t,
{
    match t.0 {
        None => None,
        Some(n) => {
            if n.data.eq_spec(&data) {
                Some(data)
            } else if lt_spec(data, n.data) {
                search_spec(n.left, data)
            } else {
                search_spec(n.right, data)
            }
        },
    }
}

/// The ordering check of the tree between the bounds `min` and `max`:
/// every node lies strictly between its bounds, a left subtree narrows the
/// upper bound to its parent's value.
pub closed spec fn valid_spec<T: PartialOrd>(t: BST<T>, min: T, max: T) -> bool
    decreases t,
{
    match t.0 {
        None => true,
        Some(n) => {
            &&& !le_spec(n.data, min)
            &&& !ge_spec(n.data, max)
            &&& valid_spec(n.left, min, n.data)
            &&& valid_spec(n.right, min, max)
        },
    }
}

impl<T> BST<T> {
    /// The tree holds no node at all.
    pub closed spec fn is_nil(self) -> bool {
        self.0 is None
    }

    /// An empty tree.
    pub fn new() -> (t: Self)
        ensures
            t.is_nil(),
    {
        BST(None)
    }
}

impl<T: PartialOrd + Copy> BST<T> {
    /// Insert `data` at the position its comparisons select, refusing a
    /// duplicate of an element on the search path; returns whether a node
    /// was added.
    pub fn insert(&mut self, data: T) -> (r: bool)
        requires
            T::obeys_partial_cmp_spec(),
            T::obeys_eq_spec(),
        ensures
            insert_shape(*old(self), data, *final(self)),
            r == insert_adds(*old(self), data),
        decreases *old(self),
    {
        match &mut self.0 {
            Some(node) => {
                if node.data == data {
                    return false;
                }
                if data < node.data {
                    node.left.insert(data)
                } else {
                    node.right.insert(data)
                }
            },
            None => {
                self.0 = Some(Box::new(BinaryNode::new(data)));
                true
            },
        }
    }

    /// Whether every element of the tree lies strictly between `min` and
    /// `max`, left subtrees checked below their parent's value.
    pub fn is_valid(&self, min: T, max: T) -> (r: bool)
        requires
            T::obeys_partial_cmp_spec(),
        ensures
            r == valid_spec(*self, min, max),
        decreases *self,
    {
        if let Some(node) = &self.0 {
            if node.data <= min || node.data >= max {
                return false;
            }
            if !node.left.is_valid(min, node.data) {
                return false;
            }
            if !node.right.is_valid(min, max) {
                return false;
            }
        }
        true
    }

    /// Follow the comparison path and return `data` when an equal element
    /// is found.
    pub fn search(&self, data: T) -> (r: Option<T>)
        requires
            T::obeys_partial_cmp_spec(),
            T::obeys_eq_spec(),
        ensures
            r == search_spec(*self, data),
        decreases *self,
    {
        if let Some(node) = &self.0 {
            if node.data == data {
                return Some(data);
            }
            if data < node.data {
                return node.left.search(data);
            } else {
                return node.right.search(data);
            }
        }
        None
    }
}

} // verus!
