//! A binary tree built from a level-order description.
//!
//! A tree can be filled from a sequence with gaps ([`BinaryTree::insert`]),
//! where an absent element leaves the corresponding child empty, or from a
//! plain sequence ([`BinaryTree::insert_as_complete`]), which produces a
//! complete tree in heap layout.  Traversals give the depth, the values
//! level by level, and the first or last node of every level.

use vstd::prelude::*;

verus! {

/// A binary tree: either empty or a root node with two subtrees.
#[derive(Debug)]
pub struct BinaryTree<T>(pub(crate) Option<Box<BinaryNode<T>>>);

/// One node of a [`BinaryTree`].
#[derive(Debug)]
pub struct BinaryNode<T> {
    pub(crate) data: T,
    pub(crate) left: BinaryTree<T>,
    pub(crate) right: BinaryTree<T>,
}

impl<T> BinaryNode<T> {
    /// The value stored in this node.
    pub closed spec fn data_spec(&self) -> T {
        self.data
    }

    /// The left subtree under this node.
    pub closed spec fn left_spec(&self) -> BinaryTree<T> {
        self.left
    }

    /// The right subtree under this node.
    pub closed spec fn right_spec(&self) -> BinaryTree<T> {
        self.right
    }

    /// A leaf node holding `data`.
    pub fn new(data: T) -> (n: Self)
        ensures
            n.data_spec() == data,
            n.left_spec().is_nil(),
            n.right_spec().is_nil(),
    {
        BinaryNode { data, left: BinaryTree(None), right: BinaryTree(None) }
    }
}

impl<T> BinaryTree<T> {
    /// The tree holds no node at all.
    pub closed spec fn is_nil(self) -> bool {
        self.0 is None
    }

    /// The number of levels of the tree: 0 for an empty tree, 1 for a
    /// single node.
    pub closed spec fn depth_spec(self) -> int
        decreases self,
    {
        match self.0 {
            None => 0,
            Some(node) => 1 + vstd::math::max(node.left.depth_spec(), node.right.depth_spec()),
        }
    }

    /// The number of nodes of the tree.
    pub closed spec fn size_spec(self) -> int
        decreases self,
    {
        match self.0 {
            None => 0,
            Some(node) => 1 + node.left.size_spec() + node.right.size_spec(),
        }
    }

    /// The values at distance `d` below the root, from left to right.
    pub closed spec fn level_seq(self, d: int) -> Seq<T>
        decreases self,
    {
        match self.0 {
            None => Seq::empty(),
            Some(node) => if d < 0 {
                Seq::empty()
            } else if d == 0 {
                seq![node.data]
            } else {
                node.left.level_seq(d - 1) + node.right.level_seq(d - 1)
            },
        }
    }
}

/// A tree never has a negative number of levels or of nodes.
proof fn lemma_depth_nonneg<T>(t: BinaryTree<T>)
    ensures
        t.depth_spec() >= 0,
        t.size_spec() >= 0,
    decreases t,
{
    match t.0 {
        None => {},
        Some(node) => {
            lemma_depth_nonneg(node.left);
            lemma_depth_nonneg(node.right);
        },
    }
}

/// Levels below the last one of the tree are empty.
proof fn lemma_level_beyond_depth<T>(t: BinaryTree<T>, d: int)
    requires
        d >= t.depth_spec(),
    ensures
        t.level_seq(d).len() == 0,
    decreases t,
{
    match t.0 {
        None => {},
        Some(node) => {
            lemma_depth_nonneg(node.left);
            lemma_depth_nonneg(node.right);
            lemma_level_beyond_depth(node.left, d - 1);
            lemma_level_beyond_depth(node.right, d - 1);
            assert(t.level_seq(d) =~= node.left.level_seq(d - 1) + node.right.level_seq(d - 1));
        },
    }
}

/// Every level of the tree down to the last one holds at least one value.
proof fn lemma_level_within_depth<T>(t: BinaryTree<T>, d: int)
    requires
        0 <= d < t.depth_spec(),
    ensures
        t.level_seq(d).len() >= 1,
    decreases t,
{
    match t.0 {
        None => {},
        Some(node) => {
            if d > 0 {
                if node.left.depth_spec() > d - 1 {
                    lemma_level_within_depth(node.left, d - 1);
                } else {
                    lemma_level_within_depth(node.right, d - 1);
                }
            }
        },
    }
}

/// Two to the power `h`, and 1 below zero.
pub open spec fn pow2i(h: int) -> int
    decreases h,
{
    if h <= 0 {
        1
    } else {
        2 * pow2i(h - 1)
    }
}

proof fn lemma_pow2i_pos(h: int)
    ensures
        pow2i(h) >= 1,
    decreases h,
{
    if h > 0 {
        lemma_pow2i_pos(h - 1);
    }
}

/// Whether the level-order description `el` creates a node for slot `s`:
/// slot 0 is the root, and a later slot holds a node when its element is
/// present and the node that would adopt it was created in time.
pub closed spec fn hosted<T>(el: Seq<Option<T>>, s: int) -> bool
    decreases s, 1int,
{
    if s <= 0 {
        s == 0 && el.len() > 0
    } else {
        s < el.len() && el[s] is Some && (s - 1) / 2 < created(el, s)
    }
}

/// How many slots before `s` were given a node.
pub closed spec fn created<T>(el: Seq<Option<T>>, s: int) -> int
    decreases s, 0int,
{
    if s <= 0 {
        0
    } else {
        created(el, s - 1) + if hosted(el, s - 1) {
            1int
        } else {
            0int
        }
    }
}

/// The tree `t` is exactly the decoding of the level-order description
/// `el` from slot `s` on: the node of slot `s` carries the element of `s`,
/// and its children decode the two slots that the node consumed.
pub closed spec fn matches_slots<T>(t: BinaryTree<T>, el: Seq<Option<T>>, s: int) -> bool
    decreases t,
{
    match t.0 {
        None => !hosted(el, s),
        Some(node) => {
            &&& hosted(el, s)
            &&& 0 <= s < el.len()
            &&& el[s] == Some(node.data)
            &&& matches_slots(node.left, el, 2 * created(el, s) + 1)
            &&& matches_slots(node.right, el, 2 * created(el, s) + 2)
        },
    }
}

/// The tree `t` is exactly the complete tree over `el` rooted at index
/// `i` in heap layout: children of index `i` sit at `2 * i + 1` and
/// `2 * i + 2`.
pub closed spec fn matches_complete<T>(t: BinaryTree<T>, el: Seq<T>, i: int) -> bool
    decreases t,
{
    match t.0 {
        None => !(0 <= i < el.len()),
        Some(node) => {
            &&& 0 <= i < el.len()
            &&& node.data == el[i]
            &&& matches_complete(node.left, el, 2 * i + 1)
            &&& matches_complete(node.right, el, 2 * i + 2)
        },
    }
}

/// Every level of the tree is full: both subtrees are perfect and equally
/// deep.
pub closed spec fn perfect<T>(t: BinaryTree<T>) -> bool
    decreases t,
{
    match t.0 {
        None => true,
        Some(node) => {
            &&& node.left.depth_spec() == node.right.depth_spec()
            &&& perfect(node.left)
            &&& perfect(node.right)
        },
    }
}

/// Every level of the tree is full except possibly the last, which is
/// packed to the left.
pub closed spec fn complete<T>(t: BinaryTree<T>) -> bool
    decreases t,
{
    match t.0 {
        None => true,
        Some(node) => {
            ||| (node.left.depth_spec() == node.right.depth_spec() && perfect(node.left)
                && complete(node.right))
            ||| (node.left.depth_spec() == node.right.depth_spec() + 1 && complete(node.left)
                && perfect(node.right))
        },
    }
}

/// The empty tree is the only tree without levels.
proof fn lemma_nil_iff_depth_zero<T>(t: BinaryTree<T>)
    ensures
        (t.0 is None) <==> t.depth_spec() == 0,
{
    match t.0 {
        None => {},
        Some(node) => {
            lemma_depth_nonneg(node.left);
            lemma_depth_nonneg(node.right);
        },
    }
}

proof fn lemma_pow2i_mono(a: int, b: int)
    requires
        a <= b,
    ensures
        pow2i(a) <= pow2i(b),
    decreases b - a,
{
    lemma_pow2i_pos(a);
    if a < b {
        lemma_pow2i_mono(a, b - 1);
        lemma_pow2i_pos(b - 1);
    }
}

proof fn lemma_perfect_complete<T>(t: BinaryTree<T>)
    requires
        perfect(t),
    ensures
        complete(t),
    decreases t,
{
    match t.0 {
        None => {},
        Some(node) => {
            lemma_perfect_complete(node.right);
        },
    }
}

proof fn lemma_perfect_size<T>(t: BinaryTree<T>)
    requires
        perfect(t),
    ensures
        t.size_spec() == pow2i(t.depth_spec()) - 1,
    decreases t,
{
    match t.0 {
        None => {},
        Some(node) => {
            lemma_perfect_size(node.left);
            lemma_perfect_size(node.right);
            lemma_depth_nonneg(node.left);
        },
    }
}

/// A full level of a perfect tree holds a power of two of values.
proof fn lemma_perfect_level<T>(t: BinaryTree<T>, d: int)
    requires
        perfect(t),
        0 <= d < t.depth_spec(),
    ensures
        t.level_seq(d).len() == pow2i(d),
    decreases t,
{
    match t.0 {
        None => {},
        Some(node) => {
            if d >= 1 {
                lemma_depth_nonneg(node.left);
                lemma_perfect_level(node.left, d - 1);
                lemma_perfect_level(node.right, d - 1);
            }
        },
    }
}

/// No level holds more values than its power of two.
proof fn lemma_level_le<T>(t: BinaryTree<T>, d: int)
    ensures
        t.level_seq(d).len() <= pow2i(d),
    decreases t,
{
    lemma_pow2i_pos(d);
    match t.0 {
        None => {},
        Some(node) => {
            if d >= 1 {
                lemma_level_le(node.left, d - 1);
                lemma_level_le(node.right, d - 1);
            }
        },
    }
}

/// Every level of a complete tree above the last is full.
proof fn lemma_complete_level_full<T>(t: BinaryTree<T>, d: int)
    requires
        complete(t),
        0 <= d < t.depth_spec() - 1,
    ensures
        t.level_seq(d).len() == pow2i(d),
    decreases t,
{
    match t.0 {
        None => {},
        Some(node) => {
            if d >= 1 {
                lemma_depth_nonneg(node.left);
                lemma_depth_nonneg(node.right);
                if node.left.depth_spec() == node.right.depth_spec() {
                    lemma_perfect_level(node.left, d - 1);
                    lemma_complete_level_full(node.right, d - 1);
                } else {
                    lemma_complete_level_full(node.left, d - 1);
                    lemma_perfect_level(node.right, d - 1);
                }
            }
        },
    }
}

/// The size of a complete tree: all levels above the last are full.
proof fn lemma_complete_size<T>(t: BinaryTree<T>)
    requires
        complete(t),
        t.depth_spec() >= 1,
    ensures
        t.size_spec() == pow2i(t.depth_spec() - 1) - 1 + t.level_seq(t.depth_spec() - 1).len(),
    decreases t,
{
    match t.0 {
        None => {},
        Some(node) => {
            let h = t.depth_spec() - 1;
            lemma_depth_nonneg(node.left);
            lemma_depth_nonneg(node.right);
            if h == 0 {
                lemma_nil_iff_depth_zero(node.left);
                lemma_nil_iff_depth_zero(node.right);
                assert(node.left.0 is None && node.right.0 is None);
            } else {
                if node.left.depth_spec() == node.right.depth_spec() {
                    lemma_perfect_size(node.left);
                    lemma_perfect_level(node.left, h - 1);
                    lemma_complete_size(node.right);
                } else {
                    lemma_complete_size(node.left);
                    lemma_perfect_size(node.right);
                    lemma_level_beyond_depth(node.right, h - 1);
                }
            }
        },
    }
}

/// A tree has at least as many nodes as levels.
proof fn lemma_depth_le_size<T>(t: BinaryTree<T>)
    ensures
        t.depth_spec() <= t.size_spec(),
    decreases t,
{
    match t.0 {
        None => {},
        Some(node) => {
            lemma_depth_le_size(node.left);
            lemma_depth_le_size(node.right);
            lemma_depth_nonneg(node.left);
            lemma_depth_nonneg(node.right);
        },
    }
}

/// The left-root-right reading of the tree, every value paired with the
/// depth of its node, the root of the tree sitting at depth `d`.
pub closed spec fn preorder_seq<T>(t: BinaryTree<T>, d: int) -> Seq<(T, int)>
    decreases t,
{
    match t.0 {
        None => Seq::empty(),
        Some(node) => preorder_seq(node.left, d + 1) + seq![(node.data, d)] + preorder_seq(
            node.right,
            d + 1,
        ),
    }
}

/// Two to the power `h` as a machine integer.
fn pow2_i32(h: i32) -> (p: i32)
    requires
        h >= 0,
        pow2i(h as int) <= i32::MAX,
    ensures
        p == pow2i(h as int),
{
    let mut p: i32 = 1;
    let mut j: i32 = 0;
    while j < h
        invariant
            0 <= j <= h,
            p == pow2i(j as int),
            pow2i(h as int) <= i32::MAX,
        decreases h - j,
    {
        proof {
            lemma_pow2i_mono(j as int + 1, h as int);
            lemma_pow2i_pos(j as int);
        }
        p = p * 2;
        j = j + 1;
    }
    p
}

proof fn lemma_matches_slots_none<T>(el: Seq<Option<T>>, s: int)
    requires
        !hosted(el, s),
    ensures
        matches_slots(BinaryTree::<T>(None), el, s),
{
}

proof fn lemma_matches_complete_none<T>(el: Seq<T>, i: int)
    requires
        !(0 <= i < el.len()),
    ensures
        matches_complete(BinaryTree::<T>(None), el, i),
{
}

proof fn lemma_created_le<T>(el: Seq<Option<T>>, s: int)
    requires
        s >= 0,
    ensures
        created(el, s) <= s,
        0 <= created(el, s),
    decreases s,
{
    if s > 0 {
        lemma_created_le(el, s - 1);
    }
}

impl<T: Copy> BinaryTree<T> {
    /// An empty tree.
    pub fn new() -> (t: Self)
        ensures
            t.is_nil(),
    {
        BinaryTree(None)
    }

    /// Build the tree described level by level in `elements`, where an
    /// absent element leaves the corresponding child slot empty without
    /// consuming child slots of its own.  An empty description leaves the
    /// tree unchanged.
    pub fn insert(&mut self, elements: &Vec<Option<T>>)
        requires
            elements@.len() == 0 || (elements@.len() >= 2 && elements@[0] is Some),
        ensures
            elements@.len() == 0 ==> *final(self) == *old(self),
            elements@.len() > 0 ==> matches_slots(*final(self), elements@, 0),
    {
        if elements.len() == 0 {
            return ;
        }
        let ghost el = elements@;
        let len: usize = elements.len();
        // which slots received a node, and how many nodes came before each
        let mut hosted_flags: Vec<bool> = Vec::new();
        let mut created_at: Vec<usize> = Vec::new();
        hosted_flags.push(true);
        created_at.push(0);
        let mut created_count: usize = 1;
        let mut s: usize = 1;
        proof {
            assert(hosted(el, 0));
            assert(created(el, 0) == 0);
            assert(created(el, 1) == 1);
        }
        while s < len
            invariant
                1 <= s <= len,
                len == el.len(),
                el.len() >= 2,
                el[0] is Some,
                hosted_flags@.len() == s,
                created_at@.len() == s,
                forall|j: int| 0 <= j < s ==> hosted_flags@[j] == hosted(el, j),
                forall|j: int| 0 <= j < s ==> created_at@[j] as int == created(el, j),
                created_count as int == created(el, s as int),
                created_count <= s,
            decreases len - s,
        {
            proof {
                lemma_created_le(el, s as int);
            }
            let h: bool = elements[s].is_some() && (s - 1) / 2 < created_count;
            proof {
                assert(h == hosted(el, s as int));
                assert(created(el, s as int + 1) == created(el, s as int) + if hosted(
                    el,
                    s as int,
                ) {
                    1int
                } else {
                    0int
                });
            }
            hosted_flags.push(h);
            created_at.push(created_count);
            if h {
                created_count = created_count + 1;
            }
            s = s + 1;
        }
        *self = Self::build_slot(elements, &hosted_flags, &created_at, 0);
    }

    /// Decode the subtree whose root node sits in slot `s`.
    fn build_slot(
        elements: &Vec<Option<T>>,
        hosted_flags: &Vec<bool>,
        created_at: &Vec<usize>,
        s: usize,
    ) -> (t: Self)
        requires
            elements@.len() >= 2,
            elements@[0] is Some,
            hosted_flags@.len() == elements@.len(),
            created_at@.len() == elements@.len(),
            forall|j: int| 0 <= j < elements@.len() ==> hosted_flags@[j] == hosted(elements@, j),
            forall|j: int|
                0 <= j < elements@.len() ==> created_at@[j] as int == created(elements@, j),
            s < elements@.len(),
        ensures
            matches_slots(t, elements@, s as int),
        decreases elements@.len() - s,
    {
        let ghost el = elements@;
        if !hosted_flags[s] {
            return BinaryTree(None);
        }
        let data: T = elements[s].unwrap();
        let q: usize = created_at[s];
        let len: usize = elements.len();
        proof {
            lemma_created_le(el, s as int);
            if s >= 1 {
                assert((s - 1) / 2 < created(el, s as int));
            }
            assert(2 * q + 1 > s);
        }
        let left: BinaryTree<T> = if q < len / 2 {
            Self::build_slot(elements, hosted_flags, created_at, 2 * q + 1)
        } else {
            proof {
                assert(2 * q + 1 >= len);
                assert(!hosted(el, 2 * (q as int) + 1));
                lemma_matches_slots_none::<T>(el, 2 * (q as int) + 1);
            }
            BinaryTree(None)
        };
        let right: BinaryTree<T> = if len >= 1 && q < (len - 1) / 2 {
            Self::build_slot(elements, hosted_flags, created_at, 2 * q + 2)
        } else {
            proof {
                assert(2 * q + 2 >= len);
                assert(!hosted(el, 2 * (q as int) + 2));
                lemma_matches_slots_none::<T>(el, 2 * (q as int) + 2);
            }
            BinaryTree(None)
        };
        let t = BinaryTree(Some(Box::new(BinaryNode { data, left, right })));
        proof {
            assert(matches_slots(left, el, 2 * created(el, s as int) + 1));
            assert(matches_slots(right, el, 2 * created(el, s as int) + 2));
        }
        t
    }

    /// Build the complete tree holding `elements` in heap layout.  An
    /// empty sequence leaves the tree unchanged.
    pub fn insert_as_complete(&mut self, elements: &Vec<T>)
        ensures
            elements@.len() == 0 ==> *final(self) == *old(self),
            elements@.len() > 0 ==> matches_complete(*final(self), elements@, 0),
    {
        if elements.len() == 0 {
            return ;
        }
        *self = Self::build_complete(elements, 0);
    }

    /// Decode the complete subtree rooted at heap index `i`.
    fn build_complete(elements: &Vec<T>, i: usize) -> (t: Self)
        ensures
            matches_complete(t, elements@, i as int),
        decreases elements@.len() - i,
    {
        let len: usize = elements.len();
        if i >= len {
            return BinaryTree(None);
        }
        let data: T = elements[i];
        let left: BinaryTree<T> = if i < len / 2 {
            Self::build_complete(elements, 2 * i + 1)
        } else {
            proof {
                assert(2 * (i as int) + 1 >= len);
                lemma_matches_complete_none::<T>(elements@, 2 * (i as int) + 1);
            }
            BinaryTree(None)
        };
        let right: BinaryTree<T> = if i < (len - 1) / 2 {
            Self::build_complete(elements, 2 * i + 2)
        } else {
            proof {
                assert(2 * (i as int) + 2 >= len);
                lemma_matches_complete_none::<T>(elements@, 2 * (i as int) + 2);
            }
            BinaryTree(None)
        };
        let t = BinaryTree(Some(Box::new(BinaryNode { data, left, right })));
        proof {
            assert(matches_complete(left, elements@, 2 * (i as int) + 1));
            assert(matches_complete(right, elements@, 2 * (i as int) + 2));
        }
        t
    }

    /// The number of levels: 0 for an empty tree.
    pub fn depth(&self) -> (d: i32)
        requires
            self.depth_spec() <= i32::MAX,
        ensures
            d == self.depth_spec(),
        decreases *self,
    {
        match &self.0 {
            None => 0,
            Some(node) => {
                proof {
                    lemma_depth_nonneg(node.left);
                    lemma_depth_nonneg(node.right);
                }
                if node.left.is_empty_node() && node.right.is_empty_node() {
                    1
                } else {
                    let left_depth: i32 = 1 + node.left.depth();
                    let right_depth: i32 = 1 + node.right.depth();
                    if left_depth > right_depth {
                        left_depth
                    } else {
                        right_depth
                    }
                }
            },
        }
    }

    /// The number of levels below the root: -1 for an empty tree.
    pub fn height(&self) -> (h: i32)
        requires
            self.depth_spec() <= i32::MAX,
        ensures
            h == self.depth_spec() - 1,
    {
        proof {
            lemma_depth_nonneg(*self);
        }
        self.depth() - 1
    }

    fn is_empty_node(&self) -> (r: bool)
        ensures
            r == self.is_nil(),
    {
        match &self.0 {
            None => true,
            Some(_) => false,
        }
    }

    /// The values of the tree level by level, each level from left to
    /// right.
    pub fn level_order(&self) -> (levels: Vec<Vec<T>>)
        ensures
            levels@.len() == self.depth_spec(),
            forall|d: int| 0 <= d < levels@.len() ==> (#[trigger] levels@[d])@ == self.level_seq(d),
    {
        let mut levels: Vec<Vec<T>> = Vec::new();
        proof {
            lemma_depth_nonneg(*self);
        }
        self.collect_levels(0, &mut levels);
        levels
    }

    /// Append to `res` the value of the rightmost node of every level of
    /// this subtree not yet covered, the root of the subtree counting as
    /// level `depth`.
    pub fn right_side_view(&self, depth: usize, res: &mut Vec<T>)
        requires
            depth <= old(res)@.len(),
        ensures
            final(res)@.len() == vstd::math::max(
                old(res)@.len() as int,
                depth + self.depth_spec(),
            ),
            forall|i: int| 0 <= i < old(res)@.len() ==> final(res)@[i] == old(res)@[i],
            forall|i: int|
                old(res)@.len() <= i < final(res)@.len()
                    ==> final(res)@[i] == self.level_seq(i - depth).last(),
        decreases *self,
    {
        match &self.0 {
            None => {},
            Some(node) => {
                let last_level: usize = res.len();
                if depth >= last_level {
                    res.push(node.data);
                }
                let cur_len: usize = res.len();
                proof {
                    assert(depth < cur_len);
                }
                let ghost mid = res@;
                node.right.right_side_view(depth + 1, res);
                let ghost ar = res@;
                node.left.right_side_view(depth + 1, res);
                proof {
                    let orig = old(res)@;
                    let l = node.left;
                    let r = node.right;
                    lemma_depth_nonneg(l);
                    lemma_depth_nonneg(r);
                    assert(self.depth_spec() == 1 + vstd::math::max(l.depth_spec(), r.depth_spec()));
                    assert forall|i: int|
                        orig.len() <= i < res@.len() implies res@[i] == self.level_seq(
                        i - depth,
                    ).last() by {
                        let lpart = l.level_seq(i - depth - 1);
                        let rpart = r.level_seq(i - depth - 1);
                        if i == depth {
                            assert(mid[i] == node.data);
                            assert(self.level_seq(0) =~= seq![node.data]);
                        } else {
                            assert(i > depth);
                            assert(self.level_seq(i - depth) == lpart + rpart);
                            if i < ar.len() {
                                assert(i - depth - 1 < r.depth_spec());
                                lemma_level_within_depth(r, i - depth - 1);
                                assert(ar[i] == rpart.last());
                                assert((lpart + rpart).last() == rpart.last());
                            } else {
                                assert(i - depth - 1 < l.depth_spec());
                                lemma_level_within_depth(l, i - depth - 1);
                                assert(res@[i] == lpart.last());
                                assert(i - depth - 1 >= r.depth_spec());
                                lemma_level_beyond_depth(r, i - depth - 1);
                                assert(lpart + rpart =~= lpart);
                            }
                        }
                    }
                }
            },
        }
    }

    /// Append to `res` the value of the leftmost node of every level of
    /// this subtree not yet covered, the root of the subtree counting as
    /// level `depth`.
    pub fn left_side_view(&self, depth: usize, res: &mut Vec<T>)
        requires
            depth <= old(res)@.len(),
        ensures
            final(res)@.len() == vstd::math::max(
                old(res)@.len() as int,
                depth + self.depth_spec(),
            ),
            forall|i: int| 0 <= i < old(res)@.len() ==> final(res)@[i] == old(res)@[i],
            forall|i: int|
                old(res)@.len() <= i < final(res)@.len()
                    ==> final(res)@[i] == self.level_seq(i - depth).first(),
        decreases *self,
    {
        match &self.0 {
            None => {},
            Some(node) => {
                let current_level: usize = res.len();
                if depth >= current_level {
                    res.push(node.data);
                }
                let cur_len: usize = res.len();
                proof {
                    assert(depth < cur_len);
                }
                let ghost mid = res@;
                node.left.left_side_view(depth + 1, res);
                let ghost al = res@;
                node.right.left_side_view(depth + 1, res);
                proof {
                    let orig = old(res)@;
                    let l = node.left;
                    let r = node.right;
                    lemma_depth_nonneg(l);
                    lemma_depth_nonneg(r);
                    assert(self.depth_spec() == 1 + vstd::math::max(l.depth_spec(), r.depth_spec()));
                    assert forall|i: int|
                        orig.len() <= i < res@.len() implies res@[i] == self.level_seq(
                        i - depth,
                    ).first() by {
                        let lpart = l.level_seq(i - depth - 1);
                        let rpart = r.level_seq(i - depth - 1);
                        if i == depth {
                            assert(mid[i] == node.data);
                            assert(self.level_seq(0) =~= seq![node.data]);
                        } else {
                            assert(i > depth);
                            assert(self.level_seq(i - depth) == lpart + rpart);
                            if i < al.len() {
                                assert(i - depth - 1 < l.depth_spec());
                                lemma_level_within_depth(l, i - depth - 1);
                                assert(al[i] == lpart.first());
                                assert((lpart + rpart).first() == lpart.first());
                            } else {
                                assert(i - depth - 1 < r.depth_spec());
                                lemma_level_within_depth(r, i - depth - 1);
                                assert(res@[i] == rpart.first());
                                assert(i - depth - 1 >= l.depth_spec());
                                lemma_level_beyond_depth(l, i - depth - 1);
                                assert(lpart + rpart =~= rpart);
                            }
                        }
                    }
                }
            },
        }
    }

    /// The values of the tree in left-root-right order, each with the
    /// depth of its node below `depth`: the data behind the indented
    /// printing of the tree.
    pub fn preorder(&self, depth: usize) -> (out: Vec<(T, usize)>)
        ensures
            depth + self.depth_spec() <= usize::MAX ==> {
                &&& out@.len() == preorder_seq(*self, depth as int).len()
                &&& forall|j: int|
                    0 <= j < out@.len() ==> (#[trigger] out@[j]).0 == preorder_seq(
                        *self,
                        depth as int,
                    )[j].0 && out@[j].1 as int == preorder_seq(*self, depth as int)[j].1
            },
        decreases *self,
    {
        let mut out: Vec<(T, usize)> = Vec::new();
        match &self.0 {
            None => {},
            Some(node) => {
                proof {
                    lemma_depth_nonneg(node.left);
                    lemma_depth_nonneg(node.right);
                }
                let child_depth: usize = if depth < usize::MAX {
                    depth + 1
                } else {
                    depth
                };
                let mut l: Vec<(T, usize)> = node.left.preorder(child_depth);
                out.append(&mut l);
                out.push((node.data, depth));
                let mut r: Vec<(T, usize)> = node.right.preorder(child_depth);
                out.append(&mut r);
                proof {
                    if depth + self.depth_spec() <= usize::MAX {
                        let lp = preorder_seq(node.left, depth + 1);
                        let mp = seq![(node.data, depth as int)];
                        let rp = preorder_seq(node.right, depth + 1);
                        assert(preorder_seq(*self, depth as int) == lp + mp + rp);
                        assert forall|j: int| 0 <= j < out@.len() implies (#[trigger] out@[j]).0
                            == preorder_seq(*self, depth as int)[j].0 && out@[j].1 as int
                            == preorder_seq(*self, depth as int)[j].1 by {
                            if j < lp.len() {
                                assert((lp + mp + rp)[j] == lp[j]);
                            } else if j == lp.len() {
                                assert((lp + mp + rp)[j] == mp[0]);
                            } else {
                                assert((lp + mp + rp)[j] == rp[j - lp.len() - 1]);
                            }
                        }
                    }
                }
            },
        }
        out
    }

    /// Whether the complete tree has a node in position `idx_to_find` of
    /// its last level, found by walking down with a binary search over the
    /// position range of each subtree.
    fn node_exists(&self, idx_to_find: i32, height: i32) -> (r: bool)
        requires
            complete(*self),
            height >= 0,
            self.depth_spec() <= height + 1,
            2 * pow2i(height as int) - 1 <= i32::MAX,
            0 <= idx_to_find < pow2i(height as int),
        ensures
            r == (idx_to_find < self.level_seq(height as int).len()),
    {
        let ghost goal = idx_to_find < self.level_seq(height as int).len();
        let mut left: i32 = 0;
        let mut level: i32 = 0;
        let mut right: i32 = pow2_i32(height) - 1;
        let mut node: &BinaryTree<T> = self;
        proof {
            lemma_pow2i_pos(height as int);
        }
        while level < height
            invariant
                0 <= level <= height,
                2 * pow2i(height as int) - 1 <= i32::MAX,
                right - left + 1 == pow2i(height as int - level as int),
                left <= idx_to_find <= right,
                0 <= left,
                right < pow2i(height as int),
                complete(*node),
                node.depth_spec() <= height - level + 1,
                (idx_to_find - left < node.level_seq(height as int - level as int).len())
                    == goal,
            decreases height - level,
        {
            let ghost rem = height as int - level as int;
            let ghost idxp = idx_to_find as int - left as int;
            proof {
                lemma_pow2i_pos(rem - 1);
                lemma_pow2i_mono(rem, height as int);
            }
            let mid: i32 = (left + right + 1) / 2;
            proof {
                assert(mid == left + pow2i(rem - 1));
            }
            let ghost old_node = *node;
            let ghost went_right = idx_to_find >= mid;
            proof {
                match old_node.0 {
                    None => {
                        assert(old_node.level_seq(rem).len() == 0);
                    },
                    Some(bn) => {
                        let lp = bn.left.level_seq(rem - 1);
                        let rp = bn.right.level_seq(rem - 1);
                        assert(old_node.level_seq(rem) == lp + rp);
                        lemma_level_le(bn.left, rem - 1);
                        lemma_level_le(bn.right, rem - 1);
                        lemma_depth_nonneg(bn.left);
                        lemma_depth_nonneg(bn.right);
                        if bn.left.depth_spec() == bn.right.depth_spec() {
                            lemma_perfect_complete(bn.left);
                        } else {
                            lemma_perfect_complete(bn.right);
                        }
                        if rp.len() > 0 {
                            // the right half can hold values only when the
                            // left half of this level is full
                            assert(rem - 1 < bn.right.depth_spec()) by {
                                if rem - 1 >= bn.right.depth_spec() {
                                    lemma_level_beyond_depth(bn.right, rem - 1);
                                }
                            }
                            if bn.left.depth_spec() == bn.right.depth_spec() {
                                lemma_perfect_level(bn.left, rem - 1);
                            } else {
                                lemma_complete_level_full(bn.left, rem - 1);
                            }
                            assert(lp.len() == pow2i(rem - 1));
                        }
                    },
                }
            }
            if idx_to_find >= mid {
                left = mid;
                if let Some(binary_node) = &node.0 {
                    node = &binary_node.right;
                }
            } else {
                right = mid - 1;
                if let Some(binary_node) = &node.0 {
                    node = &binary_node.left;
                }
            }
            level = level + 1;
            proof {
                match old_node.0 {
                    None => {
                        assert(node.level_seq(rem - 1).len() == 0);
                    },
                    Some(bn) => {
                        let lp = bn.left.level_seq(rem - 1);
                        let rp = bn.right.level_seq(rem - 1);
                        if went_right {
                            if rp.len() > 0 {
                                assert((idxp - pow2i(rem - 1) < rp.len()) == (idxp < lp.len()
                                    + rp.len()));
                            } else {
                                assert((idxp < lp.len() + rp.len()) == false);
                            }
                        } else {
                            if idxp < lp.len() {
                                assert(idxp < lp.len() + rp.len());
                            } else if idxp < lp.len() + rp.len() {
                                assert(rp.len() > 0);
                                assert(lp.len() == pow2i(rem - 1));
                                assert(false);
                            }
                        }
                    },
                }
            }
        }
        proof {
            if node.0 is Some {
                assert(node.level_seq(0).len() == 1);
                assert(left == right && left == idx_to_find);
            } else {
                assert(node.level_seq(0).len() == 0);
            }
        }
        match &node.0 {
            None => false,
            Some(_) => true,
        }
    }

    /// The number of nodes of a complete tree, found by binary search for
    /// the last occupied position of the last level.
    pub fn count_nodes(&self) -> (r: i32)
        requires
            complete(*self),
            self.size_spec() <= i32::MAX,
        ensures
            r == self.size_spec(),
    {
        proof {
            lemma_depth_nonneg(*self);
            lemma_depth_le_size(*self);
        }
        if self.is_empty_node() {
            return 0;
        }
        proof {
            lemma_nil_iff_depth_zero(*self);
        }
        let height: i32 = self.height();
        proof {
            lemma_complete_size(*self);
            lemma_level_within_depth(*self, self.depth_spec() - 1);
            lemma_level_le(*self, self.depth_spec() - 1);
        }
        if height == 0 {
            proof {
                assert(pow2i(0) == 1);
            }
            return 1;
        }
        let ghost h = height as int;
        let ghost lcount = self.level_seq(h).len() as int;
        proof {
            lemma_pow2i_pos(h);
            assert(pow2i(h) <= self.size_spec());
            assert(h <= 30) by {
                if h >= 31 {
                    lemma_pow2i_mono(31, h);
                    reveal_with_fuel(pow2i, 33);
                    assert(pow2i(31) == 2147483648);
                }
            }
            lemma_pow2i_mono(h, 30);
            reveal_with_fuel(pow2i, 32);
            assert(pow2i(30) == 1073741824);
        }
        let upper_count: i32 = pow2_i32(height) - 1;
        let mut left: i32 = 0;
        let mut right: i32 = upper_count;
        while left < right
            invariant
                0 <= left <= right,
                right <= upper_count,
                upper_count == pow2i(h) - 1,
                2 * pow2i(h) - 1 <= i32::MAX,
                height == h,
                left < lcount,
                lcount <= right + 1,
                complete(*self),
                self.depth_spec() == h + 1,
                lcount == self.level_seq(h).len(),
            decreases right - left,
        {
            let idx_to_find: i32 = (left + right + 1) / 2;
            if self.node_exists(idx_to_find, height) {
                left = idx_to_find;
            } else {
                right = idx_to_find - 1;
            }
        }
        proof {
            assert(lcount == left + 1);
        }
        upper_count + left + 1
    }

    /// Append the values of the subtree to the level rows, the root of the
    /// subtree landing in row `d`.
    fn collect_levels(&self, d: usize, levels: &mut Vec<Vec<T>>)
        requires
            d <= old(levels)@.len(),
        ensures
            final(levels)@.len() == vstd::math::max(
                old(levels)@.len() as int,
                d + self.depth_spec(),
            ),
            forall|i: int|
                0 <= i < old(levels)@.len()
                    ==> (#[trigger] final(levels)@[i])@ == old(levels)@[i]@ + self.level_seq(i - d),
            forall|i: int|
                old(levels)@.len() <= i < final(levels)@.len()
                    ==> (#[trigger] final(levels)@[i])@ == self.level_seq(i - d),
        decreases *self,
    {
        match &self.0 {
            None => {
                proof {
                    assert forall|i: int| 0 <= i < levels@.len() implies (#[trigger] levels@[i])@
                        == levels@[i]@ + self.level_seq(i - d) by {
                        assert(self.level_seq(i - d) =~= Seq::<T>::empty());
                        assert(levels@[i]@ + Seq::<T>::empty() =~= levels@[i]@);
                    }
                }
            },
            Some(node) => {
                if d == levels.len() {
                    levels.push(Vec::new());
                }
                let cur_len: usize = levels.len();
                proof {
                    assert(d < cur_len);
                }
                let ghost before = levels@;
                levels[d].push(node.data);
                proof {
                    assert(levels@[d as int]@ =~= before[d as int]@ + seq![node.data]);
                }
                let ghost mid = levels@;
                node.left.collect_levels(d + 1, levels);
                let ghost al = levels@;
                node.right.collect_levels(d + 1, levels);
                proof {
                    let orig = old(levels)@;
                    let l = node.left;
                    let r = node.right;
                    lemma_depth_nonneg(l);
                    lemma_depth_nonneg(r);
                    assert(self.depth_spec() == 1 + vstd::math::max(l.depth_spec(), r.depth_spec()));
                    assert forall|i: int| 0 <= i < levels@.len() implies (#[trigger] levels@[i])@
                        == (if i < orig.len() {
                        orig[i]@
                    } else {
                        Seq::empty()
                    }) + self.level_seq(i - d) by {
                        let base: Seq<T> = if i < orig.len() {
                            orig[i]@
                        } else {
                            Seq::empty()
                        };
                        let lpart = l.level_seq(i - d - 1);
                        let rpart = r.level_seq(i - d - 1);
                        if i < d {
                            assert(mid[i] == before[i]);
                            assert(al[i]@ == mid[i]@ + lpart);
                            assert(levels@[i]@ == al[i]@ + rpart);
                            assert(lpart =~= Seq::<T>::empty());
                            assert(rpart =~= Seq::<T>::empty());
                            assert(self.level_seq(i - d) =~= Seq::<T>::empty());
                            assert(base + Seq::<T>::empty() =~= base);
                            assert(base + lpart =~= base);
                        } else if i == d {
                            assert(self.level_seq(0) =~= seq![node.data]);
                            assert(lpart =~= Seq::<T>::empty());
                            assert(rpart =~= Seq::<T>::empty());
                            assert(before[i]@ =~= base);
                            assert(mid[i]@ == base + seq![node.data]);
                            assert(al[i]@ == mid[i]@ + lpart);
                            assert(levels@[i]@ == al[i]@ + rpart);
                            assert(base + seq![node.data] + lpart + rpart =~= base + seq![
                                node.data,
                            ]);
                        } else {
                            assert(self.level_seq(i - d) == lpart + rpart);
                            if i < mid.len() {
                                assert(mid[i] == before[i]);
                                assert(before[i]@ =~= base);
                                assert(al[i]@ == mid[i]@ + lpart);
                                assert(levels@[i]@ == al[i]@ + rpart);
                                assert(base + lpart + rpart =~= base + (lpart + rpart));
                            } else if i < al.len() {
                                assert(base =~= Seq::<T>::empty());
                                assert(al[i]@ == lpart);
                                assert(levels@[i]@ == al[i]@ + rpart);
                                assert(lpart + rpart =~= base + (lpart + rpart));
                            } else {
                                assert(base =~= Seq::<T>::empty());
                                assert(levels@[i]@ == rpart);
                                assert(i - d - 1 >= l.depth_spec());
                                lemma_level_beyond_depth(l, i - d - 1);
                                assert(lpart =~= Seq::<T>::empty());
                                assert(rpart =~= base + (lpart + rpart));
                            }
                        }
                    }
                    assert forall|i: int|
                        0 <= i < old(levels)@.len() implies (#[trigger] levels@[i])@
                        == old(levels)@[i]@ + self.level_seq(i - d) by {}
                    assert forall|i: int|
                        old(levels)@.len() <= i < levels@.len() implies (#[trigger] levels@[i])@
                        == self.level_seq(i - d) by {
                        assert(Seq::<T>::empty() + self.level_seq(i - d) =~= self.level_seq(
                            i - d,
                        ));
                    }
                }
            },
        }
    }
}

} // verus!
