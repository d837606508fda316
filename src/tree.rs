use vstd::prelude::*;
use core::cmp::Ordering;
use vstd::std_specs::cmp::{PartialEqSpec, PartialOrdSpec};
use vstd::arithmetic::power2::{pow2, lemma2_to64, lemma_pow2_unfold, lemma_pow2_strictly_increases};

verus! {

/// `a` orders strictly before `b` under `T`'s comparison operators.
pub open spec fn less<T: Ord>(a: T, b: T) -> bool {
    a.partial_cmp_spec(&b) == Some(Ordering::Less)
}

/// `T`'s comparison operators form a strict total order in which the equal
/// elements are exactly the identical values.
pub open spec fn is_total_order<T: Ord>() -> bool {
    &&& T::obeys_partial_cmp_spec()
    &&& forall|a: T, b: T| #[trigger] a.partial_cmp_spec(&b) is Some
    &&& forall|a: T, b: T|
        #![trigger a.partial_cmp_spec(&b), b.partial_cmp_spec(&a)]
        a.partial_cmp_spec(&b) == Some(Ordering::Less) <==> b.partial_cmp_spec(&a) == Some(
            Ordering::Greater,
        )
    &&& forall|a: T, b: T| #[trigger]
        a.partial_cmp_spec(&b) == Some(Ordering::Equal) <==> a == b
    &&& forall|a: T, b: T, c: T| #[trigger] less(a, b) && #[trigger] less(b, c) ==> less(a, c)
}

/// A binary search tree node: either the empty sentinel or a value with two
/// exclusively owned subtrees.
#[derive(Debug)]
pub enum TreeNode<T: Ord> {
    Leaf,
    Node(T, Box<TreeNode<T>>, Box<TreeNode<T>>),
}

impl<T: Ord> TreeNode<T> {
    /// Number of nodes on the longest path from this node down to a leaf.
    pub open spec fn spec_height(self) -> nat
        decreases self,
    {
        match self {
            TreeNode::Leaf => 0,
            TreeNode::Node(_, l, r) => 1 + vstd::math::max(
                l.spec_height() as int,
                r.spec_height() as int,
            ) as nat,
        }
    }

    /// Number of populated nodes.
    pub open spec fn size(self) -> nat
        decreases self,
    {
        match self {
            TreeNode::Leaf => 0,
            TreeNode::Node(_, l, r) => 1 + l.size() + r.size(),
        }
    }

    /// The set of values held in the tree.
    pub open spec fn values(self) -> Set<T>
        decreases self,
    {
        match self {
            TreeNode::Leaf => Set::empty(),
            TreeNode::Node(v, l, r) => l.values().union(r.values()).insert(v),
        }
    }

    /// The values in in-order: left subtree, the node's value, right subtree.
    pub open spec fn in_order(self) -> Seq<T>
        decreases self,
    {
        match self {
            TreeNode::Leaf => Seq::empty(),
            TreeNode::Node(v, l, r) => l.in_order() + seq![v] + r.in_order(),
        }
    }

    /// Every value in a left subtree orders before its node's value, and every
    /// value in a right subtree orders after it.
    pub open spec fn is_search_tree(self) -> bool
        decreases self,
    {
        match self {
            TreeNode::Leaf => true,
            TreeNode::Node(v, l, r) => {
                &&& forall|x: T| #[trigger] l.values().contains(x) ==> less(x, v)
                &&& forall|x: T| #[trigger] r.values().contains(x) ==> less(v, x)
                &&& l.is_search_tree()
                &&& r.is_search_tree()
            },
        }
    }

    /// Left and right subtree heights differ by at most one, at every node.
    pub open spec fn is_height_balanced(self) -> bool
        decreases self,
    {
        match self {
            TreeNode::Leaf => true,
            TreeNode::Node(_, l, r) => {
                &&& l.spec_height() <= r.spec_height() + 1
                &&& r.spec_height() <= l.spec_height() + 1
                &&& l.is_height_balanced()
                &&& r.is_height_balanced()
            },
        }
    }

    /// Both invariants of a balanced search tree hold.
    pub open spec fn is_avl(self) -> bool {
        self.is_search_tree() && self.is_height_balanced()
    }

    /// The tree after a left rotation at its root.
    pub open spec fn rotated_left(self) -> Self {
        match self {
            TreeNode::Node(v, l, r) => match *r {
                TreeNode::Node(v2, l2, r2) => TreeNode::Node(
                    v2,
                    Box::new(TreeNode::Node(v, l, l2)),
                    r2,
                ),
                TreeNode::Leaf => self,
            },
            TreeNode::Leaf => self,
        }
    }

    /// The tree after a right rotation at its root.
    pub open spec fn rotated_right(self) -> Self {
        match self {
            TreeNode::Node(v, l, r) => match *l {
                TreeNode::Node(v2, l2, r2) => TreeNode::Node(
                    v2,
                    l2,
                    Box::new(TreeNode::Node(v, r2, r)),
                ),
                TreeNode::Leaf => self,
            },
            TreeNode::Leaf => self,
        }
    }

    /// Left subtree height minus right subtree height; zero for an empty tree.
    pub open spec fn balance(self) -> int {
        match self {
            TreeNode::Leaf => 0,
            TreeNode::Node(_, l, r) => l.spec_height() - r.spec_height(),
        }
    }

    /// The tree after restoring the height balance at its root: a single or
    /// double rotation when one side is more than one level taller.
    pub open spec fn rebalanced(self) -> Self {
        match self {
            TreeNode::Leaf => self,
            TreeNode::Node(v, l, r) => if self.balance() > 1 {
                let nl = if l.balance() < 0 {
                    l.rotated_left()
                } else {
                    *l
                };
                TreeNode::Node(v, Box::new(nl), r).rotated_right()
            } else if self.balance() < -1 {
                let nr = if r.balance() > 0 {
                    r.rotated_right()
                } else {
                    *r
                };
                TreeNode::Node(v, l, Box::new(nr)).rotated_left()
            } else {
                self
            },
        }
    }

    /// The tree after inserting `value`: descend by comparison, place it at
    /// an empty position unless an equal value is met, and rebalance every
    /// node on the way back up.
    pub open spec fn inserted(self, value: T) -> Self
        decreases self,
    {
        match self {
            TreeNode::Leaf => TreeNode::Node(
                value,
                Box::new(TreeNode::Leaf),
                Box::new(TreeNode::Leaf),
            ).rebalanced(),
            TreeNode::Node(v, l, r) => if less(value, v) {
                TreeNode::Node(v, Box::new(l.inserted(value)), r).rebalanced()
            } else if less(v, value) {
                TreeNode::Node(v, l, Box::new(r.inserted(value))).rebalanced()
            } else {
                self.rebalanced()
            },
        }
    }

    /// Number of nodes on the longest path from this node down to a leaf.
    pub fn height(&self) -> (h: usize)
        requires
            self.spec_height() <= usize::MAX,
        ensures
            h == self.spec_height(),
        decreases self,
    {
        match self {
            TreeNode::Leaf => 0,
            TreeNode::Node(_, left, right) => {
                let lh = left.height();
                let rh = right.height();
                if lh >= rh {
                    1 + lh
                } else {
                    1 + rh
                }
            },
        }
    }

    /// Whether the tree is ordered as a binary search tree.
    fn is_bst(&self) -> (b: bool)
        requires
            is_total_order::<T>(),
        ensures
            b == self.is_search_tree(),
    {
        is_bst_within(self, None, None)
    }

    /// Whether the heights of the two subtrees of every node differ by at most one.
    pub fn is_balanced(&self) -> (b: bool)
        requires
            self.spec_height() <= usize::MAX,
        ensures
            b == self.is_height_balanced(),
        decreases self,
    {
        match self {
            TreeNode::Leaf => true,
            TreeNode::Node(_, left, right) => {
                let left_height = left.height();
                let right_height = right.height();
                left_height <= right_height + 1 && right_height <= left_height + 1
                    && left.is_balanced() && right.is_balanced()
            },
        }
    }

    /// Whether the tree is a valid balanced binary search tree.
    pub fn validate(&self) -> (b: bool)
        requires
            is_total_order::<T>(),
            self.spec_height() <= usize::MAX,
        ensures
            b == self.is_avl(),
    {
        self.is_bst() && self.is_balanced()
    }

    /// Builds a tree by inserting the values of `values` one at a time, in order.
    pub fn from_vec(values: Vec<T>) -> (t: TreeNode<T>)
        ensures
            t.is_height_balanced(),
            t.size() <= values.len(),
            is_total_order::<T>() ==> {
                &&& t == built_from(values@)
                &&& t.is_search_tree()
                &&& t.values() == values@.to_set()
            },
    {
        let ghost s = values@;
        assert(s.len() == values.len());
        let mut tree = TreeNode::Leaf;
        for value in iter: values
            invariant
                iter.seq() == s,
                s.len() <= usize::MAX,
                tree.is_height_balanced(),
                tree.size() <= iter.index(),
                is_total_order::<T>() ==> tree == built_from(s.take(iter.index() as int)),
        {
            proof {
                lemma_height_fits(tree);
                if is_total_order::<T>() {
                    lemma_built_from_is_avl(s.take(iter.index() as int));
                    lemma_built_from_step(s, iter.index() as int);
                }
            }
            tree.insert(value);
        }
        proof {
            assert(s.take(s.len() as int) =~= s);
            if is_total_order::<T>() {
                lemma_built_from_is_avl(s);
            }
        }
        tree
    }

    /// The values of the tree in order, consuming it; for a search tree they
    /// come out strictly increasing.
    pub fn into_vec(self) -> (v: Vec<T>)
        ensures
            v@ == self.in_order(),
            is_total_order::<T>() && self.is_search_tree() ==> {
                &&& strictly_increasing(v@)
                &&& v@.to_set() == self.values()
            },
    {
        proof {
            if is_total_order::<T>() && self.is_search_tree() {
                lemma_in_order_sorted(self);
            }
        }
        let mut v = Vec::new();
        push_in_order(self, &mut v);
        v
    }

    /// Creates a node holding `value` with the given children.
    pub fn node(value: T, left: TreeNode<T>, right: TreeNode<T>) -> (t: TreeNode<T>)
        ensures
            t == TreeNode::Node(value, Box::new(left), Box::new(right)),
    {
        TreeNode::Node(value, Box::new(left), Box::new(right))
    }

    /// Creates an empty tree.
    pub fn new() -> (t: TreeNode<T>)
        ensures
            t == TreeNode::<T>::Leaf,
    {
        TreeNode::Leaf
    }

    /// Moves the tree out, leaving an empty tree in its place.
    fn take(&mut self) -> (t: TreeNode<T>)
        ensures
            t == *old(self),
            *final(self) == TreeNode::<T>::Leaf,
    {
        let mut t = TreeNode::Leaf;
        std::mem::swap(self, &mut t);
        t
    }

    /// Inserts `value`, unless an equal value is already stored, and
    /// rebalances every node on the path back up to the root. The height
    /// must stay within the `i32` that balance factors are computed in.
    pub fn insert(&mut self, value: T)
        requires
            old(self).is_height_balanced(),
            old(self).spec_height() < i32::MAX,
        ensures
            grown_by_one(*old(self), *final(self)),
            is_total_order::<T>() && old(self).is_search_tree() ==> {
                &&& *final(self) == old(self).inserted(value)
                &&& final(self).is_search_tree()
                &&& final(self).values() == old(self).values().insert(value)
                &&& old(self).values().contains(value) ==> *final(self) == *old(self)
            },
        decreases *old(self),
    {
        let ghost t0 = *self;
        match self {
            TreeNode::Leaf => {
                *self = TreeNode::Node(value, Box::new(TreeNode::Leaf), Box::new(TreeNode::Leaf));
            },
            TreeNode::Node(val, left, right) => {
                if value < *val {
                    left.insert(value);
                } else if value > *val {
                    right.insert(value);
                }
            },
        }
        proof {
            lemma_insert_shape(t0, *self, value);
            if is_total_order::<T>() && t0.is_search_tree() {
                lemma_insert_order(t0, *self, value);
            }
        }
        self.rebalance();
    }

    /// Left subtree height minus right subtree height; zero for an empty tree.
    fn balance_factor(&self) -> (b: i32)
        requires
            self.spec_height() <= i32::MAX,
        ensures
            b == self.balance(),
    {
        match self {
            TreeNode::Leaf => 0,
            TreeNode::Node(_, left, right) => left.height() as i32 - right.height() as i32,
        }
    }

    /// Restores the height balance at the root with a single or double rotation.
    fn rebalance(&mut self)
        requires
            old(self).spec_height() <= i32::MAX,
        ensures
            *final(self) == old(self).rebalanced(),
    {
        let balance = self.balance_factor();
        match self {
            TreeNode::Leaf => {},
            TreeNode::Node(_, left, right) => {
                if balance > 1 {
                    if left.balance_factor() < 0 {
                        left.left_rotate();
                    }
                    self.right_rotate();
                } else if balance < -1 {
                    if right.balance_factor() > 0 {
                        right.right_rotate();
                    }
                    self.left_rotate();
                }
            },
        }
    }

    /// Performs a left rotation at the root; a no-op when there is no right child.
    pub fn left_rotate(&mut self)
        ensures
            *final(self) == old(self).rotated_left(),
    {
        let old_root = self.take();
        match old_root {
            TreeNode::Node(value, left, right) => match *right {
                TreeNode::Leaf => {
                    *self = TreeNode::Node(value, left, Box::new(TreeNode::Leaf));
                },
                TreeNode::Node(value2, left2, right2) => {
                    let new_left = TreeNode::Node(value, left, left2);
                    *self = TreeNode::Node(value2, Box::new(new_left), right2);
                },
            },
            TreeNode::Leaf => {
                *self = TreeNode::Leaf;
            },
        }
    }

    /// Performs a right rotation at the root; a no-op when there is no left child.
    pub fn right_rotate(&mut self)
        ensures
            *final(self) == old(self).rotated_right(),
    {
        let old_root = self.take();
        match old_root {
            TreeNode::Node(value, left, right) => match *left {
                TreeNode::Leaf => {
                    *self = TreeNode::Node(value, Box::new(TreeNode::Leaf), right);
                },
                TreeNode::Node(value2, left2, right2) => {
                    let new_right = TreeNode::Node(value, right2, right);
                    *self = TreeNode::Node(value2, left2, Box::new(new_right));
                },
            },
            TreeNode::Leaf => {
                *self = TreeNode::Leaf;
            },
        }
    }
}

/// Appends the values of `node` in order to `vec`.
fn push_in_order<T: Ord>(node: TreeNode<T>, vec: &mut Vec<T>)
    ensures
        final(vec)@ == old(vec)@ + node.in_order(),
    decreases node,
{
    match node {
        TreeNode::Leaf => {
            assert(old(vec)@ + node.in_order() =~= old(vec)@);
        },
        TreeNode::Node(value, left, right) => {
            push_in_order(*left, vec);
            vec.push(value);
            push_in_order(*right, vec);
            assert(final(vec)@ =~= old(vec)@ + node.in_order());
        },
    }
}

/// Both trees have the same shape and hold values that are pairwise equal
/// under `T`'s `==`.
pub open spec fn trees_equal<T: Ord>(a: TreeNode<T>, b: TreeNode<T>) -> bool
    decreases a,
{
    match (a, b) {
        (TreeNode::Leaf, TreeNode::Leaf) => true,
        (TreeNode::Node(k, j, m), TreeNode::Node(k2, j2, m2)) => k.eq_spec(&k2) && trees_equal(
            *j,
            *j2,
        ) && trees_equal(*m, *m2),
        _ => false,
    }
}

impl<T: Ord> PartialEq for TreeNode<T> {
    fn eq(&self, other: &Self) -> (r: bool)
        decreases self,
    {
        match (self, other) {
            (TreeNode::Leaf, TreeNode::Leaf) => true,
            (TreeNode::Node(k, j, m), TreeNode::Node(k2, j2, m2)) => k == k2 && (**j).eq(&**j2)
                && (**m).eq(&**m2),
            _ => false,
        }
    }
}

impl<T: Ord> vstd::std_specs::cmp::PartialEqSpecImpl for TreeNode<T> {
    open spec fn obeys_eq_spec() -> bool {
        T::obeys_eq_spec()
    }

    open spec fn eq_spec(&self, other: &Self) -> bool {
        trees_equal(*self, *other)
    }
}

impl<T: Ord> Eq for TreeNode<T> {
}


impl<T: Ord + Clone> Clone for TreeNode<T> {
    /// Copies the tree node for node, cloning each value.
    fn clone(&self) -> (t: Self)
        ensures
            t.size() == self.size(),
            t.spec_height() == self.spec_height(),
        decreases self,
    {
        match self {
            TreeNode::Leaf => TreeNode::Leaf,
            TreeNode::Node(v, l, r) => TreeNode::Node(
                v.clone(),
                Box::new((**l).clone()),
                Box::new((**r).clone()),
            ),
        }
    }
}

impl<T: Ord> Default for TreeNode<T> {
    fn default() -> (t: Self)
        ensures
            t == TreeNode::<T>::Leaf,
    {
        TreeNode::Leaf
    }
}

impl<T: Ord> From<Vec<T>> for TreeNode<T> {
    fn from(vec: Vec<T>) -> (t: Self) {
        TreeNode::from_vec(vec)
    }
}

impl<T: Ord> vstd::std_specs::convert::FromSpecImpl<Vec<T>> for TreeNode<T> {
    open spec fn obeys_from_spec() -> bool {
        is_total_order::<T>()
    }

    open spec fn from_spec(v: Vec<T>) -> Self {
        built_from(v@)
    }
}

/// `x` lies strictly above the lower bound and strictly below the upper
/// bound, where an absent bound does not constrain.
pub open spec fn strictly_within<T: Ord>(x: T, min: Option<&T>, max: Option<&T>) -> bool {
    &&& (min matches Some(m) ==> less(*m, x))
    &&& (max matches Some(m) ==> less(x, *m))
}

/// Whether `tree` is a search tree whose values all lie strictly between the bounds.
fn is_bst_within<T: Ord>(tree: &TreeNode<T>, min: Option<&T>, max: Option<&T>) -> (b: bool)
    requires
        is_total_order::<T>(),
    ensures
        b == (tree.is_search_tree() && forall|x: T| #[trigger]
            tree.values().contains(x) ==> strictly_within(x, min, max)),
    decreases tree,
{
    match tree {
        TreeNode::Leaf => true,
        TreeNode::Node(value, left, right) => {
            match min {
                Some(min) => {
                    if *value <= *min {
                        proof {
                            assert(tree.values().contains(*value));
                        }
                        return false;
                    }
                },
                _ => {},
            }
            match max {
                Some(max) => {
                    if *value >= *max {
                        proof {
                            assert(tree.values().contains(*value));
                        }
                        return false;
                    }
                },
                _ => {},
            }
            let b = is_bst_within(left, min, Some(value)) && is_bst_within(right, Some(value), max);
            proof {
                if let Some(m) = min {
                    assert(value.partial_cmp_spec(m) is Some);
                    assert(less(*m, *value));
                }
                if let Some(m) = max {
                    assert(value.partial_cmp_spec(m) is Some);
                    assert(less(*value, *m));
                }
                assert(strictly_within(*value, min, max));
                if tree.is_search_tree() && forall|x: T| #[trigger]
                    tree.values().contains(x) ==> strictly_within(x, min, max) {
                    assert forall|x: T| #[trigger]
                        left.values().contains(x) implies strictly_within(x, min, Some(value)) by {
                        assert(tree.values().contains(x));
                    }
                    assert forall|x: T| #[trigger]
                        right.values().contains(x) implies strictly_within(x, Some(value), max) by {
                        assert(tree.values().contains(x));
                    }
                }
                if b {
                    assert forall|x: T| #[trigger]
                        tree.values().contains(x) implies strictly_within(x, min, max) by {
                        if left.values().contains(x) {
                            assert(strictly_within(x, min, Some(value)));
                        } else if right.values().contains(x) {
                            assert(strictly_within(x, Some(value), max));
                        }
                    }
                }
            }
            b
        },
    }
}

/// The size of a tree is the length of its in-order sequence.
pub proof fn lemma_size_is_len<T: Ord>(t: TreeNode<T>)
    ensures
        t.size() == t.in_order().len(),
    decreases t,
{
    if let TreeNode::Node(_, l, r) = t {
        lemma_size_is_len(*l);
        lemma_size_is_len(*r);
    }
}

/// A right rotation keeps the values, their in-order sequence and, for a
/// total order, the search order.
proof fn lemma_rotate_right<T: Ord>(t: TreeNode<T>)
    ensures
        t.rotated_right().values() == t.values(),
        t.rotated_right().in_order() == t.in_order(),
        t.rotated_right().size() == t.size(),
        is_total_order::<T>() && t.is_search_tree() ==> t.rotated_right().is_search_tree(),
{
    if let TreeNode::Node(v, l, r) = t {
        if let TreeNode::Node(v2, l2, r2) = *l {
            let inner = TreeNode::Node(v, r2, r);
            let rt = TreeNode::Node(v2, l2, Box::new(inner));
            assert(t.rotated_right() == rt);
            assert(l.values() == l2.values().union(r2.values()).insert(v2));
            assert(inner.values() == r2.values().union(r.values()).insert(v));
            assert(rt.values() =~= t.values());
            assert(l.in_order() == l2.in_order() + seq![v2] + r2.in_order());
            assert(inner.in_order() == r2.in_order() + seq![v] + r.in_order());
            assert(rt.in_order() =~= t.in_order());
            if is_total_order::<T>() && t.is_search_tree() {
                assert(l.values().contains(v2));
                assert(less(v2, v));
                assert(l.is_search_tree());
                assert forall|x: T| #[trigger] inner.values().contains(x) implies less(v2, x) by {
                    if r.values().contains(x) {
                        assert(less(v, x));
                    } else if r2.values().contains(x) {
                    }
                }
                assert forall|x: T| #[trigger] r2.values().contains(x) implies less(x, v) by {
                    assert(l.values().contains(x));
                }
                assert(inner.is_search_tree());
                assert(rt.is_search_tree());
            }
            lemma_size_is_len(t);
            lemma_size_is_len(rt);
        }
    }
}

/// A left rotation keeps the values, their in-order sequence and, for a
/// total order, the search order.
proof fn lemma_rotate_left<T: Ord>(t: TreeNode<T>)
    ensures
        t.rotated_left().values() == t.values(),
        t.rotated_left().in_order() == t.in_order(),
        t.rotated_left().size() == t.size(),
        is_total_order::<T>() && t.is_search_tree() ==> t.rotated_left().is_search_tree(),
{
    if let TreeNode::Node(v, l, r) = t {
        if let TreeNode::Node(v2, l2, r2) = *r {
            let inner = TreeNode::Node(v, l, l2);
            let rt = TreeNode::Node(v2, Box::new(inner), r2);
            assert(t.rotated_left() == rt);
            assert(r.values() == l2.values().union(r2.values()).insert(v2));
            assert(inner.values() == l.values().union(l2.values()).insert(v));
            assert(rt.values() =~= t.values());
            assert(r.in_order() == l2.in_order() + seq![v2] + r2.in_order());
            assert(inner.in_order() == l.in_order() + seq![v] + l2.in_order());
            assert(rt.in_order() =~= t.in_order());
            if is_total_order::<T>() && t.is_search_tree() {
                assert(r.values().contains(v2));
                assert(less(v, v2));
                assert(r.is_search_tree());
                assert forall|x: T| #[trigger] inner.values().contains(x) implies less(x, v2) by {
                    if l.values().contains(x) {
                        assert(less(x, v));
                    } else if l2.values().contains(x) {
                    }
                }
                assert forall|x: T| #[trigger] l2.values().contains(x) implies less(v, x) by {
                    assert(r.values().contains(x));
                }
                assert(inner.is_search_tree());
                assert(rt.is_search_tree());
            }
            lemma_size_is_len(t);
            lemma_size_is_len(rt);
        }
    }
}

/// Rebalancing is a composition of rotations: it keeps the values, their
/// in-order sequence, the size and, for a total order, the search order.
proof fn lemma_rebalance_keeps_order<T: Ord>(t: TreeNode<T>)
    ensures
        t.rebalanced().values() == t.values(),
        t.rebalanced().in_order() == t.in_order(),
        t.rebalanced().size() == t.size(),
        is_total_order::<T>() && t.is_search_tree() ==> t.rebalanced().is_search_tree(),
{
    if let TreeNode::Node(v, l, r) = t {
        if t.balance() > 1 {
            if l.balance() < 0 {
                lemma_rotate_left(*l);
                let mid = TreeNode::Node(v, Box::new(l.rotated_left()), r);
                assert(mid.values() =~= t.values());
                assert(mid.in_order() == t.in_order());
                lemma_size_is_len(mid);
                lemma_size_is_len(t);
                lemma_rotate_right(mid);
            } else {
                lemma_rotate_right(t);
            }
        } else if t.balance() < -1 {
            if r.balance() > 0 {
                lemma_rotate_right(*r);
                let mid = TreeNode::Node(v, l, Box::new(r.rotated_right()));
                assert(mid.values() =~= t.values());
                assert(mid.in_order() == t.in_order());
                lemma_size_is_len(mid);
                lemma_size_is_len(t);
                lemma_rotate_left(mid);
            } else {
                lemma_rotate_left(t);
            }
        }
    }
}

/// Rebalancing a tree whose subtrees are balanced and whose heights differ by
/// at most two yields a balanced tree at most one level lower; a root that is
/// already balanced is left as is.
proof fn lemma_rebalance_balances<T: Ord>(t: TreeNode<T>)
    requires
        t matches TreeNode::Node(_, l, r) ==> {
            &&& l.is_height_balanced()
            &&& r.is_height_balanced()
            &&& -2 <= t.balance() <= 2
        },
    ensures
        t.rebalanced().is_height_balanced(),
        -1 <= t.balance() <= 1 ==> t.rebalanced() == t,
        t.spec_height() <= t.rebalanced().spec_height() + 1,
        t.rebalanced().spec_height() <= t.spec_height(),
{
    if let TreeNode::Node(v, l, r) = t {
        if t.balance() > 1 {
            if let TreeNode::Node(v2, l2, r2) = *l {
                if l.balance() < 0 {
                    if let TreeNode::Node(v3, a, b) = *r2 {
                        assert(r2.is_height_balanced());
                        assert(l2.spec_height() + 1 == r2.spec_height());
                        assert(r2.spec_height() + 1 == l.spec_height());
                        assert(r.spec_height() + 2 == l.spec_height());
                        assert(a.spec_height() <= b.spec_height() + 1);
                        assert(b.spec_height() <= a.spec_height() + 1);
                        let x = TreeNode::Node(v2, l2, a);
                        let y = TreeNode::Node(v, b, r);
                        assert(x.is_height_balanced());
                        assert(y.is_height_balanced());
                        let res = TreeNode::Node(v3, Box::new(x), Box::new(y));
                        assert(t.rebalanced() == res);
                        assert(res.is_height_balanced());
                    }
                } else {
                    let inner = TreeNode::Node(v, r2, r);
                    assert(t.rebalanced() == TreeNode::Node(v2, l2, Box::new(inner)));
                    assert(l2.spec_height() + 1 == l.spec_height());
                    assert(inner.spec_height() <= l.spec_height());
                    assert(inner.is_height_balanced());
                }
            }
        } else if t.balance() < -1 {
            if let TreeNode::Node(v2, l2, r2) = *r {
                if r.balance() > 0 {
                    if let TreeNode::Node(v3, a, b) = *l2 {
                        assert(l2.is_height_balanced());
                        assert(r2.spec_height() + 1 == l2.spec_height());
                        assert(l2.spec_height() + 1 == r.spec_height());
                        assert(l.spec_height() + 2 == r.spec_height());
                        assert(a.spec_height() <= b.spec_height() + 1);
                        assert(b.spec_height() <= a.spec_height() + 1);
                        let x = TreeNode::Node(v, l, a);
                        let y = TreeNode::Node(v2, b, r2);
                        assert(x.is_height_balanced());
                        assert(y.is_height_balanced());
                        let res = TreeNode::Node(v3, Box::new(x), Box::new(y));
                        assert(t.rebalanced() == res);
                        assert(res.is_height_balanced());
                    }
                } else {
                    let inner = TreeNode::Node(v, l, l2);
                    assert(t.rebalanced() == TreeNode::Node(v2, Box::new(inner), r2));
                    assert(r2.spec_height() + 1 == r.spec_height());
                    assert(inner.spec_height() <= r.spec_height());
                    assert(inner.is_height_balanced());
                }
            }
        }
    }
}

/// `b` is a balanced tree grown from `a` by at most one node and one level.
pub open spec fn grown_by_one<T: Ord>(a: TreeNode<T>, b: TreeNode<T>) -> bool {
    &&& b.is_height_balanced()
    &&& a.spec_height() <= b.spec_height() <= a.spec_height() + 1
    &&& b.size() <= a.size() + 1
}

/// One step of insertion, on shapes alone: a root whose subtree grew by at
/// most one level is rebalanced into a tree grown by at most one level.
proof fn lemma_insert_shape<T: Ord>(t0: TreeNode<T>, t1: TreeNode<T>, value: T)
    requires
        t0.is_height_balanced(),
        t0 is Leaf ==> t1 == TreeNode::Node(
            value,
            Box::new(TreeNode::Leaf),
            Box::new(TreeNode::Leaf),
        ),
        t0 matches TreeNode::Node(v, l, r) ==> (t1 matches TreeNode::Node(v1, l1, r1) && v1 == v
            && ((l1 == l && r1 == r) || (r1 == r && grown_by_one(*l, *l1)) || (l1 == l
            && grown_by_one(*r, *r1)))),
    ensures
        t1.spec_height() <= t0.spec_height() + 1,
        grown_by_one(t0, t1.rebalanced()),
{
    lemma_rebalance_keeps_order(t1);
    lemma_rebalance_balances(t1);
    lemma_size_is_len(t1);
    lemma_size_is_len(t0);
}

/// One step of insertion, on values: with a total order, the rebalanced root
/// is the inserted tree, still a search tree, holding one value more unless
/// that value was already there.
proof fn lemma_insert_order<T: Ord>(t0: TreeNode<T>, t1: TreeNode<T>, value: T)
    requires
        is_total_order::<T>(),
        t0.is_avl(),
        t1 == match t0 {
            TreeNode::Leaf => TreeNode::Node(
                value,
                Box::new(TreeNode::Leaf),
                Box::new(TreeNode::Leaf),
            ),
            TreeNode::Node(v, l, r) => if less(value, v) {
                TreeNode::Node(v, Box::new(l.inserted(value)), r)
            } else if less(v, value) {
                TreeNode::Node(v, l, Box::new(r.inserted(value)))
            } else {
                t0
            },
        },
        t0 matches TreeNode::Node(v, l, r) ==> {
            &&& less(value, v) ==> inserts_value(*l, value)
            &&& less(v, value) ==> inserts_value(*r, value)
        },
    ensures
        t1.rebalanced() == t0.inserted(value),
        inserts_value(t0, value),
{
    lemma_rebalance_keeps_order(t1);
    match t0 {
        TreeNode::Leaf => {
            assert(t1.rebalanced() == t1);
            assert(t1.values() =~= t0.values().insert(value));
        },
        TreeNode::Node(v, l, r) => {
            if less(value, v) {
                let nl = l.inserted(value);
                assert(t1.values() =~= t0.values().insert(value));
                assert forall|x: T| #[trigger] nl.values().contains(x) implies less(x, v) by {
                    if x != value {
                        assert(l.values().contains(x));
                    }
                }
                if t0.values().contains(value) {
                    assert(value != v);
                    if r.values().contains(value) {
                        assert(less(v, value));
                    }
                    assert(l.values().contains(value));
                    lemma_rebalance_balances(t0);
                }
            } else if less(v, value) {
                let nr = r.inserted(value);
                assert(t1.values() =~= t0.values().insert(value));
                assert forall|x: T| #[trigger] nr.values().contains(x) implies less(v, x) by {
                    if x != value {
                        assert(r.values().contains(x));
                    }
                }
                if t0.values().contains(value) {
                    assert(value != v);
                    if l.values().contains(value) {
                        assert(less(value, v));
                    }
                    assert(r.values().contains(value));
                    lemma_rebalance_balances(t0);
                }
            } else {
                assert(value.partial_cmp_spec(&v) is Some);
                assert(v.partial_cmp_spec(&value) != Some(Ordering::Less));
                assert(value.partial_cmp_spec(&v) != Some(Ordering::Greater));
                assert(value.partial_cmp_spec(&v) == Some(Ordering::Equal));
                assert(value == v);
                lemma_rebalance_balances(t0);
                assert(t0.values().insert(value) =~= t0.values());
            }
        },
    }
}

/// What insertion guarantees of the values of a search tree `t`.
pub open spec fn inserts_value<T: Ord>(t: TreeNode<T>, value: T) -> bool {
    let n = t.inserted(value);
    &&& n.is_search_tree()
    &&& n.values() == t.values().insert(value)
    &&& t.values().contains(value) ==> n == t
}

/// The fewest nodes that a height-balanced tree of height `h` can hold:
/// one more than the fewest of heights `h - 1` and `h - 2` together.
pub open spec fn min_balanced_size(h: nat) -> nat
    decreases h,
{
    if h == 0 {
        0
    } else if h == 1 {
        1
    } else {
        1 + min_balanced_size((h - 1) as nat) + min_balanced_size((h - 2) as nat)
    }
}

proof fn lemma_min_balanced_size_grows(a: nat, b: nat)
    requires
        a <= b,
    ensures
        min_balanced_size(a) <= min_balanced_size(b),
    decreases b,
{
    if a < b {
        lemma_min_balanced_size_grows(a, (b - 1) as nat);
    }
}

proof fn lemma_min_balanced_size_doubles(h: nat)
    ensures
        pow2(h / 2) <= min_balanced_size(h) + 1,
    decreases h,
{
    if h >= 2 {
        lemma_min_balanced_size_doubles((h - 2) as nat);
        lemma_min_balanced_size_grows((h - 2) as nat, (h - 1) as nat);
        assert((h - 2) as nat / 2 == (h / 2 - 1) as nat);
        lemma_pow2_unfold(h / 2);
    } else {
        lemma2_to64();
    }
}

/// A height-balanced tree of height `h` holds at least
/// `min_balanced_size(h)` nodes, so its height grows only logarithmically with
/// its size: `2^(h / 2) <= size + 1`.
pub proof fn lemma_height_bound<T: Ord>(t: TreeNode<T>)
    requires
        t.is_height_balanced(),
    ensures
        min_balanced_size(t.spec_height()) <= t.size(),
        pow2(t.spec_height() / 2) <= t.size() + 1,
    decreases t,
{
    if let TreeNode::Node(_, l, r) = t {
        lemma_height_bound(*l);
        lemma_height_bound(*r);
        let h = t.spec_height();
        if h >= 2 {
            if l.spec_height() >= r.spec_height() {
                lemma_min_balanced_size_grows((h - 2) as nat, r.spec_height());
            } else {
                lemma_min_balanced_size_grows((h - 2) as nat, l.spec_height());
            }
        }
    }
    lemma_min_balanced_size_doubles(t.spec_height());
}

/// A height-balanced tree with fewer than `usize::MAX` nodes is less than
/// 130 levels high.
proof fn lemma_height_fits<T: Ord>(t: TreeNode<T>)
    requires
        t.is_height_balanced(),
        t.size() < usize::MAX,
    ensures
        t.spec_height() < 130,
{
    lemma_height_bound(t);
    lemma2_to64();
    if t.spec_height() >= 130 {
        lemma_pow2_strictly_increases(64, t.spec_height() / 2);
    }
}

/// Inserting into a balanced search tree over a total order yields a balanced
/// search tree holding the values before and the inserted one.
pub proof fn lemma_inserted<T: Ord>(t: TreeNode<T>, value: T)
    requires
        is_total_order::<T>(),
        t.is_avl(),
    ensures
        t.inserted(value).is_avl(),
        grown_by_one(t, t.inserted(value)),
        inserts_value(t, value),
    decreases t,
{
    if let TreeNode::Node(v, l, r) = t {
        if less(value, v) {
            lemma_inserted(*l, value);
        } else if less(v, value) {
            lemma_inserted(*r, value);
        }
    }
    let t1 = match t {
        TreeNode::Leaf => TreeNode::Node(
            value,
            Box::new(TreeNode::Leaf),
            Box::new(TreeNode::Leaf),
        ),
        TreeNode::Node(v, l, r) => if less(value, v) {
            TreeNode::Node(v, Box::new(l.inserted(value)), r)
        } else if less(v, value) {
            TreeNode::Node(v, l, Box::new(r.inserted(value)))
        } else {
            t
        },
    };
    lemma_insert_shape(t, t1, value);
    lemma_insert_order(t, t1, value);
}

/// The tree built by inserting the values of `s` one at a time, in order,
/// into an empty tree.
pub open spec fn built_from<T: Ord>(s: Seq<T>) -> TreeNode<T>
    decreases s.len(),
{
    if s.len() == 0 {
        TreeNode::Leaf
    } else {
        built_from(s.drop_last()).inserted(s.last())
    }
}

proof fn lemma_built_from_step<T: Ord>(s: Seq<T>, i: int)
    requires
        0 <= i < s.len(),
    ensures
        built_from(s.take(i + 1)) == built_from(s.take(i)).inserted(s[i]),
{
    assert(s.take(i + 1).drop_last() =~= s.take(i));
}

/// Whatever values are inserted, one at a time, into an empty tree, every
/// intermediate tree is a balanced search tree holding exactly the values
/// inserted so far.
pub proof fn lemma_built_from_is_avl<T: Ord>(s: Seq<T>)
    requires
        is_total_order::<T>(),
    ensures
        built_from(s).is_avl(),
        built_from(s).values() == s.to_set(),
        built_from(s).size() <= s.len(),
    decreases s.len(),
{
    if s.len() > 0 {
        let p = s.drop_last();
        lemma_built_from_is_avl(p);
        lemma_inserted(built_from(p), s.last());
        assert(s.to_set() =~= p.to_set().insert(s.last())) by {
            assert(s == p.push(s.last()));
        }
    } else {
        assert(s.to_set() =~= Set::empty());
    }
}

/// The values of a search tree over a total order, read in order, are
/// strictly increasing and are exactly its values.
pub proof fn lemma_in_order_sorted<T: Ord>(t: TreeNode<T>)
    requires
        is_total_order::<T>(),
        t.is_search_tree(),
    ensures
        strictly_increasing(t.in_order()),
        t.in_order().to_set() == t.values(),
        t.in_order().len() == t.values().len(),
    decreases t,
{
    if let TreeNode::Node(v, l, r) = t {
        lemma_in_order_sorted(*l);
        lemma_in_order_sorted(*r);
        let s = t.in_order();
        let a = l.in_order();
        let b = r.in_order();
        assert(s == a + seq![v] + b);
        assert forall|i: int, j: int| 0 <= i < j < s.len() implies less(
            #[trigger] s[i],
            #[trigger] s[j],
        ) by {
            if i < a.len() {
                assert(a.to_set().contains(a[i]));
                if j == a.len() {
                } else if j > a.len() {
                    assert(b.to_set().contains(b[j - a.len() - 1]));
                    assert(less(s[i], v));
                    assert(less(v, s[j]));
                }
            } else if i == a.len() {
                assert(b.to_set().contains(b[j - a.len() - 1]));
            }
        }
        assert(s.to_set() =~= t.values()) by {
            assert forall|x: T| s.to_set().contains(x) <==> t.values().contains(x) by {
                if s.to_set().contains(x) {
                    let k = choose|k: int| 0 <= k < s.len() && s[k] == x;
                    if k < a.len() {
                        assert(a.to_set().contains(a[k]));
                    } else if k > a.len() {
                        assert(b.to_set().contains(b[k - a.len() - 1]));
                    }
                }
                if l.values().contains(x) {
                    let k = choose|k: int| 0 <= k < a.len() && a[k] == x;
                    assert(s[k] == x);
                }
                if r.values().contains(x) {
                    let k = choose|k: int| 0 <= k < b.len() && b[k] == x;
                    assert(s[k + a.len() + 1] == x);
                }
                if x == v {
                    assert(s[a.len() as int] == x);
                }
            }
        }
        assert(s.no_duplicates()) by {
            assert forall|i: int, j: int|
                0 <= i < s.len() && 0 <= j < s.len() && i != j implies s[i]
                != s[j] by {
                if i < j {
                    assert(less(s[i], s[j]));
                } else {
                    assert(less(s[j], s[i]));
                }
                assert(s[i].partial_cmp_spec(&s[j]) != Some(Ordering::Equal));
            }
        }
        s.unique_seq_to_set();
    } else {
        assert(t.in_order().to_set() =~= Set::empty());
    }
}

/// Inserting a value that a balanced search tree already holds leaves it
/// unchanged, so inserting one value any number of times leaves exactly one
/// node holding it.
pub proof fn lemma_duplicate_insert<T: Ord>(t: TreeNode<T>, value: T)
    requires
        is_total_order::<T>(),
        t.is_avl(),
    ensures
        t.inserted(value).inserted(value) == t.inserted(value),
        t.inserted(value).in_order().contains(value),
        forall|i: int, j: int|
            0 <= i < t.inserted(value).in_order().len() && 0 <= j < t.inserted(
                value,
            ).in_order().len() && t.inserted(value).in_order()[i] == value && t.inserted(
                value,
            ).in_order()[j] == value ==> i == j,
{
    let n = t.inserted(value);
    lemma_inserted(t, value);
    lemma_inserted(n, value);
    lemma_in_order_sorted(n);
    assert(n.values().contains(value));
    assert(n.in_order().to_set().contains(value));
    let s = n.in_order();
    assert forall|i: int, j: int|
        0 <= i < s.len() && 0 <= j < s.len() && s[i] == value && s[j] == value implies i == j by {
        if i < j {
            assert(less(s[i], s[j]));
        } else if j < i {
            assert(less(s[j], s[i]));
        }
        assert(value.partial_cmp_spec(&value) == Some(Ordering::Equal));
    }
}

/// Every value orders strictly before every later one.
pub open spec fn strictly_increasing<T: Ord>(s: Seq<T>) -> bool {
    forall|i: int, j: int| 0 <= i < j < s.len() ==> less(#[trigger] s[i], #[trigger] s[j])
}

/// Building a tree from any sequence of values and reading it back in order
/// gives the distinct values of the sequence, strictly increasing, as many
/// as there are distinct values.
pub proof fn lemma_sorted_round_trip<T: Ord>(s: Seq<T>)
    requires
        is_total_order::<T>(),
    ensures
        strictly_increasing(built_from(s).in_order()),
        built_from(s).in_order().to_set() == s.to_set(),
        built_from(s).in_order().len() == s.to_set().len(),
{
    lemma_built_from_is_avl(s);
    lemma_in_order_sorted(built_from(s));
}

} // verus!
