//! A self-balancing (AVL) binary search tree.
//!
//! Every node caches the height of its subtree. Insertion descends as in a
//! plain binary search tree (smaller values to the left, equal or greater
//! values to the right) and, on the way back up, refreshes each cached height
//! and repairs any height imbalance with one or two rotations. Rotations move
//! values between the two nodes involved and relink their subtrees in place.
use crate::order::{greater, less, lemma_not_greater_transitive, total_order};
use vstd::multiset::Multiset;
use vstd::prelude::*;

verus! {

broadcast use vstd::multiset::group_multiset_axioms;

/// One node of an AVL tree, owning its two optional subtrees.
pub struct Node<T> {
    pub value: T,
    pub height: usize,
    pub left: Option<Box<Node<T>>>,
    pub right: Option<Box<Node<T>>>,
}

/// The cached height of an optional subtree; an absent subtree counts as 0.
pub open spec fn cached_height<T>(t: Option<Box<Node<T>>>) -> int {
    match t {
        None => 0,
        Some(n) => n.height as int,
    }
}

/// The height a node must cache, given its two subtrees.
pub open spec fn height_from<T>(left: Option<Box<Node<T>>>, right: Option<Box<Node<T>>>) -> int {
    let l = cached_height(left);
    let r = cached_height(right);
    1 + if l >= r { l } else { r }
}

/// The values held by an optional subtree, with their multiplicities.
pub open spec fn values_of<T>(t: Option<Box<Node<T>>>) -> Multiset<T>
    decreases t,
{
    match t {
        None => Multiset::empty(),
        Some(n) => values_of(n.left).add(values_of(n.right)).insert(n.value),
    }
}

/// Every cached height equals one more than the larger cached height of the
/// node's two subtrees.
pub open spec fn heights_cached<T>(t: Option<Box<Node<T>>>) -> bool
    decreases t,
{
    match t {
        None => true,
        Some(n) => {
            &&& n.height == height_from(n.left, n.right)
            &&& heights_cached(n.left)
            &&& heights_cached(n.right)
        },
    }
}

/// At every node the cached heights of the two subtrees differ by at most one.
pub open spec fn balanced<T>(t: Option<Box<Node<T>>>) -> bool
    decreases t,
{
    match t {
        None => true,
        Some(n) => {
            &&& -1 <= cached_height(n.left) - cached_height(n.right) <= 1
            &&& balanced(n.left)
            &&& balanced(n.right)
        },
    }
}

/// At every node, the values of the left subtree are at most the node's value
/// and those of the right subtree at least it. Equal values enter on the
/// right; a rotation may later move a node's equal below it on the left.
pub open spec fn ordered<T: Ord>(t: Option<Box<Node<T>>>) -> bool
    decreases t,
{
    match t {
        None => true,
        Some(n) => {
            &&& forall|x: T| values_of(n.left).contains(x) ==> !greater(x, n.value)
            &&& forall|x: T| values_of(n.right).contains(x) ==> !greater(n.value, x)
            &&& ordered(n.left)
            &&& ordered(n.right)
        },
    }
}

/// At every node, the values of the left subtree are below the node's value
/// and those of the right subtree at least it.
pub open spec fn strictly_ordered<T: Ord>(t: Option<Box<Node<T>>>) -> bool
    decreases t,
{
    match t {
        None => true,
        Some(n) => {
            &&& forall|x: T| values_of(n.left).contains(x) ==> less(x, n.value)
            &&& forall|x: T| values_of(n.right).contains(x) ==> !greater(n.value, x)
            &&& strictly_ordered(n.left)
            &&& strictly_ordered(n.right)
        },
    }
}

/// A well-formed AVL subtree: ordered, with correct cached heights, balanced.
pub open spec fn avl<T: Ord>(t: Option<Box<Node<T>>>) -> bool {
    &&& ordered(t)
    &&& heights_cached(t)
    &&& balanced(t)
}

/// The standard search: go left for a smaller value, right for a greater
/// one, and stop on one that is neither.
pub open spec fn found_by_descent<T: Ord>(t: Option<Box<Node<T>>>, x: T) -> bool
    decreases t,
{
    match t {
        None => false,
        Some(n) => if less(x, n.value) {
            found_by_descent(n.left, x)
        } else if greater(x, n.value) {
            found_by_descent(n.right, x)
        } else {
            true
        },
    }
}

/// No two values of `m` are equal in the order unless they are the same
/// value, and no value occurs twice.
pub open spec fn distinct_in_order<T: Ord>(m: Multiset<T>) -> bool {
    forall|x: T, y: T|
        #![trigger m.count(x), m.count(y)]
        m.contains(x) && m.contains(y) && !less(x, y) && !greater(x, y) ==> x == y && m.count(x)
            == 1
}

/// Every cached height within `depth` levels of the top of the subtree leaves
/// room for two more levels above it without overflowing a `usize`.
pub open spec fn heights_fit<T>(t: Option<Box<Node<T>>>, depth: nat) -> bool
    decreases depth,
{
    match t {
        None => true,
        Some(n) => {
            &&& n.height < usize::MAX - 1
            &&& depth > 0 ==> heights_fit(n.left, (depth - 1) as nat) && heights_fit(
                n.right,
                (depth - 1) as nat,
            )
        },
    }
}

/// Joining two AVL subtrees around a value that lies between them, when their
/// heights differ by at most one, gives an AVL subtree.
proof fn lemma_join<T: Ord>(v: T, l: Option<Box<Node<T>>>, r: Option<Box<Node<T>>>)
    requires
        avl(l),
        avl(r),
        forall|x: T| values_of(l).contains(x) ==> !greater(x, v),
        forall|x: T| values_of(r).contains(x) ==> !greater(v, x),
        -1 <= cached_height(l) - cached_height(r) <= 1,
        height_from(l, r) <= usize::MAX,
    ensures
        avl(Some(Box::new(Node::joined(v, l, r)))),
        values_of(Some(Box::new(Node::joined(v, l, r)))) == values_of(l).add(values_of(r)).insert(
            v,
        ),
        cached_height(Some(Box::new(Node::joined(v, l, r)))) == height_from(l, r),
{
}

/// The values of a node's subtree: its own and those of its two subtrees.
proof fn lemma_values_of_node<T>(n: Node<T>)
    ensures
        values_of(Some(Box::new(n))) == values_of(n.left).add(values_of(n.right)).insert(n.value),
        forall|x: T| values_of(n.left).contains(x) ==> values_of(Some(Box::new(n))).contains(x),
        forall|x: T| values_of(n.right).contains(x) ==> values_of(Some(Box::new(n))).contains(x),
        values_of(Some(Box::new(n))).contains(n.value),
{
}

/// The subtrees of an AVL node are AVL subtrees, and the node satisfies the
/// conditions of `avl` locally.
proof fn lemma_avl_node<T: Ord>(n: Node<T>)
    requires
        avl(Some(Box::new(n))),
    ensures
        avl(n.left),
        avl(n.right),
        n.height == height_from(n.left, n.right),
        -1 <= cached_height(n.left) - cached_height(n.right) <= 1,
        forall|x: T| values_of(n.left).contains(x) ==> !greater(x, n.value),
        forall|x: T| values_of(n.right).contains(x) ==> !greater(n.value, x),
{
}

/// A left-heavy node whose left child leans right: two rotations.
proof fn lemma_rebalance_left_double<T: Ord>(n: Node<T>)
    requires
        total_order::<T>(),
        avl(n.left),
        avl(n.right),
        forall|x: T| values_of(n.left).contains(x) ==> !greater(x, n.value),
        forall|x: T| values_of(n.right).contains(x) ==> !greater(n.value, x),
        n.height == height_from(n.left, n.right),
        heights_fit(n.left, 2),
        heights_fit(n.right, 2),
        cached_height(n.left) - cached_height(n.right) == 2,
        cached_height(n.left.unwrap().right) > cached_height(n.left.unwrap().left),
    ensures
        avl(Some(Box::new(n.rebalanced()))),
        values_of(Some(Box::new(n.rebalanced()))) == values_of(Some(Box::new(n))),
        n.rebalanced().height == n.height - 1,
{
    reveal_with_fuel(heights_fit, 3);
    let l = n.left.unwrap();
    lemma_values_of_node(*l);
    lemma_avl_node(*l);
    let m = l.right.unwrap();
    lemma_values_of_node(*m);
    lemma_avl_node(*m);
    lemma_join(l.value, l.left, m.left);
    lemma_join(n.value, m.right, n.right);
    let a = Some(Box::new(Node::joined(l.value, l.left, m.left)));
    let b = Some(Box::new(Node::joined(n.value, m.right, n.right)));
    assert(values_of(n.left).contains(m.value));
    assert forall|x: T| values_of(b).contains(x) implies !greater(m.value, x) by {
        if values_of(n.right).contains(x) {
            lemma_not_greater_transitive(m.value, n.value, x);
        }
    }
    assert forall|x: T| values_of(a).contains(x) implies !greater(x, m.value) by {
        if values_of(l.left).contains(x) {
            lemma_not_greater_transitive(x, l.value, m.value);
        }
    }
    lemma_join(m.value, a, b);
    assert(values_of(Some(Box::new(n.rebalanced()))) =~= values_of(Some(Box::new(n))));
}

/// A left-heavy node whose left child does not lean right: one rotation.
proof fn lemma_rebalance_left_single<T: Ord>(n: Node<T>)
    requires
        total_order::<T>(),
        avl(n.left),
        avl(n.right),
        forall|x: T| values_of(n.left).contains(x) ==> !greater(x, n.value),
        forall|x: T| values_of(n.right).contains(x) ==> !greater(n.value, x),
        n.height == height_from(n.left, n.right),
        heights_fit(n.left, 2),
        heights_fit(n.right, 2),
        cached_height(n.left) - cached_height(n.right) == 2,
        cached_height(n.left.unwrap().right) <= cached_height(n.left.unwrap().left),
    ensures
        avl(Some(Box::new(n.rebalanced()))),
        values_of(Some(Box::new(n.rebalanced()))) == values_of(Some(Box::new(n))),
        n.rebalanced().height == n.height - 1 || n.rebalanced().height == n.height,
{
    reveal_with_fuel(heights_fit, 3);
    let l = n.left.unwrap();
    lemma_values_of_node(*l);
    lemma_avl_node(*l);
    lemma_join(n.value, l.right, n.right);
    let b = Some(Box::new(Node::joined(n.value, l.right, n.right)));
    assert forall|x: T| values_of(b).contains(x) implies !greater(l.value, x) by {
        if values_of(n.right).contains(x) {
            lemma_not_greater_transitive(l.value, n.value, x);
        }
    }
    lemma_join(l.value, l.left, b);
    assert(values_of(Some(Box::new(n.rebalanced()))) =~= values_of(Some(Box::new(n))));
}

/// A right-heavy node whose right child leans left: two rotations.
proof fn lemma_rebalance_right_double<T: Ord>(n: Node<T>)
    requires
        total_order::<T>(),
        avl(n.left),
        avl(n.right),
        forall|x: T| values_of(n.left).contains(x) ==> !greater(x, n.value),
        forall|x: T| values_of(n.right).contains(x) ==> !greater(n.value, x),
        n.height == height_from(n.left, n.right),
        heights_fit(n.left, 2),
        heights_fit(n.right, 2),
        cached_height(n.right) - cached_height(n.left) == 2,
        cached_height(n.right.unwrap().left) > cached_height(n.right.unwrap().right),
    ensures
        avl(Some(Box::new(n.rebalanced()))),
        values_of(Some(Box::new(n.rebalanced()))) == values_of(Some(Box::new(n))),
        n.rebalanced().height == n.height - 1,
{
    reveal_with_fuel(heights_fit, 3);
    let r = n.right.unwrap();
    lemma_values_of_node(*r);
    lemma_avl_node(*r);
    let m = r.left.unwrap();
    lemma_values_of_node(*m);
    lemma_avl_node(*m);
    lemma_join(n.value, n.left, m.left);
    lemma_join(r.value, m.right, r.right);
    let a = Some(Box::new(Node::joined(n.value, n.left, m.left)));
    let b = Some(Box::new(Node::joined(r.value, m.right, r.right)));
    assert(values_of(n.right).contains(m.value));
    assert forall|x: T| values_of(a).contains(x) implies !greater(x, m.value) by {
        if values_of(n.left).contains(x) {
            lemma_not_greater_transitive(x, n.value, m.value);
        }
    }
    assert forall|x: T| values_of(b).contains(x) implies !greater(m.value, x) by {
        if values_of(r.right).contains(x) {
            lemma_not_greater_transitive(m.value, r.value, x);
        }
    }
    lemma_join(m.value, a, b);
    assert(values_of(Some(Box::new(n.rebalanced()))) =~= values_of(Some(Box::new(n))));
}

/// A right-heavy node whose right child does not lean left: one rotation.
proof fn lemma_rebalance_right_single<T: Ord>(n: Node<T>)
    requires
        total_order::<T>(),
        avl(n.left),
        avl(n.right),
        forall|x: T| values_of(n.left).contains(x) ==> !greater(x, n.value),
        forall|x: T| values_of(n.right).contains(x) ==> !greater(n.value, x),
        n.height == height_from(n.left, n.right),
        heights_fit(n.left, 2),
        heights_fit(n.right, 2),
        cached_height(n.right) - cached_height(n.left) == 2,
        cached_height(n.right.unwrap().left) <= cached_height(n.right.unwrap().right),
    ensures
        avl(Some(Box::new(n.rebalanced()))),
        values_of(Some(Box::new(n.rebalanced()))) == values_of(Some(Box::new(n))),
        n.rebalanced().height == n.height - 1 || n.rebalanced().height == n.height,
{
    reveal_with_fuel(heights_fit, 3);
    let r = n.right.unwrap();
    lemma_values_of_node(*r);
    lemma_avl_node(*r);
    lemma_join(n.value, n.left, r.left);
    let a = Some(Box::new(Node::joined(n.value, n.left, r.left)));
    assert forall|x: T| values_of(a).contains(x) implies !greater(x, r.value) by {
        if values_of(n.left).contains(x) {
            lemma_not_greater_transitive(x, n.value, r.value);
        }
    }
    lemma_join(r.value, a, r.right);
    assert(values_of(Some(Box::new(n.rebalanced()))) =~= values_of(Some(Box::new(n))));
}

/// `rebalanced` repairs a node whose two AVL subtrees differ in height by at
/// most two, keeps its values, and lowers its height by at most one.
proof fn lemma_rebalance<T: Ord>(n: Node<T>)
    requires
        total_order::<T>(),
        avl(n.left),
        avl(n.right),
        forall|x: T| values_of(n.left).contains(x) ==> !greater(x, n.value),
        forall|x: T| values_of(n.right).contains(x) ==> !greater(n.value, x),
        n.height == height_from(n.left, n.right),
        heights_fit(n.left, 2),
        heights_fit(n.right, 2),
        -2 <= cached_height(n.left) - cached_height(n.right) <= 2,
    ensures
        avl(Some(Box::new(n.rebalanced()))),
        values_of(Some(Box::new(n.rebalanced()))) == values_of(Some(Box::new(n))),
        -1 <= cached_height(n.left) - cached_height(n.right) <= 1 ==> n.rebalanced() == n,
        n.rebalanced().height == n.height || n.rebalanced().height == n.height - 1,
{
    let factor = cached_height(n.left) - cached_height(n.right);
    if factor > 1 {
        let l = n.left.unwrap();
        if cached_height(l.right) > cached_height(l.left) {
            lemma_rebalance_left_double(n);
        } else {
            lemma_rebalance_left_single(n);
        }
    } else if factor < -1 {
        let r = n.right.unwrap();
        if cached_height(r.left) > cached_height(r.right) {
            lemma_rebalance_right_double(n);
        } else {
            lemma_rebalance_right_single(n);
        }
    }
}

/// A subtree whose cached heights are correct is no taller than the number of
/// values it holds.
proof fn lemma_height_at_most_size<T>(t: Option<Box<Node<T>>>)
    requires
        heights_cached(t),
    ensures
        cached_height(t) <= values_of(t).len(),
    decreases t,
{
    if let Some(n) = t {
        lemma_height_at_most_size(n.left);
        lemma_height_at_most_size(n.right);
    }
}

/// The cached heights of a subtree with fewer than `usize::MAX - 1` values
/// leave room for two more levels.
proof fn lemma_heights_fit<T>(t: Option<Box<Node<T>>>, depth: nat)
    requires
        heights_cached(t),
        values_of(t).len() < usize::MAX - 1,
    ensures
        heights_fit(t, depth),
    decreases depth,
{
    lemma_height_at_most_size(t);
    if let Some(n) = t {
        if depth > 0 {
            lemma_heights_fit(n.left, (depth - 1) as nat);
            lemma_heights_fit(n.right, (depth - 1) as nat);
        }
    }
}

/// The node that inserting `v` into the subtree `t` yields: a new leaf where
/// the descent ends, then each node on the way back up gets its height
/// recomputed and is rebalanced.
pub open spec fn inserted_into<T: Ord>(t: Option<Box<Node<T>>>, v: T) -> Node<T>
    decreases t,
{
    match t {
        None => Node { value: v, height: 1, left: None, right: None },
        Some(n) => if less(v, n.value) {
            Node::joined(n.value, Some(Box::new(inserted_into(n.left, v))), n.right).rebalanced()
        } else {
            Node::joined(n.value, n.left, Some(Box::new(inserted_into(n.right, v)))).rebalanced()
        },
    }
}

impl<T: Ord> Node<T> {
    /// The node with the given value and subtrees and the height they imply.
    pub open spec fn joined(value: T, left: Option<Box<Node<T>>>, right: Option<Box<Node<T>>>) -> Node<T> {
        Node { value, height: height_from(left, right) as usize, left, right }
    }

    /// The result of the rotation that lifts the left child into this node's
    /// place (the repair for a left-heavy node).
    pub open spec fn rotated_right(self) -> Node<T> {
        let l = self.left.unwrap();
        Node::joined(l.value, l.left, Some(Box::new(Node::joined(self.value, l.right, self.right))))
    }

    /// The result of the rotation that lifts the right child into this node's
    /// place (the repair for a right-heavy node).
    pub open spec fn rotated_left(self) -> Node<T> {
        let r = self.right.unwrap();
        Node::joined(r.value, Some(Box::new(Node::joined(self.value, self.left, r.left))), r.right)
    }

    /// What `balance` makes of this node: unchanged when the heights of its
    /// subtrees differ by at most one; otherwise one rotation towards the
    /// shorter side, preceded by a rotation of the taller child when that
    /// child leans the other way.
    pub open spec fn rebalanced(self) -> Node<T> {
        let factor = cached_height(self.left) - cached_height(self.right);
        if factor > 1 {
            let l = self.left.unwrap();
            if cached_height(l.right) > cached_height(l.left) {
                Node { left: Some(Box::new(l.rotated_left())), ..self }.rotated_right()
            } else {
                self.rotated_right()
            }
        } else if factor < -1 {
            let r = self.right.unwrap();
            if cached_height(r.left) > cached_height(r.right) {
                Node { right: Some(Box::new(r.rotated_right())), ..self }.rotated_left()
            } else {
                self.rotated_left()
            }
        } else {
            self
        }
    }

    /// Creates a node with height 1 and the given subtrees.
    pub fn new(value: T, left: Option<Box<Node<T>>>, right: Option<Box<Node<T>>>) -> (r: Node<T>)
        ensures
            r == (Node { value, height: 1, left, right }),
    {
        Node { value, height: 1, left, right }
    }

    /// Inserts `value` below this node: smaller values go left, equal or
    /// greater ones right. Each node on the path then has its height
    /// recomputed and is rebalanced.
    pub fn add(&mut self, value: T)
        requires
            total_order::<T>(),
            avl(Some(Box::new(*old(self)))),
            values_of(Some(Box::new(*old(self)))).len() < usize::MAX - 1,
        ensures
            *final(self) == inserted_into(Some(Box::new(*old(self))), value),
            avl(Some(Box::new(*final(self)))),
            values_of(Some(Box::new(*final(self)))) == values_of(Some(Box::new(*old(self)))).insert(
                value,
            ),
            final(self).height == old(self).height || final(self).height == old(self).height + 1,
        decreases *old(self),
    {
        let ghost pre = *self;
        proof {
            lemma_avl_node(pre);
        }
        if value < self.value {
            match self.left.take() {
                Some(mut l) => {
                    l.add(value);
                    self.left = Some(l);
                },
                None => {
                    self.left = Some(Box::new(Node::new(value, None, None)));
                },
            }
            assert(values_of(self.left) =~= values_of(pre.left).insert(value));
            assert(*self.left.unwrap() == inserted_into(pre.left, value));
            assert forall|x: T| values_of(self.left).contains(x) implies !greater(x, self.value) by {
                if x != value {
                    assert(values_of(pre.left).contains(x));
                }
            }
        } else {
            match self.right.take() {
                Some(mut r) => {
                    r.add(value);
                    self.right = Some(r);
                },
                None => {
                    self.right = Some(Box::new(Node::new(value, None, None)));
                },
            }
            assert(values_of(self.right) =~= values_of(pre.right).insert(value));
            assert(*self.right.unwrap() == inserted_into(pre.right, value));
            assert forall|x: T| values_of(self.right).contains(x) implies !greater(self.value, x) by {
                if x != value {
                    assert(values_of(pre.right).contains(x));
                }
            }
        }
        proof {
            lemma_heights_fit(self.left, 2);
            lemma_heights_fit(self.right, 2);
            lemma_height_at_most_size(self.left);
            lemma_height_at_most_size(self.right);
        }
        self.update_height();
        proof {
            lemma_rebalance(*self);
            assert(values_of(Some(Box::new(*self))) =~= values_of(Some(Box::new(pre))).insert(value));
        }
        self.balance();
    }

    /// Recomputes this node's cached height from its subtrees.
    fn update_height(&mut self)
        requires
            cached_height(old(self).left) < usize::MAX,
            cached_height(old(self).right) < usize::MAX,
        ensures
            *final(self) == Node::joined(old(self).value, old(self).left, old(self).right),
    {
        let left_height: usize = match &self.left {
            Some(l) => l.height,
            None => 0,
        };
        let right_height: usize = match &self.right {
            Some(r) => r.height,
            None => 0,
        };
        self.height = if left_height >= right_height {
            left_height
        } else {
            right_height
        } + 1;
    }

    /// Recomputes this node's cached height from its subtrees.
    pub fn update_in_new_location(&mut self)
        requires
            cached_height(old(self).left) < usize::MAX,
            cached_height(old(self).right) < usize::MAX,
        ensures
            *final(self) == Node::joined(old(self).value, old(self).left, old(self).right),
    {
        let h: usize = match (&self.left, &self.right) {
            (None, None) => 1,
            (Some(left), None) => left.height + 1,
            (None, Some(right)) => right.height + 1,
            (Some(left), Some(right)) => if left.height >= right.height {
                left.height + 1
            } else {
                right.height + 1
            },
        };
        self.height = h;
    }
    /// Lifts the left child into this node's place: the child's value moves
    /// up, this node's value moves down into the child's node (the two values
    /// are swapped, so nothing is copied or allocated), which becomes
    /// the right child and takes over the child's right subtree and this
    /// node's old right subtree. Both heights are recomputed.
    pub fn rotate_ll(&mut self)
        requires
            old(self).left is Some,
            cached_height(old(self).left.unwrap().left) < usize::MAX,
            height_from(old(self).left.unwrap().right, old(self).right) < usize::MAX,
        ensures
            *final(self) == old(self).rotated_right(),
    {
        let mut lifted = self.left.take().unwrap();
        std::mem::swap(&mut self.value, &mut lifted.value);
        self.left = lifted.left.take();
        lifted.left = lifted.right.take();
        lifted.right = self.right.take();
        lifted.update_in_new_location();
        self.right = Some(lifted);
        self.update_in_new_location();
    }

    /// Lifts the right child into this node's place; the mirror image of
    /// `rotate_ll`.
    pub fn rotate_rr(&mut self)
        requires
            old(self).right is Some,
            cached_height(old(self).right.unwrap().right) < usize::MAX,
            height_from(old(self).left, old(self).right.unwrap().left) < usize::MAX,
        ensures
            *final(self) == old(self).rotated_left(),
    {
        let mut lifted = self.right.take().unwrap();
        std::mem::swap(&mut self.value, &mut lifted.value);
        self.right = lifted.right.take();
        lifted.right = lifted.left.take();
        lifted.left = self.left.take();
        lifted.update_in_new_location();
        self.left = Some(lifted);
        self.update_in_new_location();
    }
    /// Repairs a height imbalance at this node (see `rebalanced`).
    pub fn balance(&mut self)
        requires
            heights_fit(old(self).left, 2),
            heights_fit(old(self).right, 2),
        ensures
            *final(self) == old(self).rebalanced(),
            -1 <= cached_height(old(self).left) - cached_height(old(self).right) <= 1
                ==> *final(self) == *old(self),
    {
        proof {
            reveal_with_fuel(heights_fit, 3);
        }
        let left_height: usize = match &self.left {
            Some(l) => l.height,
            None => 0,
        };
        let right_height: usize = match &self.right {
            Some(r) => r.height,
            None => 0,
        };
        if left_height > right_height && left_height - right_height > 1 {
            let mut l = self.left.take().unwrap();
            let left_left_height: usize = match &l.left {
                Some(ll) => ll.height,
                None => 0,
            };
            let left_right_height: usize = match &l.right {
                Some(lr) => lr.height,
                None => 0,
            };
            if left_right_height > left_left_height {
                l.rotate_rr();
            }
            self.left = Some(l);
            self.rotate_ll();
        } else if right_height > left_height && right_height - left_height > 1 {
            let mut r = self.right.take().unwrap();
            let right_right_height: usize = match &r.right {
                Some(rr) => rr.height,
                None => 0,
            };
            let right_left_height: usize = match &r.left {
                Some(rl) => rl.height,
                None => 0,
            };
            if right_left_height > right_right_height {
                r.rotate_ll();
            }
            self.right = Some(r);
            self.rotate_rr();
        }
    }
}

/// The subtree built by inserting the values of `s` one after another into an
/// empty tree.
pub open spec fn built_from<T: Ord>(s: Seq<T>) -> Option<Box<Node<T>>>
    decreases s.len(),
{
    if s.len() == 0 {
        None
    } else {
        Some(Box::new(inserted_into(built_from(s.drop_last()), s.last())))
    }
}

/// In an ordered subtree the standard search finds every value that the
/// subtree holds.
pub proof fn lemma_descent_finds_values<T: Ord>(t: Option<Box<Node<T>>>)
    requires
        total_order::<T>(),
        ordered(t),
    ensures
        forall|x: T| values_of(t).contains(x) ==> found_by_descent(t, x),
    decreases t,
{
    if let Some(n) = t {
        lemma_descent_finds_values(n.left);
        lemma_descent_finds_values(n.right);
        lemma_values_of_node(*n);
        assert forall|x: T| values_of(t).contains(x) implies found_by_descent(t, x) by {
            assert(found_by_descent(t, x) == if less(x, n.value) {
                found_by_descent(n.left, x)
            } else if greater(x, n.value) {
                found_by_descent(n.right, x)
            } else {
                true
            });
            assert(less(n.value, n.value) <==> greater(n.value, n.value));
            assert(less(x, n.value) <==> greater(n.value, x));
            assert(less(n.value, x) <==> greater(x, n.value));
            if less(x, n.value) {
                assert(!values_of(n.right).contains(x));
                assert(x != n.value);
            } else if greater(x, n.value) {
                assert(!values_of(n.left).contains(x));
                assert(x != n.value);
            }
        }
    }
}

/// An ordered subtree whose values are distinct in the order is strictly
/// ordered: a value that is not below a node's value and not above it can
/// then only be the node's own.
pub proof fn lemma_distinct_values_strictly_ordered<T: Ord>(t: Option<Box<Node<T>>>)
    requires
        total_order::<T>(),
        ordered(t),
        distinct_in_order(values_of(t)),
    ensures
        strictly_ordered(t),
    decreases t,
{
    if let Some(n) = t {
        lemma_values_of_node(*n);
        let whole = values_of(t);
        assert forall|x: T| #[trigger] values_of(n.left).count(x) <= whole.count(x) by {}
        assert forall|x: T| #[trigger] values_of(n.right).count(x) <= whole.count(x) by {}
        assert(distinct_in_order(values_of(n.left)));
        assert(distinct_in_order(values_of(n.right)));
        assert forall|x: T| values_of(n.left).contains(x) implies less(x, n.value) by {
            assert(whole.count(x) >= 1);
            assert(whole.count(n.value) >= 1);
            if !less(x, n.value) {
                assert(x == n.value);
                assert(whole.count(x) >= 2);
            }
        }
        lemma_distinct_values_strictly_ordered(n.left);
        lemma_distinct_values_strictly_ordered(n.right);
    }
}

/// An AVL tree; empty when `root` is absent.
pub struct AVLTree<T> {
    pub root: Option<Box<Node<T>>>,
}

impl<T> View for AVLTree<T> {
    type V = Multiset<T>;

    /// The values the tree holds, each as many times as it was added.
    open spec fn view(&self) -> Multiset<T> {
        values_of(self.root)
    }
}

impl<T: Ord> AVLTree<T> {
    /// The tree is ordered, its cached heights are correct and every node is
    /// balanced.
    pub open spec fn wf(&self) -> bool {
        avl(self.root)
    }

    /// Builds a tree by adding the values one after another.
    pub fn new(values: Vec<T>) -> (tree: Self)
        requires
            total_order::<T>(),
            values@.len() < usize::MAX - 1,
        ensures
            tree.wf(),
            tree@ == values@.to_multiset(),
            tree.root == built_from(values@),
    {
        let ghost all = values@;
        let mut tree = AVLTree { root: None };
        proof {
            all.subrange(0, 0).to_multiset_ensures();
            assert(tree@ =~= all.subrange(0, 0).to_multiset());
        }
        for value in iter: values
            invariant
                total_order::<T>(),
                iter.seq() == all,
                all.len() < usize::MAX - 1,
                tree.wf(),
                tree@ == all.subrange(0, iter.index() as int).to_multiset(),
                tree.root == built_from(all.subrange(0, iter.index() as int)),
        {
            let ghost prefix = all.subrange(0, iter.index() as int);
            proof {
                prefix.to_multiset_ensures();
                assert(value == all[iter.index() as int]);
            }
            tree.add(value);
            proof {
                let next = all.subrange(0, iter.index() + 1);
                assert(next.drop_last() =~= prefix);
                assert(next =~= prefix.push(value));
            }
        }
        assert(all.subrange(0, all.len() as int) =~= all);
        tree
    }

    /// Adds one value; an equal value already present does not stop it.
    pub fn add(&mut self, value: T)
        requires
            total_order::<T>(),
            old(self).wf(),
            old(self)@.len() < usize::MAX - 1,
        ensures
            final(self).wf(),
            final(self)@ == old(self)@.insert(value),
            final(self).root == Some(Box::new(inserted_into(old(self).root, value))),
    {
        match self.root.take() {
            Some(mut node) => {
                node.add(value);
                self.root = Some(node);
            },
            None => {
                self.root = Some(Box::new(Node::new(value, None, None)));
                assert(self@ =~= Multiset::<T>::empty().insert(value));
            },
        }
    }
}

/// Membership: after `add(v)`, the standard search from the root finds `v`
/// and every value the tree held before.
pub proof fn law_added_values_are_found<T: Ord>(before: AVLTree<T>, after: AVLTree<T>, v: T)
    requires
        total_order::<T>(),
        after.wf(),
        after@ == before@.insert(v),
    ensures
        found_by_descent(after.root, v),
        forall|x: T| before@.contains(x) ==> found_by_descent(after.root, x),
{
    lemma_descent_finds_values(after.root);
}

/// Membership: in a tree built by `new`, the standard search from the root
/// finds every value that was passed in.
pub proof fn law_built_values_are_found<T: Ord>(values: Seq<T>, tree: AVLTree<T>)
    requires
        total_order::<T>(),
        tree.wf(),
        tree@ == values.to_multiset(),
    ensures
        forall|i: int| 0 <= i < values.len() ==> found_by_descent(tree.root, #[trigger] values[i]),
{
    lemma_descent_finds_values(tree.root);
    values.to_multiset_ensures();
    assert forall|i: int| 0 <= i < values.len() implies found_by_descent(
        tree.root,
        #[trigger] values[i],
    ) by {
        assert(values.contains(values[i]));
    }
}

/// Order: when no two values added are equal in the order, every
/// left-descendant value is below its ancestor's value and every
/// right-descendant value at least it.
pub proof fn law_strict_order_without_duplicates<T: Ord>(tree: AVLTree<T>)
    requires
        total_order::<T>(),
        tree.wf(),
        distinct_in_order(tree@),
    ensures
        strictly_ordered(tree.root),
{
    lemma_distinct_values_strictly_ordered(tree.root);
}

} // verus!
