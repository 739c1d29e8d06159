//! An unbalanced binary search tree that keeps one value of each kind.
use crate::order::{greater, less, lemma_not_greater_transitive, total_order};
use vstd::prelude::*;

verus! {

/// One node of the tree, owning its two optional subtrees.
pub struct Node<T> {
    pub value: T,
    pub left: Option<Box<Node<T>>>,
    pub right: Option<Box<Node<T>>>,
}

/// The values held by an optional subtree.
pub open spec fn values_of<T>(t: Option<Box<Node<T>>>) -> Set<T>
    decreases t,
{
    match t {
        None => Set::empty(),
        Some(n) => values_of(n.left).union(values_of(n.right)).insert(n.value),
    }
}

/// At every node, the values of the left subtree are below the node's value
/// and those of the right subtree above it.
pub open spec fn ordered<T: PartialOrd>(t: Option<Box<Node<T>>>) -> bool
    decreases t,
{
    match t {
        None => true,
        Some(n) => {
            &&& forall|x: T| values_of(n.left).contains(x) ==> less(x, n.value)
            &&& forall|x: T| values_of(n.right).contains(x) ==> greater(x, n.value)
            &&& ordered(n.left)
            &&& ordered(n.right)
        },
    }
}

/// `s` holds a value that is neither below `v` nor above it.
pub open spec fn holds_equal<T: PartialOrd>(s: Set<T>, v: T) -> bool {
    exists|y: T| s.contains(y) && !less(v, y) && !greater(v, y)
}

/// The subtree that adding `v` to `t` yields: a new leaf where the descent
/// from the root ends, or `t` itself when the descent meets an equal value.
pub open spec fn inserted_into<T: PartialOrd>(t: Option<Box<Node<T>>>, v: T) -> Option<Box<Node<T>>>
    decreases t,
{
    match t {
        None => Some(Box::new(Node { value: v, left: None, right: None })),
        Some(n) => if less(v, n.value) {
            Some(Box::new(Node { left: inserted_into(n.left, v), ..*n }))
        } else if greater(v, n.value) {
            Some(Box::new(Node { right: inserted_into(n.right, v), ..*n }))
        } else {
            t
        },
    }
}

/// The subtree built by adding the values of `s` one after another to an
/// empty tree.
pub open spec fn built_from<T: PartialOrd>(s: Seq<T>) -> Option<Box<Node<T>>>
    decreases s.len(),
{
    if s.len() == 0 {
        None
    } else {
        inserted_into(built_from(s.drop_last()), s.last())
    }
}

/// Below a node, a value smaller than the node's value has its equals, if
/// any, on the left; a greater one on the right.
proof fn lemma_equal_on_its_side<T: PartialOrd>(n: Node<T>, v: T)
    requires
        total_order::<T>(),
        ordered(Some(Box::new(n))),
    ensures
        less(v, n.value) ==> (holds_equal(values_of(Some(Box::new(n))), v) <==> holds_equal(
            values_of(n.left),
            v,
        )),
        greater(v, n.value) ==> (holds_equal(values_of(Some(Box::new(n))), v) <==> holds_equal(
            values_of(n.right),
            v,
        )),
        !less(v, n.value) && !greater(v, n.value) ==> holds_equal(values_of(Some(Box::new(n))), v),
{
    let all = values_of(Some(Box::new(n)));
    assert(less(v, n.value) <==> greater(n.value, v));
    assert(less(n.value, v) <==> greater(v, n.value));
    if less(v, n.value) && holds_equal(all, v) {
        let y = choose|y: T| all.contains(y) && !less(v, y) && !greater(v, y);
        assert(less(v, y) <==> greater(y, v));
        if values_of(n.right).contains(y) {
            lemma_not_greater_transitive(y, v, n.value);
        }
        assert(y != n.value);
        assert(values_of(n.left).contains(y));
    }
    if greater(v, n.value) && holds_equal(all, v) {
        let y = choose|y: T| all.contains(y) && !less(v, y) && !greater(v, y);
        assert(less(y, n.value) <==> greater(n.value, y));
        if values_of(n.left).contains(y) {
            lemma_not_greater_transitive(v, y, n.value);
        }
        assert(y != n.value);
        assert(values_of(n.right).contains(y));
    }
    if !less(v, n.value) && !greater(v, n.value) {
        assert(all.contains(n.value));
    }
}

impl<T: Ord> Node<T> {
    /// A leaf holding `value`.
    fn new(value: T) -> (r: Node<T>)
        ensures
            r == (Node { value, left: None, right: None }),
    {
        Node { value, left: None, right: None }
    }
}

/// Adds `value` where the descent from `node` ends, unless the descent meets
/// an equal value.
fn insert_into<T: Ord>(node: &mut Option<Box<Node<T>>>, value: T)
    requires
        total_order::<T>(),
        ordered(*old(node)),
    ensures
        *final(node) == inserted_into(*old(node), value),
        ordered(*final(node)),
        values_of(*final(node)) == if holds_equal(values_of(*old(node)), value) {
            values_of(*old(node))
        } else {
            values_of(*old(node)).insert(value)
        },
    decreases *old(node),
{
    match node.take() {
        None => {
            *node = Some(Box::new(Node::new(value)));
            assert(values_of(None::<Box<Node<T>>>) =~= Set::<T>::empty());
            assert(values_of(*node) =~= Set::<T>::empty().insert(value));
        },
        Some(mut boxed) => {
            let ghost pre = *boxed;
            proof {
                lemma_equal_on_its_side(pre, value);
                assert(less(value, pre.value) ==> !greater(value, pre.value));
            }
            if value < boxed.value {
                insert_into(&mut boxed.left, value);
                assert(values_of(Some(boxed)) =~= if holds_equal(values_of(pre.left), value) {
                    values_of(Some(Box::new(pre)))
                } else {
                    values_of(Some(Box::new(pre))).insert(value)
                });
            } else if value > boxed.value {
                insert_into(&mut boxed.right, value);
                assert(values_of(Some(boxed)) =~= if holds_equal(values_of(pre.right), value) {
                    values_of(Some(Box::new(pre)))
                } else {
                    values_of(Some(Box::new(pre))).insert(value)
                });
            }
            *node = Some(boxed);
        },
    }
}

/// A binary search tree; empty when `root` is absent.
pub struct BinarySearchTree<T> {
    pub root: Option<Box<Node<T>>>,
}

impl<T> View for BinarySearchTree<T> {
    type V = Set<T>;

    open spec fn view(&self) -> Set<T> {
        values_of(self.root)
    }
}

impl<T: Ord> BinarySearchTree<T> {
    /// The tree is ordered.
    pub open spec fn wf(&self) -> bool {
        ordered(self.root)
    }

    /// Builds a tree by adding the values one after another; a value equal
    /// to one already added is left out.
    pub fn new(values: Vec<T>) -> (tree: Self)
        requires
            total_order::<T>(),
        ensures
            tree.wf(),
            tree.root == built_from(values@),
            forall|i: int| 0 <= i < values@.len() ==> holds_equal(tree@, #[trigger] values@[i]),
            forall|x: T| tree@.contains(x) ==> values@.contains(x),
    {
        let ghost all = values@;
        let mut result = BinarySearchTree { root: None };
        for value in iter: values
            invariant
                total_order::<T>(),
                iter.seq() == all,
                result.wf(),
                result.root == built_from(all.subrange(0, iter.index() as int)),
                forall|i: int| 0 <= i < iter.index() ==> holds_equal(result@, #[trigger] all[i]),
                forall|x: T| result@.contains(x) ==> all.subrange(0, iter.index() as int).contains(x),
        {
            let ghost prefix = all.subrange(0, iter.index() as int);
            let ghost before = result@;
            proof {
                assert(value == all[iter.index() as int]);
            }
            result.add(value);
            proof {
                let next = all.subrange(0, iter.index() + 1);
                assert(next.drop_last() =~= prefix);
                assert forall|i: int| 0 <= i < iter.index() + 1 implies holds_equal(
                    result@,
                    #[trigger] all[i],
                ) by {
                    if i < iter.index() {
                        let y = choose|y: T| before.contains(y) && !less(all[i], y) && !greater(all[i], y);
                        assert(result@.contains(y));
                    } else if !holds_equal(before, value) {
                        assert(result@.contains(value));
                        assert(less(value, value) <==> greater(value, value));
                    }
                }
                assert forall|x: T| result@.contains(x) implies next.contains(x) by {
                    if before.contains(x) {
                        let k = choose|k: int| 0 <= k < prefix.len() && prefix[k] == x;
                        assert(next[k] == x);
                    } else {
                        assert(next[prefix.len() as int] == x);
                    }
                }
            }
        }
        assert(all.subrange(0, all.len() as int) =~= all);
        result
    }

    /// Adds `value` as a new leaf where the descent from the root ends; a
    /// value equal to one already present leaves the tree unchanged.
    pub fn add(&mut self, value: T)
        requires
            total_order::<T>(),
            old(self).wf(),
        ensures
            final(self).wf(),
            final(self).root == inserted_into(old(self).root, value),
            final(self)@ == if holds_equal(old(self)@, value) {
                old(self)@
            } else {
                old(self)@.insert(value)
            },
    {
        insert_into(&mut self.root, value);
    }

    /// Reports whether the tree holds a value equal to `value`, descending
    /// from the root.
    pub fn find(&self, value: &T) -> (found: bool)
        requires
            total_order::<T>(),
            self.wf(),
        ensures
            found == holds_equal(self@, *value),
    {
        let mut current = &self.root;
        while current.is_some()
            invariant
                total_order::<T>(),
                ordered(*current),
                holds_equal(self@, *value) <==> holds_equal(values_of(*current), *value),
            decreases *current,
        {
            let node = current.as_ref().unwrap();
            proof {
                lemma_equal_on_its_side(**node, *value);
            }
            if *value < node.value {
                current = &node.left;
            } else if *value > node.value {
                current = &node.right;
            } else {
                return true;
            }
        }
        false
    }
}

} // verus!
