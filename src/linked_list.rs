//! A singly linked list that tracks its length.
use vstd::prelude::*;

verus! {

struct Node<T> {
    value: T,
    next: Option<Box<Node<T>>>,
}

impl<T> Node<T> {
    /// A node holding `value` with no successor.
    fn new(value: T) -> (r: Self)
        ensures
            r.value == value,
            r.next is None,
    {
        Node { value, next: None }
    }
}

/// The values of the nodes from `t` on, front to back.
spec fn values_from<T>(t: Option<Box<Node<T>>>) -> Seq<T>
    decreases t,
{
    match t {
        None => Seq::empty(),
        Some(n) => seq![n.value] + values_from(n.next),
    }
}

/// Appends a node holding `value` after the last node from `node` on.
fn push_back<T>(node: &mut Option<Box<Node<T>>>, value: T)
    ensures
        values_from(*final(node)) == values_from(*old(node)).push(value),
    decreases *old(node),
{
    match node.take() {
        None => {
            *node = Some(Box::new(Node::new(value)));
            assert(values_from(*node) =~= seq![value] + values_from(None::<Box<Node<T>>>));
        },
        Some(mut boxed) => {
            push_back(&mut boxed.next, value);
            *node = Some(boxed);
            assert(values_from(*node) =~= values_from(*old(node)).push(value));
        },
    }
}

/// Unlinks the last node from `node` on and returns its value.
fn pop_back<T>(node: &mut Option<Box<Node<T>>>) -> (popped: Option<T>)
    ensures
        values_from(*old(node)).len() == 0 ==> popped is None && *final(node) == *old(node),
        values_from(*old(node)).len() > 0 ==> popped == Some(values_from(*old(node)).last())
            && values_from(*final(node)) == values_from(*old(node)).drop_last(),
    decreases *old(node),
{
    match node.take() {
        None => None,
        Some(mut boxed) => {
            if boxed.next.is_none() {
                let last = *boxed;
                assert(values_from(last.next) =~= Seq::<T>::empty());
                Some(last.value)
            } else {
                let popped = pop_back(&mut boxed.next);
                *node = Some(boxed);
                assert(values_from(*node) =~= values_from(*old(node)).drop_last());
                popped
            }
        },
    }
}

/// Unlinks the node at position `index` from `node` on, if there is one.
fn remove_at<T>(node: &mut Option<Box<Node<T>>>, index: usize)
    ensures
        index < values_from(*old(node)).len() ==> values_from(*final(node)) == values_from(
            *old(node),
        ).remove(index as int),
        index >= values_from(*old(node)).len() ==> *final(node) == *old(node),
    decreases *old(node),
{
    match node.take() {
        None => {},
        Some(mut boxed) => {
            if index == 0 {
                *node = boxed.next.take();
                assert(values_from(*node) =~= values_from(*old(node)).remove(0));
            } else {
                remove_at(&mut boxed.next, index - 1);
                *node = Some(boxed);
                assert(index < values_from(*old(node)).len() ==> values_from(*node) =~= values_from(
                    *old(node),
                ).remove(index as int));
            }
        },
    }
}

/// A singly linked list.
pub struct LinkedList<T> {
    head: Option<Box<Node<T>>>,
    length: usize,
}

impl<T> View for LinkedList<T> {
    type V = Seq<T>;

    closed spec fn view(&self) -> Seq<T> {
        values_from(self.head)
    }
}

impl<T> LinkedList<T> {
    /// The stored length is the number of nodes.
    pub closed spec fn wf(&self) -> bool {
        self.length == values_from(self.head).len()
    }

    /// An empty list.
    pub fn new() -> (list: Self)
        ensures
            list.wf(),
            list@ == Seq::<T>::empty(),
    {
        LinkedList { head: None, length: 0 }
    }

    /// The value at position `index`, if the list is that long.
    pub fn get(&self, index: usize) -> (r: Option<&T>)
        requires
            self.wf(),
        ensures
            r == (if index < self@.len() {
                Some(&self@[index as int])
            } else {
                None
            }),
    {
        if index >= self.length {
            return None;
        }
        let mut current = &self.head;
        let mut i: usize = 0;
        while i < index
            invariant
                i <= index < self@.len(),
                values_from(*current) == self@.subrange(i as int, self@.len() as int),
            decreases index - i,
        {
            let node = current.as_ref().unwrap();
            assert(values_from(*current) == seq![node.value] + values_from(node.next));
            assert(values_from(node.next) =~= values_from(*current).drop_first());
            current = &node.next;
            i += 1;
        }
        match current {
            Some(node) => {
                assert(values_from(*current) == seq![node.value] + values_from(node.next));
                assert(values_from(*current)[0] == node.value);
                assert(self@[index as int] == node.value);
                Some(&node.value)
            },
            None => None,
        }
    }

    /// Appends `value` at the back.
    pub fn push(&mut self, value: T)
        requires
            old(self).wf(),
            old(self)@.len() < usize::MAX,
        ensures
            final(self).wf(),
            final(self)@ == old(self)@.push(value),
    {
        push_back(&mut self.head, value);
        self.length += 1;
    }

    /// Removes the last value and returns it; `None` on an empty list.
    pub fn pop(&mut self) -> (popped: Option<T>)
        requires
            old(self).wf(),
        ensures
            final(self).wf(),
            old(self)@.len() == 0 ==> popped is None && final(self)@ == old(self)@,
            old(self)@.len() > 0 ==> popped == Some(old(self)@.last()) && final(self)@ == old(
                self,
            )@.drop_last(),
    {
        if self.length == 0 {
            return None;
        }
        let popped = pop_back(&mut self.head);
        self.length -= 1;
        popped
    }

    /// Removes the value at position `index`; an index past the end leaves
    /// the list unchanged.
    pub fn delete(&mut self, index: usize)
        requires
            old(self).wf(),
        ensures
            final(self).wf(),
            index < old(self)@.len() ==> final(self)@ == old(self)@.remove(index as int),
            index >= old(self)@.len() ==> final(self)@ == old(self)@,
    {
        if index >= self.length {
            return;
        }
        remove_at(&mut self.head, index);
        self.length -= 1;
    }

    /// The values, front to back, each cloned into a new vector.
    pub fn to_vec(&self) -> (r: Vec<T>) where T: Clone
        requires
            self.wf(),
        ensures
            r@.len() == self@.len(),
            forall|i: int| 0 <= i < r@.len() ==> cloned(self@[i], #[trigger] r@[i]),
    {
        let mut current = &self.head;
        let mut result: Vec<T> = Vec::with_capacity(self.length);
        while current.is_some()
            invariant
                result@.len() + values_from(*current).len() == self@.len(),
                values_from(*current) == self@.subrange(result@.len() as int, self@.len() as int),
                forall|i: int| 0 <= i < result@.len() ==> cloned(self@[i], #[trigger] result@[i]),
            decreases values_from(*current).len(),
        {
            let node = current.as_ref().unwrap();
            assert(values_from(*current) == seq![node.value] + values_from(node.next));
            assert(values_from(node.next) =~= values_from(*current).drop_first());
            assert(values_from(*current)[0] == node.value);
            assert(self@[result@.len() as int] == node.value);
            let copy = node.value.clone();
            assert(cloned(node.value, copy));
            result.push(copy);
            current = &node.next;
        }
        result
    }
}

} // verus!
