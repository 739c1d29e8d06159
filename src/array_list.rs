//! A growable list of numbers kept in a hash map from position to value.
use std::collections::HashMap;
use vstd::prelude::*;

verus! {

broadcast use vstd::std_specs::hash::group_hash_axioms;

/// A list whose value at position `i` is stored under key `i`.
pub struct ArrayList {
    data: HashMap<usize, usize>,
    length: usize,
}

impl View for ArrayList {
    type V = Seq<usize>;

    closed spec fn view(&self) -> Seq<usize> {
        Seq::new(self.length as nat, |i: int| self.data@[i as usize])
    }
}

impl ArrayList {
    /// The keys of the map are exactly the positions below the length.
    pub closed spec fn wf(&self) -> bool {
        forall|k: usize| #[trigger] self.data@.contains_key(k) <==> k < self.length
    }

    /// An empty list.
    pub fn new() -> (list: Self)
        ensures
            list.wf(),
            list@ == Seq::<usize>::empty(),
    {
        let list = ArrayList { data: HashMap::new(), length: 0 };
        assert(list@ =~= Seq::<usize>::empty());
        list
    }

    /// Appends `value` at the back.
    pub fn push(&mut self, value: usize)
        requires
            old(self).wf(),
            old(self)@.len() < usize::MAX,
        ensures
            final(self).wf(),
            final(self)@ == old(self)@.push(value),
    {
        self.data.insert(self.length, value);
        self.length += 1;
        assert(self@ =~= old(self)@.push(value));
    }

    /// Removes the last value and returns it; `None` on an empty list.
    pub fn pop(&mut self) -> (popped: Option<usize>)
        requires
            old(self).wf(),
        ensures
            final(self).wf(),
            old(self)@.len() == 0 ==> popped is None && final(self)@ == old(self)@,
            old(self)@.len() > 0 ==> popped == Some(old(self)@.last()) && final(self)@ == old(
                self,
            )@.drop_last(),
    {
        if self.length == 0 {
            return None;
        }
        let popped = self.delete(self.length - 1);
        assert(old(self)@.remove(old(self)@.len() - 1) =~= old(self)@.drop_last());
        popped
    }

    /// The value at position `index`, if the list is that long.
    pub fn get(&mut self, index: usize) -> (r: Option<&usize>)
        requires
            old(self).wf(),
        ensures
            *final(self) == *old(self),
            r == (if index < old(self)@.len() {
                Some(&old(self)@[index as int])
            } else {
                None
            }),
    {
        self.data.get(&index)
    }

    /// Removes the value at position `index` and returns it, moving each
    /// later value one position forward. An index past the end leaves the
    /// list unchanged and returns `None`.
    pub fn delete(&mut self, index: usize) -> (removed: Option<usize>)
        requires
            old(self).wf(),
        ensures
            final(self).wf(),
            index < old(self)@.len() ==> removed == Some(old(self)@[index as int]) && final(self)@
                == old(self)@.remove(index as int),
            index >= old(self)@.len() ==> removed is None && final(self)@ == old(self)@,
    {
        if index >= self.length {
            return None;
        }
        let value: usize = *self.data.get(&index).unwrap();
        let ghost before = self.data@;
        let mut k: usize = index + 1;
        while k < self.length
            invariant
                index < k <= self.length,
                self.length == old(self).length,
                forall|j: usize| #[trigger] self.data@.contains_key(j) <==> j < self.length,
                forall|j: usize| j < index ==> #[trigger] self.data@[j] == before[j],
                forall|j: usize| index <= j < k - 1 ==> #[trigger] self.data@[j] == before[(j + 1) as usize],
                forall|j: usize| k - 1 <= j < self.length ==> #[trigger] self.data@[j] == before[j],
            decreases self.length - k,
        {
            let next: usize = *self.data.get(&k).unwrap();
            self.data.insert(k - 1, next);
            k += 1;
        }
        self.data.remove(&(self.length - 1));
        self.length -= 1;
        assert(self@ =~= old(self)@.remove(index as int));
        Some(value)
    }
}

} // verus!
