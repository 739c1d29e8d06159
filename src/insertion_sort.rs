//! Insertion sort in place.
use crate::order::{greater, lemma_greater_asymmetric, lemma_not_greater_transitive, sorted, total_order};
use vstd::prelude::*;

verus! {

broadcast use vstd::seq_lib::group_to_multiset_ensures;

/// Sorts `arr` in place: each value in turn moves left past the greater
/// values before it.
pub fn insertion_sort<T: PartialOrd>(arr: &mut Vec<T>)
    requires
        total_order::<T>(),
    ensures
        final(arr)@.to_multiset() == old(arr)@.to_multiset(),
        sorted(final(arr)@),
{
    let n: usize = arr.len();
    let mut index: usize = 1;
    while index < n
        invariant
            n == arr@.len(),
            total_order::<T>(),
            arr@.to_multiset() == old(arr)@.to_multiset(),
            forall|i: int, j: int|
                0 <= i < j < index && j < n ==> !greater(#[trigger] arr@[i], #[trigger] arr@[j]),
        decreases n - index,
    {
        let mut j: usize = index;
        while j > 0 && arr[j - 1] > arr[j]
            invariant
                n == arr@.len(),
                0 <= j <= index < n,
                total_order::<T>(),
                arr@.to_multiset() == old(arr)@.to_multiset(),
                forall|p: int, q: int|
                    0 <= p < q <= index && p != j && q != j ==> !greater(
                        #[trigger] arr@[p],
                        #[trigger] arr@[q],
                    ),
                forall|q: int| j < q <= index ==> !greater(arr@[j as int], #[trigger] arr@[q]),
            decreases j,
        {
            let ghost before = arr@;
            // Moving the value at `j` in front of its predecessor swaps them.
            let moved = arr.remove(j);
            arr.insert(j - 1, moved);
            proof {
                assert(arr@ =~= before.update(j - 1, before[j as int]).update(
                    j as int,
                    before[j - 1],
                ));
                lemma_greater_asymmetric(before[j - 1], before[j as int]);
            }
            j -= 1;
        }
        proof {
            assert forall|p: int, q: int| 0 <= p < q <= index implies !greater(
                #[trigger] arr@[p],
                #[trigger] arr@[q],
            ) by {
                if q == j && p < j - 1 {
                    lemma_not_greater_transitive(arr@[p], arr@[j - 1], arr@[q]);
                }
            }
        }
        index += 1;
    }
}

} // verus!
