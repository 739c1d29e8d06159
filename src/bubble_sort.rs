//! Bubble sort in place.
use crate::order::{
    greater, lemma_greater_asymmetric, lemma_not_greater_reflexive, lemma_not_greater_transitive,
    sorted, total_order,
};
use vstd::prelude::*;

verus! {

broadcast use vstd::seq_lib::group_to_multiset_ensures;

/// Sorts `arr` in place by repeated passes that swap adjacent values out of
/// order, each pass one shorter than the last, until a pass swaps nothing.
pub fn bubble_sort<T: PartialOrd>(arr: &mut Vec<T>)
    requires
        total_order::<T>(),
    ensures
        final(arr)@.to_multiset() == old(arr)@.to_multiset(),
        sorted(final(arr)@),
{
    if arr.is_empty() {
        return;
    }
    let mut len: usize = arr.len();
    loop
        invariant_except_break
            1 <= len <= arr@.len(),
            forall|i: int, j: int|
                0 <= i < j < arr@.len() && len <= j ==> !greater(#[trigger] arr@[i], #[trigger] arr@[j]),
        invariant
            total_order::<T>(),
            arr@.to_multiset() == old(arr)@.to_multiset(),
        ensures
            sorted(arr@),
        decreases len,
    {
        let mut has_swapped = false;
        let mut index: usize = 0;
        proof {
            lemma_not_greater_reflexive(arr@[0]);
        }
        while index < len - 1
            invariant
                1 <= len <= arr@.len(),
                0 <= index <= len - 1,
                total_order::<T>(),
                arr@.to_multiset() == old(arr)@.to_multiset(),
                forall|i: int, j: int|
                    0 <= i < j < arr@.len() && len <= j ==> !greater(#[trigger] arr@[i], #[trigger] arr@[j]),
                forall|k: int| 0 <= k <= index ==> !greater(#[trigger] arr@[k], arr@[index as int]),
                has_swapped ==> len >= 2,
                !has_swapped ==> forall|i: int, j: int|
                    0 <= i < j <= index ==> !greater(#[trigger] arr@[i], #[trigger] arr@[j]),
            decreases len - 1 - index,
        {
            let ghost before = arr@;
            if arr[index] > arr[index + 1] {
                // Moving the later value in front of the earlier one swaps them.
                let later = arr.remove(index + 1);
                arr.insert(index, later);
                proof {
                    assert(arr@ =~= before.update(index as int, before[index + 1]).update(
                        index + 1,
                        before[index as int],
                    ));
                    assert forall|k: int| 0 <= k <= index + 1 implies !greater(
                        #[trigger] arr@[k],
                        arr@[index + 1],
                    ) by {
                        if k < index {
                            assert(!greater(before[k], before[index as int]));
                        }
                        if k == index {
                            lemma_greater_asymmetric(before[index as int], before[index + 1]);
                        }
                        if k == index + 1 {
                            lemma_not_greater_reflexive(arr@[k]);
                        }
                    }
                }
                has_swapped = true;
            } else {
                proof {
                    assert forall|k: int| 0 <= k <= index + 1 implies !greater(
                        #[trigger] arr@[k],
                        arr@[index + 1],
                    ) by {
                        if k < index {
                            lemma_not_greater_transitive(arr@[k], arr@[index as int], arr@[index + 1]);
                        }
                        if k == index + 1 {
                            lemma_not_greater_reflexive(arr@[k]);
                        }
                    }
                    if !has_swapped {
                        assert forall|i: int, j: int| 0 <= i < j <= index + 1 implies !greater(
                            #[trigger] arr@[i],
                            #[trigger] arr@[j],
                        ) by {
                            if j == index + 1 && i < index {
                                lemma_not_greater_transitive(arr@[i], arr@[index as int], arr@[j]);
                            }
                        }
                    }
                }
            }
            index += 1;
        }
        if !has_swapped {
            break;
        }
        len -= 1;
    }
}

} // verus!
