//! Quick sort into a new vector, with the last value as pivot.
use crate::order::{greater, less, lemma_not_greater_transitive, sorted, total_order};
use vstd::prelude::*;
use vstd::seq_lib::lemma_multiset_commutative;

verus! {

broadcast use {vstd::seq_lib::group_to_multiset_ensures, vstd::multiset::group_multiset_axioms};

/// Sorts a slice into a new vector: the values before the last one are split
/// into those below it and the rest, each part is sorted, and the last value
/// goes between them.
pub fn quick_sort<T: PartialOrd + Copy>(arr: &[T]) -> (result: Vec<T>)
    requires
        total_order::<T>(),
    ensures
        result@.to_multiset() == arr@.to_multiset(),
        sorted(result@),
    decreases arr@.len(),
{
    if arr.len() <= 1 {
        return vstd::slice::slice_to_vec(arr);
    }
    let last: usize = arr.len() - 1;
    let pivot = arr[last];
    let mut left: Vec<T> = Vec::new();
    let mut right: Vec<T> = Vec::new();
    let mut i: usize = 0;
    while i < last
        invariant
            total_order::<T>(),
            last == arr@.len() - 1,
            pivot == arr@[last as int],
            0 <= i <= last,
            left@.len() + right@.len() == i,
            left@.to_multiset().add(right@.to_multiset()) == arr@.subrange(0, i as int).to_multiset(),
            forall|k: int| 0 <= k < left@.len() ==> less(#[trigger] left@[k], pivot),
            forall|k: int| 0 <= k < right@.len() ==> !less(#[trigger] right@[k], pivot),
        decreases last - i,
    {
        if arr[i] < pivot {
            left.push(arr[i]);
        } else {
            right.push(arr[i]);
        }
        proof {
            assert(arr@.subrange(0, i + 1) =~= arr@.subrange(0, i as int).push(arr@[i as int]));
        }
        i += 1;
    }
    let mut result = quick_sort(left.as_slice());
    let ghost lower = result@;
    result.push(pivot);
    let mut upper = quick_sort(right.as_slice());
    let ghost higher = upper@;
    result.append(&mut upper);
    proof {
        assert(result@ =~= lower.push(pivot) + higher);
        lemma_multiset_commutative(lower.push(pivot), higher);
        assert(arr@.subrange(0, last as int) =~= arr@.drop_last());
        assert(arr@ =~= arr@.drop_last().push(pivot));
        assert(result@.to_multiset() =~= arr@.to_multiset());
        assert forall|k: int| 0 <= k < lower.len() implies !greater(#[trigger] lower[k], pivot) by {
            assert(lower.to_multiset().count(lower[k]) > 0);
            assert(left@.contains(lower[k]));
        }
        assert forall|k: int| 0 <= k < higher.len() implies !greater(pivot, #[trigger] higher[k]) by {
            assert(higher.to_multiset().count(higher[k]) > 0);
            assert(right@.contains(higher[k]));
            assert(less(higher[k], pivot) <==> greater(pivot, higher[k]));
        }
        assert forall|a: int, b: int| 0 <= a < b < result@.len() implies !greater(
            #[trigger] result@[a],
            #[trigger] result@[b],
        ) by {
            let n = lower.len() as int;
            if a < n && b == n {
            } else if a < n && b > n {
                lemma_not_greater_transitive(lower[a], pivot, higher[b - n - 1]);
            } else if a == n && b > n {
            } else if a > n {
                assert(result@[a] == higher[a - n - 1]);
                assert(result@[b] == higher[b - n - 1]);
            }
        }
    }
    result
}

} // verus!
