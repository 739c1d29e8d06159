//! Merge sort, and the merge of two sorted slices it is built on.
use crate::order::{greater, less, lemma_not_greater_transitive, sorted, total_order};
use vstd::prelude::*;
use vstd::seq_lib::lemma_multiset_commutative;

verus! {

broadcast use {vstd::seq_lib::group_to_multiset_ensures, vstd::multiset::group_multiset_axioms};

/// Every value of `result` is at most every value of `s` from `from` on.
pub open spec fn all_at_most<T: PartialOrd>(result: Seq<T>, s: Seq<T>, from: int) -> bool {
    forall|k: int, p: int|
        0 <= k < result.len() && from <= p < s.len() ==> !greater(#[trigger] result[k], #[trigger] s[p])
}

/// Merges two slices: repeatedly takes the front value of `left` when it is
/// below the front value of `right`, and the front value of `right`
/// otherwise; then appends what remains. The result holds the values of both
/// slices, and is sorted when both slices are.
pub fn merge<T: PartialOrd + Copy>(left: &[T], right: &[T]) -> (result: Vec<T>)
    requires
        total_order::<T>(),
        left@.len() + right@.len() <= usize::MAX,
    ensures
        result@.to_multiset() == (left@ + right@).to_multiset(),
        sorted(left@) && sorted(right@) ==> sorted(result@),
{
    let mut i: usize = 0;
    let mut j: usize = 0;
    let mut result: Vec<T> = Vec::with_capacity(left.len() + right.len());
    while i < left.len() && j < right.len()
        invariant
            total_order::<T>(),
            0 <= i <= left@.len(),
            0 <= j <= right@.len(),
            result@.to_multiset() == left@.subrange(0, i as int).to_multiset().add(
                right@.subrange(0, j as int).to_multiset(),
            ),
            sorted(left@) && sorted(right@) ==> {
                &&& sorted(result@)
                &&& all_at_most(result@, left@, i as int)
                &&& all_at_most(result@, right@, j as int)
            },
        decreases left@.len() + right@.len() - i - j,
    {
        let ghost before = result@;
        if left[i] < right[j] {
            result.push(left[i]);
            proof {
                assert(left@.subrange(0, i + 1) =~= left@.subrange(0, i as int).push(left@[i as int]));
                if sorted(left@) && sorted(right@) {
                    assert forall|q: int| j <= q < right@.len() implies !greater(
                        left@[i as int],
                        #[trigger] right@[q],
                    ) by {
                        if q > j {
                            lemma_not_greater_transitive(left@[i as int], right@[j as int], right@[q]);
                        }
                    }
                }
            }
            i += 1;
        } else {
            result.push(right[j]);
            proof {
                assert(right@.subrange(0, j + 1) =~= right@.subrange(0, j as int).push(
                    right@[j as int],
                ));
                assert(less(left@[i as int], right@[j as int]) <==> greater(right@[j as int], left@[i as int]));
                if sorted(left@) && sorted(right@) {
                    assert forall|p: int| i <= p < left@.len() implies !greater(
                        right@[j as int],
                        #[trigger] left@[p],
                    ) by {
                        if p > i {
                            lemma_not_greater_transitive(right@[j as int], left@[i as int], left@[p]);
                        }
                    }
                }
            }
            j += 1;
        }
        proof {
            assert(result@.to_multiset() =~= left@.subrange(0, i as int).to_multiset().add(
                right@.subrange(0, j as int).to_multiset(),
            ));
        }
    }
    // At most one of the two slices has values left; they all follow.
    while i < left.len()
        invariant
            total_order::<T>(),
            0 <= i <= left@.len(),
            j == right@.len() || i == left@.len(),
            0 <= j <= right@.len(),
            result@.to_multiset() == left@.subrange(0, i as int).to_multiset().add(
                right@.subrange(0, j as int).to_multiset(),
            ),
            sorted(left@) && sorted(right@) ==> {
                &&& sorted(result@)
                &&& all_at_most(result@, left@, i as int)
                &&& all_at_most(result@, right@, j as int)
            },
        decreases left@.len() - i,
    {
        result.push(left[i]);
        proof {
            assert(left@.subrange(0, i + 1) =~= left@.subrange(0, i as int).push(left@[i as int]));
            assert(result@.to_multiset() =~= left@.subrange(0, i + 1).to_multiset().add(
                right@.subrange(0, j as int).to_multiset(),
            ));
        }
        i += 1;
    }
    while j < right.len()
        invariant
            total_order::<T>(),
            i == left@.len(),
            0 <= j <= right@.len(),
            result@.to_multiset() == left@.subrange(0, i as int).to_multiset().add(
                right@.subrange(0, j as int).to_multiset(),
            ),
            sorted(left@) && sorted(right@) ==> {
                &&& sorted(result@)
                &&& all_at_most(result@, right@, j as int)
            },
        decreases right@.len() - j,
    {
        result.push(right[j]);
        proof {
            assert(right@.subrange(0, j + 1) =~= right@.subrange(0, j as int).push(right@[j as int]));
            assert(result@.to_multiset() =~= left@.subrange(0, i as int).to_multiset().add(
                right@.subrange(0, j + 1).to_multiset(),
            ));
        }
        j += 1;
    }
    proof {
        assert(left@.subrange(0, i as int) =~= left@);
        assert(right@.subrange(0, j as int) =~= right@);
        lemma_multiset_commutative(left@, right@);
    }
    result
}

/// Sorts a slice into a new vector: each half is sorted, then the two are
/// merged.
pub fn merge_sort<T: PartialOrd + Copy>(arr: &[T]) -> (result: Vec<T>)
    requires
        total_order::<T>(),
    ensures
        result@.to_multiset() == arr@.to_multiset(),
        sorted(result@),
    decreases arr@.len(),
{
    if arr.len() <= 1 {
        return vstd::slice::slice_to_vec(arr);
    }
    let mid: usize = arr.len() / 2;
    let left = merge_sort(vstd::slice::slice_subrange(arr, 0, mid));
    let right = merge_sort(vstd::slice::slice_subrange(arr, mid, arr.len()));
    proof {
        left@.to_multiset_ensures();
        right@.to_multiset_ensures();
        arr@.subrange(0, mid as int).to_multiset_ensures();
        arr@.subrange(mid as int, arr@.len() as int).to_multiset_ensures();
        assert(arr@ =~= arr@.subrange(0, mid as int) + arr@.subrange(mid as int, arr@.len() as int));
        lemma_multiset_commutative(arr@.subrange(0, mid as int), arr@.subrange(mid as int, arr@.len() as int));
        lemma_multiset_commutative(left@, right@);
    }
    merge(left.as_slice(), right.as_slice())
}

} // verus!
