//! Binary search over a slice of integers.
use vstd::prelude::*;

verus! {

/// The values of `s` never decrease.
pub open spec fn ascending(s: Seq<isize>) -> bool {
    forall|i: int, j: int| 0 <= i < j < s.len() ==> s[i] <= s[j]
}

/// Searches `arr` for `num` by halving the range `min..=max` that may still
/// hold it: the middle value ends the search when equal, and otherwise
/// rules out its own half. A returned index always holds `num`; on a slice
/// in ascending order `None` means that `num` does not occur.
pub fn binary_search(arr: &[isize], num: isize) -> (result: Option<usize>)
    ensures
        result matches Some(i) ==> i < arr@.len() && arr@[i as int] == num,
        ascending(arr@) ==> (result is None <==> !arr@.contains(num)),
{
    if arr.len() == 0 {
        return None;
    }
    let mut min: usize = 0;
    let mut max: usize = arr.len() - 1;
    while min <= max
        invariant
            max < arr@.len(),
            ascending(arr@) ==> forall|k: int|
                0 <= k < arr@.len() && (k < min || k > max) ==> arr@[k] != num,
        decreases max + 1 - min,
    {
        let idx: usize = min + (max - min) / 2;
        let item = arr[idx];
        if item == num {
            return Some(idx);
        } else if item > num {
            if idx == 0 {
                // Nothing lies before the first value.
                return None;
            }
            max = idx - 1;
        } else {
            min = idx + 1;
        }
    }
    None
}

} // verus!
