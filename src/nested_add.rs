//! Sums of nested arrays of numbers.
use vstd::prelude::*;

verus! {

/// A value, or an array of further nested arrays.
pub enum NestedArray<T> {
    Value(T),
    Array(Vec<NestedArray<T>>),
}

/// The sum of the first `n` items of `items`, each item counted with
/// everything nested inside it.
pub open spec fn items_total(items: Seq<NestedArray<usize>>, n: int) -> int
    decreases items, n,
{
    if 0 < n <= items.len() {
        items_total(items, n - 1) + item_total(items[n - 1])
    } else {
        0
    }
}

/// A value counts as itself; an array as the sum of its items.
pub open spec fn item_total(item: NestedArray<usize>) -> int
    decreases item, 0int,
{
    match item {
        NestedArray::Value(v) => v as int,
        NestedArray::Array(a) => items_total(a@, a@.len() as int),
    }
}

/// The sum of every value nested anywhere in `items`.
pub open spec fn nested_total(items: Seq<NestedArray<usize>>) -> int {
    items_total(items, items.len() as int)
}

/// Sums of prefixes are never negative.
proof fn lemma_totals_nonnegative(items: Seq<NestedArray<usize>>, n: int)
    ensures
        items_total(items, n) >= 0,
    decreases items, n,
{
    if 0 < n <= items.len() {
        lemma_totals_nonnegative(items, n - 1);
        lemma_item_total_nonnegative(items[n - 1]);
    }
}

/// An item's total is never negative.
proof fn lemma_item_total_nonnegative(item: NestedArray<usize>)
    ensures
        item_total(item) >= 0,
    decreases item, 0int,
{
    if let NestedArray::Array(a) = item {
        lemma_totals_nonnegative(a@, a@.len() as int);
    }
}

/// Adds up every value nested anywhere in `arr`.
pub fn nested_add(arr: &Vec<NestedArray<usize>>) -> (result: usize)
    requires
        nested_total(arr@) <= usize::MAX,
    ensures
        result == nested_total(arr@),
    decreases arr,
{
    let mut result: usize = 0;
    let mut i: usize = 0;
    while i < arr.len()
        invariant
            0 <= i <= arr@.len(),
            nested_total(arr@) <= usize::MAX,
            result == items_total(arr@, i as int),
        decreases arr@.len() - i,
    {
        proof {
            lemma_totals_nonnegative(arr@, i as int);
            lemma_item_total_nonnegative(arr@[i as int]);
            lemma_prefix_total_bounded(arr@, i + 1, arr@.len() as int);
        }
        match &arr[i] {
            NestedArray::Value(v) => {
                result += *v;
            },
            NestedArray::Array(a) => {
                result += nested_add(a);
            },
        }
        i += 1;
    }
    result
}

/// A prefix of the items sums to no more than a longer prefix.
proof fn lemma_prefix_total_bounded(items: Seq<NestedArray<usize>>, m: int, n: int)
    requires
        0 <= m <= n <= items.len(),
    ensures
        items_total(items, m) <= items_total(items, n),
    decreases n - m,
{
    if m < n {
        lemma_prefix_total_bounded(items, m, n - 1);
        lemma_item_total_nonnegative(items[n - 1]);
    }
}

} // verus!
