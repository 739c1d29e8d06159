use algorithms_exercises::bubble_sort::bubble_sort;

#[test]
fn test_bubble_sort() {
    let mut nums1: Vec<usize> = Vec::new();
    let mut nums2 = Vec::from([10, 5, 3, 8, 2, 6, 4, 7, 9, 1]);
    let mut nums3 = Vec::from([5, 4, 3, 2, 1]);
    let mut chars = Vec::from(['g', 'd', 'a', 'b', 'f']);

    bubble_sort(&mut nums1);
    bubble_sort(&mut nums2);
    bubble_sort(&mut nums3);
    bubble_sort(&mut chars);

    assert_eq!(nums1, Vec::new());
    assert_eq!(nums2, Vec::from([1, 2, 3, 4, 5, 6, 7, 8, 9, 10]));
    assert_eq!(nums3, Vec::from([1, 2, 3, 4, 5]));
    assert_eq!(chars, Vec::from(['a', 'b', 'd', 'f', 'g']));
}

#[test]
fn bubble_sort_keeps_duplicates() {
    let mut nums = Vec::from([3, 1, 3, 2, 1]);
    bubble_sort(&mut nums);
    assert_eq!(nums, Vec::from([1, 1, 2, 3, 3]));
    let mut sorted = Vec::from([1, 2, 3]);
    bubble_sort(&mut sorted);
    assert_eq!(sorted, Vec::from([1, 2, 3]));
}
