use algorithms_exercises::quick_sort::quick_sort;

#[test]
fn test_quick_sort() {
    assert_eq!(quick_sort(&Vec::from([1])), [1]);
    assert_eq!(quick_sort(&Vec::from([3, 2, 1])), [1, 2, 3]);
    assert_eq!(
        quick_sort(&Vec::from([1, 5, 7, 4, 6, 2, 3, 6])),
        [1, 2, 3, 4, 5, 6, 6, 7]
    );
}

#[test]
fn quick_sort_edges() {
    let empty: Vec<i32> = Vec::new();
    assert_eq!(quick_sort(&empty), empty);
    assert_eq!(quick_sort(&Vec::from([2, 2, 2])), [2, 2, 2]);
    assert_eq!(quick_sort(&Vec::from([1, 2, 3, 4])), [1, 2, 3, 4]);
    assert_eq!(quick_sort(&Vec::from(['z', 'a'])), ['a', 'z']);
}
