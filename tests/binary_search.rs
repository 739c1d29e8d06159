use algorithms_exercises::binary_search::binary_search;

#[test]
fn test_binary_search() {
    assert_eq!(binary_search(&Vec::from([1]), 1), Some(0));
    assert_eq!(binary_search(&Vec::from([3, 2, 1]), 2), Some(1));
    assert_eq!(binary_search(&Vec::from([1, 5, 7, 4, 2, 3, 6]), 6), Some(6));
    assert_eq!(binary_search(&Vec::from([1, 3, 4]), 2), None);
    assert_eq!(binary_search(&Vec::from([1, 3, 4, 19]), 555), None);
}

#[test]
fn binary_search_edges() {
    let empty: Vec<isize> = Vec::new();
    assert_eq!(binary_search(&empty, 3), None);
    assert_eq!(binary_search(&Vec::from([5]), 1), None);
    assert_eq!(binary_search(&Vec::from([2, 4, 6, 8]), 1), None);
    assert_eq!(binary_search(&Vec::from([2, 4, 6, 8]), 9), None);
    assert_eq!(binary_search(&Vec::from([2, 4, 6, 8]), 2), Some(0));
    assert_eq!(binary_search(&Vec::from([2, 4, 6, 8]), 8), Some(3));
    assert_eq!(binary_search(&Vec::from([-3, -1, 0, 10]), -1), Some(1));
}
