use algorithms_exercises::nested_add::{nested_add, NestedArray};

#[test]
fn test_nested_add() {
    let nums1: Vec<NestedArray<usize>> = Vec::new();
    let nums2 = Vec::from([
        NestedArray::Value(1),
        NestedArray::Value(2),
        NestedArray::Value(3),
    ]);
    let nums3 = Vec::from([
        NestedArray::Value(1),
        NestedArray::Value(2),
        NestedArray::Value(3),
        NestedArray::Array(Vec::from([
            NestedArray::Value(4),
            NestedArray::Array(Vec::from([NestedArray::Value(5), NestedArray::Value(6)])),
        ])),
    ]);

    assert_eq!(nested_add(&nums1), 0);
    assert_eq!(nested_add(&nums2), 6);
    assert_eq!(nested_add(&nums3), 21);
}

#[test]
fn nested_add_of_empty_arrays() {
    let nums = Vec::from([
        NestedArray::Array(Vec::new()),
        NestedArray::Array(Vec::from([NestedArray::Array(Vec::new()), NestedArray::Value(9)])),
    ]);
    assert_eq!(nested_add(&nums), 9);
}
