use algorithms_exercises::radix_sort::{get_longest_number_digits, nth_digit, radix_sort};

#[test]
fn test_nth_digit() {
    assert_eq!(nth_digit(1, 1), 1);
    assert_eq!(nth_digit(123, 10), 2);
    assert_eq!(nth_digit(123, 100), 1);
    assert_eq!(nth_digit(123, 1000), 0);
}

#[test]
fn test_get_longest_number_digits() {
    assert_eq!(get_longest_number_digits(&[1, 0, 1]), 1);
    assert_eq!(get_longest_number_digits(&[123, 456, 9999]), 4);
}

#[test]
fn test_radix_sort() {
    assert_eq!(radix_sort(&Vec::from([1])), [1]);
    assert_eq!(radix_sort(&Vec::from([3, 2, 1])), [1, 2, 3]);
    assert_eq!(
        radix_sort(&Vec::from([
          20,
          51,
          3,
          801,
          415,
          62,
          4,
          17,
          19,
          11,
          1,
          100,
          1244,
          104,
          944,
          854,
          34,
          3000,
          3001,
          1200,
          633
        ])),
        [
          1,
          3,
          4,
          11,
          17,
          19,
          20,
          34,
          51,
          62,
          100,
          104,
          415,
          633,
          801,
          854,
          944,
          1200,
          1244,
          3000,
          3001
        ]
    );
}

#[test]
fn radix_sort_edges() {
    let empty: Vec<usize> = Vec::new();
    assert_eq!(radix_sort(&empty), empty);
    assert_eq!(get_longest_number_digits(&empty), 0);
    assert_eq!(radix_sort(&Vec::from([0, 0, 10, 1])), [0, 0, 1, 10]);
    assert_eq!(radix_sort(&Vec::from([usize::MAX, 5])), [5, usize::MAX]);
    assert_eq!(nth_digit(987, 1), 7);
}
