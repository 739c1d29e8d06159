use algorithms_exercises::factorial::factorial;

#[test]
fn test_factorial() {
    assert_eq!(factorial(1), 1);
    assert_eq!(factorial(5), 120);
    assert_eq!(factorial(13), 6227020800);
}

#[test]
fn factorial_small_values() {
    assert_eq!(factorial(0), 1);
    assert_eq!(factorial(2), 2);
    assert_eq!(factorial(20), 2432902008176640000);
}
