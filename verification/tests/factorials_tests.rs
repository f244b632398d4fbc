use bens_number_theory::factorial;
use bens_number_theory::factorials;
use num::BigInt;

#[test]
fn factorials_tests_test_factorial() {
    assert_eq!(factorial::factorial(0), 1);
    assert_eq!(factorial::factorial(1), 1);
    assert_eq!(factorial::factorial(5), 120);
    assert_eq!(factorial::factorial(10), 3628800);
    assert_eq!(factorials::factorial(BigInt::from(0)), Ok(BigInt::from(1)));
    assert_eq!(factorials::factorial(BigInt::from(1)), Ok(BigInt::from(1)));
    assert_eq!(factorials::factorial(BigInt::from(5)), Ok(BigInt::from(120)));
    assert_eq!(factorials::factorial(BigInt::from(10)), Ok(BigInt::from(3628800)));
}

#[test]
fn factorials_tests_test_factorial_list() {
    let factorials: Vec<u128> = factorial::factorial_list(10);
    assert_eq!(
        factorials,
        [1, 2, 6, 24, 120, 720, 5040, 40320, 362880, 3628800]
    );
    let big: Vec<BigInt> = factorials::factorial_list(BigInt::from(10)).unwrap();
    let expected: Vec<BigInt> = [1, 2, 6, 24, 120, 720, 5040, 40320, 362880, 3628800]
        .iter()
        .map(|v: &u32| BigInt::from(*v))
        .collect();
    assert_eq!(big, expected);
}

#[test]
fn big_factorial_list_edges() {
    assert_eq!(
        factorials::factorial_list(BigInt::from(0)),
        Ok(Vec::<BigInt>::new())
    );
    assert_eq!(
        factorials::factorial_list(BigInt::from(1)),
        Ok(vec![BigInt::from(1)])
    );
    let list = factorials::factorial_list(BigInt::from(40)).unwrap();
    assert_eq!(list.len(), 40);
    assert_eq!(
        list[39],
        factorials::factorial(BigInt::from(40)).unwrap()
    );
}
