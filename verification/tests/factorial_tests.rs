use bens_number_theory::error::NumberError;
use bens_number_theory::factorial;
use bens_number_theory::factorials;
use num::BigInt;

#[test]
fn factorial_tests_test_factorial() {
    assert_eq!(factorials::factorial(BigInt::from(0)), Ok(BigInt::from(1)));
    assert_eq!(factorials::factorial(BigInt::from(1)), Ok(BigInt::from(1)));
    assert_eq!(factorials::factorial(BigInt::from(5)), Ok(BigInt::from(120)));
    assert_eq!(factorials::factorial(BigInt::from(10)), Ok(BigInt::from(3628800)));
    assert_eq!(factorial::factorial(0), 1);
    assert_eq!(factorial::factorial(1), 1);
    assert_eq!(factorial::factorial(5), 120);
    assert_eq!(factorial::factorial(10), 3628800);
}

#[test]
fn factorial_tests_test_factorial_list() {
    let factorials: Vec<u128> = factorial::factorial_list(10);
    assert_eq!(
        factorials,
        [1, 2, 6, 24, 120, 720, 5040, 40320, 362880, 3628800]
    )
}

#[test]
fn fixed_width_factorial_reaches_its_limit() {
    assert_eq!(factorial::MAX_FACTORIAL_ARGUMENT, 34);
    assert_eq!(
        factorial::factorial(34),
        295232799039604140847618609643520000000
    );
    assert_eq!(factorial::factorial(2), 2);
    assert_eq!(factorial::factorial(20), 2432902008176640000);
}

#[test]
fn fixed_width_factorial_list_edges() {
    assert_eq!(factorial::factorial_list(0), Vec::<u128>::new());
    assert_eq!(factorial::factorial_list(1), vec![1]);
    let all = factorial::factorial_list(34);
    assert_eq!(all.len(), 34);
    assert_eq!(all[33], 295232799039604140847618609643520000000);
}

#[test]
fn fixed_width_factorial_obeys_recurrence() {
    let mut n: u128 = 2;
    while n <= 34 {
        assert_eq!(factorial::factorial(n), n * factorial::factorial(n - 1));
        n += 1;
    }
}

#[test]
fn big_factorial_goes_past_fixed_width() {
    let expected: BigInt = "10333147966386144929666651337523200000000".parse().unwrap();
    assert_eq!(factorials::factorial(BigInt::from(35)), Ok(expected));
    let fifteen: BigInt = "1307674368000".parse().unwrap();
    assert_eq!(factorials::factorial(BigInt::from(15)), Ok(fifteen));
}

#[test]
fn big_factorial_obeys_recurrence() {
    let mut n: u32 = 2;
    while n <= 60 {
        let this = factorials::factorial(BigInt::from(n)).unwrap();
        let previous = factorials::factorial(BigInt::from(n - 1)).unwrap();
        assert_eq!(this, BigInt::from(n) * previous);
        n += 1;
    }
}

#[test]
fn big_factorial_refuses_negative() {
    assert_eq!(
        factorials::factorial(BigInt::from(-1)),
        Err(NumberError::InvalidArgument)
    );
    assert_eq!(
        factorials::factorial_list(BigInt::from(-3)),
        Err(NumberError::InvalidArgument)
    );
}

#[test]
fn error_has_a_message() {
    assert_eq!(NumberError::InvalidArgument.message(), "invalid argument");
}
