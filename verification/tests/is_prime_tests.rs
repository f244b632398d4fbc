use bens_number_theory::primes::{generate_primes, is_prime, is_prime_list};

#[test]
fn is_prime_test() {
    assert_eq!(is_prime(9), false);
    assert_eq!(is_prime(11), true);
}

#[test]
fn is_prime_tests_generate_primes_test() {
    assert_eq!(generate_primes(10), vec![2, 3, 5, 7]);
}

#[test]
fn is_prime_tests_generate_primes_large_test() {
    assert_eq!(
        generate_primes(100),
        vec![
            2, 3, 5, 7, 11, 13, 17, 19, 23, 29, 31, 37, 41, 43, 47, 53, 59, 61, 67, 71, 73, 79,
            83, 89, 97
        ]
    );
}

#[test]
fn is_prime_tests_is_prime_large_test() {
    let primes = generate_primes(100);
    assert_eq!(is_prime_list(97, primes.clone()), true);
    assert_eq!(is_prime_list(99, primes.clone()), false);
    assert_eq!(is_prime_list(101, primes), true);
}

#[test]
fn is_prime_tests_is_prime_negative_numbers_test() {
    let primes = vec![2, 3, 5, 7];
    assert_eq!(is_prime_list(-7, primes.clone()), false);
    assert_eq!(is_prime_list(-11, primes), false);
}

#[test]
fn is_prime_tests_generate_primes_single_prime_test() {
    assert_eq!(generate_primes(2), vec![2, 3]);
    assert_eq!(generate_primes(3), vec![2, 3]);
}

#[test]
fn is_prime_tests_is_prime_edge_case_test() {
    let primes = vec![2, 3, 5, 7];
    assert_eq!(is_prime_list(i64::from(i32::MAX), primes.clone()), false);
    assert_eq!(is_prime_list(i64::from(i32::MIN), primes), false);
}

#[test]
fn is_prime_tests_generate_primes_duplicate_primes_test() {
    assert_eq!(generate_primes(20), vec![2, 3, 5, 7, 11, 13, 17, 19]);
    assert_eq!(
        generate_primes(30),
        vec![2, 3, 5, 7, 11, 13, 17, 19, 23, 29]
    );
}

#[test]
fn is_prime_tests_is_prime_large_input_test() {
    let primes = generate_primes(1000);
    assert_eq!(is_prime_list(997, primes.clone()), true);
    assert_eq!(is_prime_list(1001, primes), false);
}

#[test]
fn is_prime_tests_generate_primes_large_input_test() {
    assert_eq!(generate_primes(10000).len(), 1229);
    assert_eq!(generate_primes(100000).len(), 9592);
}

#[test]
fn is_prime_tests_generate_primes_limit_one_test() {
    assert_eq!(generate_primes(1), vec![2, 3]);
}

#[test]
fn is_prime_tests_generate_primes_limit_three_test() {
    assert_eq!(generate_primes(3), vec![2, 3]);
}

#[test]
fn is_prime_tests_generate_primes_large_limit_test() {
    assert_eq!(generate_primes(1000000).len(), 78498);
}
