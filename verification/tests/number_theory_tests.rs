use bens_number_theory::perfect_numbers::{
    divisors, generate_even_perfect_numbers, is_perfect_number,
};
use bens_number_theory::primes::{
    generate_primes, is_mersenne_prime, is_prime, is_prime_lazy, is_prime_list,
};

#[test]
fn even_perfect_numbers_below_ten() {
    assert_eq!(generate_even_perfect_numbers(10), vec![6, 28, 496, 8128]);
}

#[test]
fn even_perfect_numbers_grow_with_the_exponent() {
    assert_eq!(generate_even_perfect_numbers(0), vec![6, 28]);
    assert_eq!(generate_even_perfect_numbers(4), vec![6, 28]);
    assert_eq!(generate_even_perfect_numbers(6), vec![6, 28, 496]);
    assert_eq!(
        generate_even_perfect_numbers(14),
        vec![6, 28, 496, 8128, 33550336]
    );
    assert_eq!(
        generate_even_perfect_numbers(20),
        vec![6, 28, 496, 8128, 33550336, 8589869056, 137438691328]
    );
}

#[test]
fn even_perfect_numbers_are_perfect() {
    for number in generate_even_perfect_numbers(14) {
        assert!(is_perfect_number(number));
    }
}

#[test]
fn divisors_of_small_numbers() {
    assert_eq!(divisors(1), vec![1]);
    assert_eq!(divisors(2), vec![1, 2]);
    assert_eq!(divisors(4), vec![1, 2, 4]);
    assert_eq!(divisors(9), vec![1, 3, 9]);
    assert_eq!(divisors(13), vec![1, 13]);
    assert_eq!(divisors(36), vec![1, 2, 3, 4, 6, 9, 12, 18, 36]);
}

#[test]
fn divisors_of_nothing_positive() {
    assert_eq!(divisors(0), Vec::<i64>::new());
    assert_eq!(divisors(-12), Vec::<i64>::new());
}

#[test]
fn perfect_numbers_at_the_edges() {
    assert!(is_perfect_number(0));
    assert!(!is_perfect_number(1));
    assert!(!is_perfect_number(2));
    assert!(!is_perfect_number(-6));
    assert!(is_perfect_number(496));
    assert!(!is_perfect_number(12));
}

#[test]
fn the_three_primality_tests_agree() {
    for n in -5..400 {
        let lazy = is_prime_lazy(n);
        assert_eq!(is_prime(n), lazy);
        if n >= 5 {
            assert_eq!(is_prime_list(n, generate_primes(n)), lazy);
        }
    }
}

#[test]
fn is_prime_lazy_refuses_what_is_below_two() {
    assert!(!is_prime_lazy(0));
    assert!(!is_prime_lazy(-1));
    assert!(!is_prime_lazy(-3));
    assert!(!is_prime_lazy(i64::MIN));
}

#[test]
fn is_prime_list_stops_with_the_list() {
    assert!(!is_prime_list(121, vec![2, 3, 5, 7]));
    assert!(is_prime_list(47, vec![2, 3, 5, 7]));
    assert!(!is_prime_list(49, vec![2, 3, 5, 7]));
    assert!(!is_prime_list(53, vec![2, 3, 5, 7]));
    assert!(!is_prime_list(5, Vec::new()));
    assert!(is_prime_list(1, vec![2]));
    assert!(!is_prime_list(0, vec![2]));
}

#[test]
fn is_prime_list_takes_entries_of_either_sign() {
    assert!(!is_prime_list(9, vec![-3]));
    assert!(!is_prime_list(9, vec![-2, -3, 5]));
    assert!(is_prime_list(7, vec![-2, -3, 5]));
    assert!(!is_prime_list(7, vec![-5]));
    assert!(!is_prime_list(7, vec![-2, -3, -5, -7]));
    assert!(!is_prime_list(0, vec![i64::MIN]));
    assert!(!is_prime_list(5, vec![i64::MIN]));
    assert!(is_prime_list(5, vec![i64::MIN, 3]));
    assert!(!is_prime_list(-9, vec![-1, 2]));
}

#[test]
fn generate_primes_stops_below_the_limit() {
    assert_eq!(generate_primes(0), vec![2, 3]);
    assert_eq!(generate_primes(5), vec![2, 3]);
    assert_eq!(generate_primes(6), vec![2, 3, 5]);
    assert_eq!(generate_primes(7), vec![2, 3, 5]);
    assert_eq!(generate_primes(8), vec![2, 3, 5, 7]);
    assert_eq!(generate_primes(11), vec![2, 3, 5, 7]);
    assert_eq!(generate_primes(12), vec![2, 3, 5, 7, 11]);
}

#[test]
fn mersenne_test_reads_the_exponent() {
    assert!(is_mersenne_prime(3));
    assert!(is_mersenne_prime(7));
    assert!(is_mersenne_prime(127));
    assert!(!is_mersenne_prime(2));
    assert!(!is_mersenne_prime(17));
    assert!(!is_mersenne_prime(19));
    assert!(!is_mersenne_prime(0));
    assert!(!is_mersenne_prime(-7));
    assert!(!is_mersenne_prime(i64::MAX));
    // 5 and 11 are prime, and 6 and 12 have two and three binary digits after the first
    assert!(is_mersenne_prime(5));
    assert!(is_mersenne_prime(11));
}
