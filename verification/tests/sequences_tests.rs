use bens_number_theory::sequences::{dying_rabbits_sequence, fibonacci_sequence, lucas_sequence};
use num::BigInt;

fn bigs(values: &[i64]) -> Vec<BigInt> {
    values.iter().map(|v| BigInt::from(*v)).collect()
}

#[test]
fn lucas_sequence_of_five() {
    assert_eq!(lucas_sequence(BigInt::from(5)), bigs(&[2, 1, 3, 4, 7]));
}

#[test]
fn lucas_sequence_edges() {
    assert_eq!(lucas_sequence(BigInt::from(0)), Vec::<BigInt>::new());
    assert_eq!(lucas_sequence(BigInt::from(1)), bigs(&[2]));
    assert_eq!(lucas_sequence(BigInt::from(2)), bigs(&[2, 1]));
    assert_eq!(lucas_sequence(BigInt::from(3)), bigs(&[2, 1, 3]));
    assert_eq!(lucas_sequence(BigInt::from(-4)), bigs(&[2, 1]));
}

#[test]
fn lucas_sequence_grows_past_machine_width() {
    let sequence = lucas_sequence(BigInt::from(100));
    assert_eq!(sequence.len(), 100);
    let last: BigInt = "489526700523968661124".parse().unwrap();
    assert_eq!(sequence[99], last);
    for i in 2..100 {
        assert_eq!(sequence[i], &sequence[i - 1] + &sequence[i - 2]);
    }
}

#[test]
fn fibonacci_sequence_of_five() {
    assert_eq!(fibonacci_sequence(BigInt::from(5)), bigs(&[0, 1, 1, 2, 3]));
}

#[test]
fn fibonacci_sequence_edges() {
    assert_eq!(fibonacci_sequence(BigInt::from(0)), Vec::<BigInt>::new());
    assert_eq!(fibonacci_sequence(BigInt::from(1)), bigs(&[0]));
    assert_eq!(fibonacci_sequence(BigInt::from(2)), bigs(&[0, 1]));
    assert_eq!(fibonacci_sequence(BigInt::from(3)), bigs(&[0, 1, 1]));
    assert_eq!(fibonacci_sequence(BigInt::from(-7)), bigs(&[0, 1]));
    assert_eq!(
        fibonacci_sequence(BigInt::from(10)),
        bigs(&[0, 1, 1, 2, 3, 5, 8, 13, 21, 34])
    );
}

#[test]
fn sequences_have_the_length_asked_for() {
    for n in 0..40 {
        assert_eq!(fibonacci_sequence(BigInt::from(n)).len(), n);
        assert_eq!(lucas_sequence(BigInt::from(n)).len(), n);
        assert_eq!(dying_rabbits_sequence(BigInt::from(n)).len(), n);
    }
}

#[test]
fn dying_rabbits_sequence_of_five() {
    assert_eq!(
        dying_rabbits_sequence(BigInt::from(5)),
        bigs(&[1, 1, 1, 2, 3])
    );
}

#[test]
fn dying_rabbits_sequence_edges() {
    assert_eq!(dying_rabbits_sequence(BigInt::from(0)), Vec::<BigInt>::new());
    assert_eq!(dying_rabbits_sequence(BigInt::from(-2)), Vec::<BigInt>::new());
    assert_eq!(dying_rabbits_sequence(BigInt::from(1)), bigs(&[1]));
}

#[test]
fn dying_rabbits_lose_the_thirteenth_term_back() {
    let sequence = dying_rabbits_sequence(BigInt::from(16));
    assert_eq!(
        sequence,
        bigs(&[1, 1, 1, 2, 3, 5, 8, 13, 21, 34, 55, 89, 144, 232, 375, 606])
    );
    let long = dying_rabbits_sequence(BigInt::from(40));
    for i in 13..40 {
        assert_eq!(long[i], &long[i - 1] + &long[i - 2] - &long[i - 13]);
    }
}

#[test]
fn generators_repeat_themselves() {
    for n in [0, 1, 2, 5, 13, 14, 30] {
        assert_eq!(lucas_sequence(BigInt::from(n)), lucas_sequence(BigInt::from(n)));
        assert_eq!(
            fibonacci_sequence(BigInt::from(n)),
            fibonacci_sequence(BigInt::from(n))
        );
        assert_eq!(
            dying_rabbits_sequence(BigInt::from(n)),
            dying_rabbits_sequence(BigInt::from(n))
        );
    }
}
