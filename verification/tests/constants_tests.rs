use bens_number_theory::constants::{
    approx_sqrt, estimate_pi_ratio, golden_ratio, inverse, series_term,
};
use bens_number_theory::convert::to_ibig;
use bens_number_theory::error::NumberError;
use dashu::integer::{IBig, UBig};
use dashu::rational::RBig;
use num::BigInt;

const PI_DIGITS: &str = "3141592653589793238462643383279502884197169399375105820974944592307816406286208998628034825342117067982148086513282306647093844609";

fn ratio(numer: i64, denom: u64) -> RBig {
    RBig::from_parts(IBig::from(numer), UBig::from(denom))
}

/// The first `digits` decimal digits of a positive rational, without the point.
fn leading_digits(value: &RBig, digits: usize) -> String {
    let scaled = value.numerator() * IBig::from(10).pow(digits - 1);
    let (_, quotient) = (scaled / value.denominator().as_ibig()).into_parts();
    quotient.to_string()
}

fn agreeing_digits(value: &RBig) -> usize {
    let digits = leading_digits(value, PI_DIGITS.len());
    digits
        .chars()
        .zip(PI_DIGITS.chars())
        .take_while(|(a, b)| a == b)
        .count()
}

#[test]
fn approx_sqrt_takes_exactly_the_steps_asked_for() {
    assert_eq!(approx_sqrt(2, 0), Ok(ratio(2, 1)));
    assert_eq!(approx_sqrt(2, 1), Ok(ratio(3, 2)));
    assert_eq!(approx_sqrt(2, 2), Ok(ratio(17, 12)));
    assert_eq!(approx_sqrt(2, 3), Ok(ratio(577, 408)));
    assert_eq!(approx_sqrt(2, 4), Ok(ratio(665857, 470832)));
    assert_eq!(approx_sqrt(9, 2), Ok(ratio(17, 5)));
    assert_eq!(approx_sqrt(1, 7), Ok(ratio(1, 1)));
}

#[test]
fn approx_sqrt_refuses_zero() {
    assert_eq!(approx_sqrt(0, 5), Err(NumberError::InvalidArgument));
    assert_eq!(approx_sqrt(0, 0), Err(NumberError::InvalidArgument));
}

#[test]
fn approx_sqrt_closes_in_on_the_root() {
    let mut previous_gap: Option<RBig> = None;
    for k in 0..8 {
        let here = approx_sqrt(2, k).unwrap();
        let next = approx_sqrt(2, k + 1).unwrap();
        let gap = here - next;
        assert!(gap > RBig::ZERO);
        if let Some(before) = previous_gap {
            assert!(gap < before);
        }
        previous_gap = Some(gap);
    }
}

#[test]
fn approx_sqrt_squares_back_to_its_argument() {
    let root = approx_sqrt(2, 10).unwrap();
    let square = root.sqr();
    let error = square - RBig::from(2);
    assert!(error > RBig::ZERO);
    assert!(error < RBig::from_parts(IBig::ONE, UBig::from(10u8).pow(300)));
}

#[test]
fn inverse_swaps_the_parts() {
    assert_eq!(inverse(ratio(2, 3)), Ok(ratio(3, 2)));
    assert_eq!(inverse(ratio(-2, 3)), Ok(ratio(-3, 2)));
    assert_eq!(inverse(ratio(5, 1)), Ok(ratio(1, 5)));
    assert_eq!(inverse(ratio(-1, 7)), Ok(ratio(-7, 1)));
    assert_eq!(inverse(ratio(6, 4)), Ok(ratio(2, 3)));
}

#[test]
fn inverse_refuses_zero() {
    assert_eq!(inverse(RBig::ZERO), Err(NumberError::InvalidArgument));
}

#[test]
fn inverse_undoes_itself() {
    let value = ratio(-355, 113);
    assert_eq!(inverse(inverse(value.clone()).unwrap()), Ok(value));
}

#[test]
fn series_term_follows_the_formula() {
    assert_eq!(series_term(0), ratio(1103, 1));
    // 4! * (1103 + 26390) / (4^4 * 1^4 * 99^4) = 24 * 27493 / (256 * 96059601)
    assert_eq!(
        series_term(1),
        RBig::from_parts(IBig::from(24 * 27493), UBig::from(256u64 * 96059601))
    );
    // 8! * (1103 + 52780) / (4^8 * 2^4 * 99^8)
    let bottom = UBig::from(65536u32) * UBig::from(16u8) * UBig::from(99u8).pow(8);
    assert_eq!(
        series_term(2),
        RBig::from_parts(IBig::from(40320i64 * 53883), bottom)
    );
}

#[test]
fn estimate_pi_ratio_of_one_term() {
    let text = estimate_pi_ratio(1).unwrap().to_string();
    assert!(text.starts_with("158853645"));
    assert!(text.contains('/'));
    assert!(text.ends_with("899151951"));
}

#[test]
fn estimate_pi_ratio_of_one_term_is_the_scaled_reciprocal() {
    // 1 / (2 * s / 9801 * 1103) = 9801 / (2206 * s)
    let root = approx_sqrt(2, 10).unwrap();
    let expected = RBig::from(9801) / (RBig::from(2206) * root);
    assert_eq!(estimate_pi_ratio(1), Ok(expected));
}

#[test]
fn estimate_pi_ratio_gains_digits_with_terms() {
    let expected = [7, 16, 24, 32, 40, 48, 54, 64, 71, 78, 87, 95, 104, 112, 119, 128];
    let mut agreed = 0;
    for n in 1..=16 {
        let estimate = estimate_pi_ratio(n).unwrap();
        let now = agreeing_digits(&estimate);
        assert!(now > agreed);
        assert_eq!(now, expected[n - 1]);
        agreed = now;
    }
}

#[test]
fn estimate_pi_ratio_falls_with_terms() {
    let mut previous = estimate_pi_ratio(1).unwrap();
    for n in 2..=10 {
        let estimate = estimate_pi_ratio(n).unwrap();
        assert!(estimate < previous);
        previous = estimate;
    }
}

#[test]
fn estimate_pi_ratio_refuses_no_terms() {
    assert_eq!(estimate_pi_ratio(0), Err(NumberError::InvalidArgument));
}

#[test]
fn golden_ratio_is_zero_below_two() {
    assert_eq!(golden_ratio(BigInt::from(0)), RBig::ZERO);
    assert_eq!(golden_ratio(BigInt::from(1)), RBig::ZERO);
    assert_eq!(golden_ratio(BigInt::from(-5)), RBig::ZERO);
}

#[test]
fn golden_ratio_is_a_quotient_of_lucas_numbers() {
    assert_eq!(golden_ratio(BigInt::from(2)), ratio(1, 2));
    assert_eq!(golden_ratio(BigInt::from(3)), ratio(3, 1));
    assert_eq!(golden_ratio(BigInt::from(4)), ratio(4, 3));
    assert_eq!(golden_ratio(BigInt::from(5)), ratio(7, 4));
    assert_eq!(golden_ratio(BigInt::from(10)), ratio(76, 47));
}

#[test]
fn golden_ratio_of_one_hundred() {
    let estimate = golden_ratio(BigInt::from(100));
    assert_eq!(
        estimate.to_string(),
        "489526700523968661124/302544139324403592003"
    );
    assert_eq!(leading_digits(&estimate, 11), "16180339887");
    assert_eq!(leading_digits(&estimate, 31), "1618033988749894848204586834365");
}

#[test]
fn to_ibig_keeps_the_value() {
    assert_eq!(to_ibig(&BigInt::from(0)), IBig::ZERO);
    assert_eq!(to_ibig(&BigInt::from(-42)), IBig::from(-42));
    assert_eq!(to_ibig(&BigInt::from(1000)), IBig::from(1000));
    let large: BigInt = "-123456789012345678901234567890123456789".parse().unwrap();
    let same: IBig = "-123456789012345678901234567890123456789".parse().unwrap();
    assert_eq!(to_ibig(&large), same);
}
