use bens_number_theory::error::NumberError;
use bens_number_theory::ratio_to_str;
use num::rational::Ratio;
use num::BigInt;

fn ratio(numer: i64, denom: i64) -> Ratio<BigInt> {
    Ratio::new_raw(BigInt::from(numer), BigInt::from(denom))
}

#[test]
fn ratio_to_str_rounds_to_the_longer_part() {
    assert_eq!(ratio_to_str(ratio(22, 7)), Ok(String::from("3.1")));
    assert_eq!(ratio_to_str(ratio(1, 4)), Ok(String::from("0.3")));
    assert_eq!(ratio_to_str(ratio(355, 113)), Ok(String::from("3.14")));
    assert_eq!(ratio_to_str(ratio(-355, 113)), Ok(String::from("-3.14")));
}

#[test]
fn ratio_to_str_reduces_first() {
    assert_eq!(ratio_to_str(ratio(1000, 8)), Ok(String::from("125")));
    assert_eq!(ratio_to_str(ratio(0, 5)), Ok(String::from("0")));
}

#[test]
fn ratio_to_str_of_the_golden_ratio() {
    let numer: BigInt = "489526700523968661124".parse().unwrap();
    let denom: BigInt = "302544139324403592003".parse().unwrap();
    let text = ratio_to_str(Ratio::new(numer, denom)).unwrap();
    assert!(text.starts_with("1.6180339887"));
    assert!(text.starts_with("1.618033988749894848"));
    assert_eq!(text.len(), 22);
}

#[test]
fn ratio_to_str_refuses_a_denominator_that_is_not_positive() {
    assert_eq!(ratio_to_str(ratio(1, 0)), Err(NumberError::InvalidArgument));
    assert_eq!(ratio_to_str(ratio(1, -2)), Err(NumberError::InvalidArgument));
}
