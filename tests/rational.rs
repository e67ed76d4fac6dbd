use aaacs::rational::{ParseRationalError, Rational};

#[test]
fn rational_from_str() {
    assert_eq!(
        aaacs::rational::rational_from_str(&"10").unwrap(),
        Rational::new(10, 1),
    );
    assert_eq!(
        aaacs::rational::rational_from_str(&"10.5").unwrap(),
        Rational::new(105, 10),
    );
    assert_eq!(
        aaacs::rational::rational_from_str(&"0.5").unwrap(),
        Rational::new(5, 10),
    );
    assert_eq!(
        aaacs::rational::rational_from_str(&"3.00523").unwrap(),
        Rational::new(300523, 100000),
    );
}

#[test]
fn rational_to_string() {
    let nb_max_decimals = 4;
    assert_eq!(
        &aaacs::rational::rational_to_string(Rational::new(10, 1), nb_max_decimals),
        &"10",
    );
    assert_eq!(
        &aaacs::rational::rational_to_string(Rational::new(105, 10), nb_max_decimals),
        &"10.5",
    );
    assert_eq!(
        &aaacs::rational::rational_to_string(Rational::new(105, 100), nb_max_decimals),
        &"1.05",
    );
    assert_eq!(
        &aaacs::rational::rational_to_string(Rational::new(-105, 100), nb_max_decimals),
        &"-1.05",
    );
    assert_eq!(
        &aaacs::rational::rational_to_string(Rational::new(99, 30), nb_max_decimals),
        &"3.3",
    );
    assert_eq!(
        &aaacs::rational::rational_to_string(Rational::new(99, 29), nb_max_decimals),
        &"3.4138",
    );
}

#[test]
fn parse_trims_and_signs() {
    assert_eq!(aaacs::rational::rational_from_str("  -1.05 \n").unwrap(), Rational::new(-105, 100));
    assert_eq!(aaacs::rational::rational_from_str("-0.5").unwrap(), Rational::new(-1, 2));
    assert_eq!(aaacs::rational::rational_from_str("+7").unwrap(), Rational::from_integer(7));
    assert_eq!(aaacs::rational::rational_from_str("1.2.3").unwrap(), Rational::new(12, 10));
}

#[test]
fn parse_errors() {
    assert_eq!(aaacs::rational::rational_from_str("   "), Err(ParseRationalError::EmptyString));
    assert_eq!(aaacs::rational::rational_from_str(".5"), Err(ParseRationalError::EmptyString));
    assert!(matches!(aaacs::rational::rational_from_str("abc"), Err(ParseRationalError::NumerError(_))));
    assert!(matches!(aaacs::rational::rational_from_str("1.x"), Err(ParseRationalError::DenomError(_))));
    assert!(matches!(aaacs::rational::rational_from_str("1."), Err(ParseRationalError::DenomError(_))));
    assert_eq!(
        aaacs::rational::rational_from_str("1.0000000000000000001"),
        Err(ParseRationalError::Overflow)
    );
    assert_eq!(
        aaacs::rational::rational_from_str("9223372036854775807.5"),
        Err(ParseRationalError::Overflow)
    );
}

#[test]
fn format_rounds_half_away_from_zero() {
    assert_eq!(aaacs::rational::rational_to_string(Rational::new(1, 8), 2), "0.13");
    assert_eq!(aaacs::rational::rational_to_string(Rational::new(-1, 8), 2), "-0.13");
    assert_eq!(aaacs::rational::rational_to_string(Rational::new(-1, 2), 4), "-0.5");
    assert_eq!(aaacs::rational::rational_to_string(Rational::new(-1, 100000), 4), "0");
    assert_eq!(aaacs::rational::rational_to_string(Rational::new(99999, 100000), 4), "1");
    assert_eq!(aaacs::rational::rational_to_string(Rational::new(-199999, 100000), 4), "-2");
    assert_eq!(aaacs::rational::rational_to_string(Rational::new(2, 3), 0), "1");
    assert_eq!(aaacs::rational::rational_to_string(Rational::zero(), 3), "0");
}

#[test]
fn format_then_parse_round_trip() {
    for (n, d) in [(105, 100), (-105, 100), (7, 1), (-1, 4), (123456, 1000)] {
        let r = Rational::new(n, d);
        let text = aaacs::rational::rational_to_string(r, 4);
        assert_eq!(aaacs::rational::rational_from_str(&text).unwrap(), r);
    }
    // more decimals than kept: only the rounding is lost
    let text = aaacs::rational::rational_to_string(Rational::new(1, 3), 4);
    assert_eq!(aaacs::rational::rational_from_str(&text).unwrap(), Rational::new(3333, 10000));
}

#[test]
fn checked_arithmetic() {
    let a = Rational::new(1, 2);
    let b = Rational::new(1, 3);
    assert_eq!(a.checked_add(&b), Some(Rational::new(5, 6)));
    assert_eq!(a.checked_sub(&b), Some(Rational::new(1, 6)));
    assert_eq!(a.checked_mul(&b), Some(Rational::new(1, 6)));
    assert_eq!(a.checked_div(&b), Some(Rational::new(3, 2)));
    assert_eq!(a.checked_div(&Rational::zero()), None);
    let big = Rational::from_integer(i64::MAX);
    assert_eq!(big.checked_add(&big), None);
    assert_eq!(Rational::new(6, 4).numer(), 3);
    assert_eq!(Rational::new(6, 4).denom(), 2);
}

#[test]
fn zero_divided_by_large_negative() {
    let zero = Rational::zero();
    let divisor = Rational::new(i64::MIN, 3);
    assert_eq!(zero.checked_div(&divisor), Some(Rational::zero()));
}

#[test]
fn rational_error_messages() {
    assert_eq!(
        ParseRationalError::EmptyString.message(),
        "Could not parse empty string as a rational."
    );
    let err = aaacs::rational::rational_from_str("x").unwrap_err();
    assert!(err.message().starts_with("Error parsing numerator: "));
    let err = aaacs::rational::rational_from_str("1.x").unwrap_err();
    assert!(err.message().starts_with("Error parsing denominator: "));
}
