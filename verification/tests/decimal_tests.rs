use scorecalc::decimal::Decimal;
use scorecalc::errors::DecimalError;

fn dec(s: &str) -> Decimal {
    Decimal::from_string(s).expect("literal must parse")
}

#[test]
fn parse_and_format_round_trip() {
    for s in ["0", "1", "-1", "42", "0.1", "-0.1", "3.14159", "0.10", "1000.000", "79228162514264337593543950335", "+5", "-0.05"] {
        let d = Decimal::from_string(s).expect("parses");
        let text = d.to_string();
        let back = Decimal::from_string(text.as_str()).expect("reparses");
        assert_eq!(back, d);
    }
}

#[test]
fn format_is_canonical() {
    assert_eq!(dec("0.10").to_string(), "0.10");
    assert_eq!(dec("+5").to_string(), "5");
    assert_eq!(dec("-0.05").to_string(), "-0.05");
    assert_eq!(dec("0").to_string(), "0");
}

#[test]
fn rejects_bad_literals() {
    for s in ["", "-", "+", ".", "1.", ".5", "1..2", "1.2.3", "a", "1a", "1.2a", "--1", "1 "] {
        assert!(Decimal::from_string(s).is_none(), "{:?} must not parse", s);
    }
}

#[test]
fn rejects_out_of_range() {
    // One above the largest mantissa.
    assert!(Decimal::from_string("79228162514264337593543950336").is_none());
    // Too many fractional digits.
    assert!(Decimal::from_string("0.00000000000000000000000000001").is_none());
}

#[test]
fn tenths_add_exactly() {
    let sum = dec("0.1").checked_add(dec("0.2")).expect("fits");
    assert!(sum.eq_val(dec("0.3")));
    assert_eq!(sum, dec("0.3"));
}

#[test]
fn addition_aligns_scales() {
    let sum = dec("1.5").checked_add(dec("0.25")).expect("fits");
    assert_eq!(sum.to_string(), "1.75");
    let diff = dec("1").checked_sub(dec("0.999")).expect("fits");
    assert_eq!(diff.to_string(), "0.001");
}

#[test]
fn multiplication_is_exact() {
    let p = dec("1.5").checked_mul(dec("2.5")).expect("fits");
    assert_eq!(p.to_string(), "3.75");
    let q = dec("-0.3").checked_mul(dec("0.3")).expect("fits");
    assert_eq!(q.to_string(), "-0.09");
}

#[test]
fn division_by_zero_fails() {
    assert_eq!(dec("1").checked_div(dec("0")), Err(DecimalError::DivisionByZero));
    assert_eq!(dec("1").checked_rem(dec("0.0")), Err(DecimalError::DivisionByZero));
    assert_eq!(dec("1").checked_idiv(dec("0")), Err(DecimalError::DivisionByZero));
}

#[test]
fn division_results() {
    assert_eq!(dec("6").checked_div(dec("3")).unwrap().to_string(), "2");
    assert_eq!(dec("1").checked_div(dec("4")).unwrap().to_string(), "0.25");
    assert_eq!(dec("1").checked_div(dec("8")).unwrap().to_string(), "0.125");
    // A non-terminating quotient is truncated at the largest scale.
    assert_eq!(
        dec("1").checked_div(dec("3")).unwrap().to_string(),
        "0.3333333333333333333333333333"
    );
    assert_eq!(dec("-1").checked_div(dec("4")).unwrap().to_string(), "-0.25");
}

#[test]
fn remainder_follows_dividend() {
    assert_eq!(dec("7").checked_rem(dec("3")).unwrap().to_string(), "1");
    assert_eq!(dec("-7").checked_rem(dec("3")).unwrap().to_string(), "-1");
    assert_eq!(dec("7.5").checked_rem(dec("2")).unwrap().to_string(), "1.5");
}

#[test]
fn floor_division() {
    assert_eq!(dec("7").checked_idiv(dec("2")).unwrap().to_string(), "3");
    assert_eq!(dec("-7").checked_idiv(dec("2")).unwrap().to_string(), "-4");
    assert_eq!(dec("7.5").checked_idiv(dec("2.5")).unwrap().to_string(), "3");
}

#[test]
fn exponentiation() {
    assert_eq!(dec("2").checked_pow(dec("10")).unwrap().to_string(), "1024");
    assert_eq!(dec("1.5").checked_pow(dec("2")).unwrap().to_string(), "2.25");
    assert_eq!(dec("2").checked_pow(dec("-2")).unwrap().to_string(), "0.25");
    assert_eq!(dec("5").checked_pow(dec("0")).unwrap().to_string(), "1");
    assert_eq!(dec("1").checked_pow(dec("100000000000000")).unwrap().to_string(), "1");
    assert_eq!(dec("-1").checked_pow(dec("3")).unwrap().to_string(), "-1");
    assert_eq!(dec("2").checked_pow(dec("0.5")), Err(DecimalError::FractionalExponent));
    assert_eq!(dec("0").checked_pow(dec("-1")), Err(DecimalError::DivisionByZero));
    assert_eq!(dec("10").checked_pow(dec("40")), Err(DecimalError::Overflow));
}

#[test]
fn comparisons_cross_scale() {
    assert!(dec("1.0").eq_val(dec("1")));
    assert!(dec("0.5").lt_val(dec("0.75")));
    assert!(dec("-2").lt_val(dec("-1.5")));
    assert!(dec("2").le_val(dec("2.00")));
    assert!(!dec("2.01").le_val(dec("2")));
    assert_eq!(dec("1.50").cmp_val(dec("1.5")), 0);
}

#[test]
fn overflow_is_reported_not_wrapped() {
    let max = dec("79228162514264337593543950335");
    assert!(max.checked_add(dec("1")).is_none());
    assert!(max.checked_mul(dec("10")).is_none());
    assert!(max.checked_sub(dec("-1")).is_none());
}

#[test]
fn identifier_strings_round_trip() {
    for v in [0u128, 1, 42, u128::MAX] {
        let s = scorecalc::decimal::u128_to_string(v);
        assert_eq!(scorecalc::decimal::u128_from_string(s.as_str()), Some(v));
    }
    assert_eq!(scorecalc::decimal::u128_from_string(""), None);
    assert_eq!(scorecalc::decimal::u128_from_string("12a"), None);
    assert_eq!(scorecalc::decimal::u128_from_string("340282366920938463463374607431768211456"), None);
}
