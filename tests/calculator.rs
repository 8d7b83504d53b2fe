use std::cmp::Ordering;

use decimal_calc::decimal::Decimal;
use decimal_calc::ops::{
    compare, difference, exponent_is_odd, exponent_value, power, product, quotient, remainder,
    square_root, sum, CalcError, Operation,
};
use decimal_calc::text::{parse, to_canonical_string};

fn num(s: &str) -> Decimal {
    parse(s).unwrap()
}

fn run(op: Operation, a: &str, b: &str) -> Result<String, CalcError> {
    op.apply(&num(a), &num(b)).map(|r| to_canonical_string(&r))
}

#[test]
fn add_two_and_three() {
    assert_eq!(run(Operation::Add, "2", "3"), Ok("5".to_string()));
}

#[test]
fn divide_one_by_four() {
    assert_eq!(run(Operation::Divide, "1", "4"), Ok("0.25".to_string()));
}

#[test]
fn divide_one_by_three_is_finite() {
    let s = run(Operation::Divide, "1", "3").unwrap();
    assert_eq!(s, format!("0.{}", "3".repeat(100)));
}

#[test]
fn modulus_seven_by_three() {
    assert_eq!(run(Operation::Modulus, "7", "3"), Ok("1".to_string()));
}

#[test]
fn power_two_to_ten() {
    assert_eq!(run(Operation::Power, "2", "10"), Ok("1024".to_string()));
}

#[test]
fn power_negative_exponent_rejected() {
    assert_eq!(run(Operation::Power, "5", "-1"), Err(CalcError::InvalidExponent));
}

#[test]
fn square_root_of_negative_rejected() {
    assert_eq!(run(Operation::SquareRoot, "-4", "0"), Err(CalcError::NegativeRadicand));
}

#[test]
fn square_root_of_four() {
    assert_eq!(run(Operation::SquareRoot, "4", "0"), Ok("2".to_string()));
}

#[test]
fn divide_by_zero_rejected() {
    assert_eq!(run(Operation::Divide, "5", "0"), Err(CalcError::DivisionByZero));
    assert_eq!(run(Operation::Divide, "-2.5", "0.000"), Err(CalcError::DivisionByZero));
}

#[test]
fn modulus_by_zero_rejected() {
    assert_eq!(run(Operation::Modulus, "5", "0"), Err(CalcError::DivisionByZero));
    assert_eq!(run(Operation::Modulus, "0", "-0.0"), Err(CalcError::DivisionByZero));
}

#[test]
fn modulus_keeps_sign_of_dividend() {
    assert_eq!(run(Operation::Modulus, "-7", "3"), Ok("-1".to_string()));
    assert_eq!(run(Operation::Modulus, "7", "-3"), Ok("1".to_string()));
    assert_eq!(run(Operation::Modulus, "7.5", "2"), Ok("1.5".to_string()));
}

#[test]
fn exact_sum_difference_product() {
    assert_eq!(to_canonical_string(&sum(&num("0.1"), &num("0.2"))), "0.3");
    assert_eq!(to_canonical_string(&difference(&num("1"), &num("1.25"))), "-0.25");
    assert_eq!(to_canonical_string(&product(&num("1.5"), &num("-2.5"))), "-3.75");
    assert_eq!(to_canonical_string(&product(&num("123456789012345678901234567890"), &num("10"))), "1234567890123456789012345678900");
}

#[test]
fn quotient_and_remainder_direct() {
    assert_eq!(to_canonical_string(&quotient(&num("10"), &num("4")).unwrap()), "2.5");
    assert_eq!(to_canonical_string(&quotient(&num("-9"), &num("3")).unwrap()), "-3");
    assert_eq!(to_canonical_string(&remainder(&num("10"), &num("4")).unwrap()), "2");
}

#[test]
fn square_root_direct() {
    assert_eq!(to_canonical_string(&square_root(&num("2.25")).unwrap()), "1.5");
    let r = to_canonical_string(&square_root(&num("2")).unwrap());
    assert!(r.starts_with("1.41421356237309504880"));
    assert_eq!(to_canonical_string(&square_root(&num("0")).unwrap()), "0");
}

#[test]
fn identities_on_values() {
    for s in ["0", "-3.25", "17", "0.0001"] {
        let a = num(s);
        assert_eq!(to_canonical_string(&sum(&a, &num("0"))), to_canonical_string(&a));
        assert_eq!(to_canonical_string(&product(&a, &num("1"))), to_canonical_string(&a));
        assert_eq!(to_canonical_string(&product(&a, &num("0.00"))), "0");
    }
}

#[test]
fn power_steps() {
    let a = num("1.5");
    assert_eq!(to_canonical_string(&power(&a, &num("0")).unwrap()), "1");
    assert_eq!(to_canonical_string(&power(&num("0"), &num("0")).unwrap()), "1");
    let p3 = power(&a, &num("3")).unwrap();
    let p2 = power(&a, &num("2")).unwrap();
    assert_eq!(to_canonical_string(&p3), to_canonical_string(&product(&p2, &a)));
    assert_eq!(to_canonical_string(&p3), "3.375");
}

#[test]
fn exponent_forms() {
    assert_eq!(exponent_value(&num("3.000")), Ok(3));
    assert_eq!(exponent_value(&num("-0")), Ok(0));
    assert_eq!(exponent_value(&num("2.5")), Err(CalcError::InvalidExponent));
    assert_eq!(exponent_value(&num("4294967295")), Ok(4294967295));
    assert_eq!(exponent_value(&num("4294967296")), Err(CalcError::ComputationError));
    assert_eq!(exponent_value(&num("-3")), Err(CalcError::InvalidExponent));
    assert_eq!(run(Operation::Power, "2", "0.5"), Err(CalcError::InvalidExponent));
}

#[test]
fn multiply_scale_overflow_is_computation_error() {
    let a = Decimal { negative: false, digits: vec![1], scale: 0x7fff_ffff_ffff_ffff };
    let b = num("0.1");
    assert_eq!(Operation::Multiply.apply(&a, &b).err(), Some(CalcError::ComputationError));
}

#[test]
fn parse_rejects_malformed() {
    for s in ["", "1.2.3", "abc", " 1", "1 ", "-", ".", "+-1", "1e5", "--2"] {
        assert_eq!(parse(s).err(), Some(CalcError::ParseError), "{}", s);
    }
}

#[test]
fn parse_reads_fields() {
    let d = num("-12.340");
    assert!(d.negative);
    assert_eq!(d.digits, vec![1, 2, 3, 4, 0]);
    assert_eq!(d.scale, 3);
    assert_eq!(to_canonical_string(&num(".5")), "0.5");
    assert_eq!(to_canonical_string(&num("5.")), "5");
    assert_eq!(to_canonical_string(&num("+1.50")), "1.5");
}

#[test]
fn format_canonical_forms() {
    assert_eq!(to_canonical_string(&num("0")), "0");
    assert_eq!(to_canonical_string(&num("-0.000")), "0");
    assert_eq!(to_canonical_string(&num("100")), "100");
    assert_eq!(to_canonical_string(&num("0100.0100")), "100.01");
    assert_eq!(to_canonical_string(&num("-0.050")), "-0.05");
    assert_eq!(to_canonical_string(&Decimal::from_parts(false, vec![1, 2], -2)), "1200");
    assert_eq!(to_canonical_string(&Decimal::from_parts(true, vec![5], 3)), "-0.005");
}

#[test]
fn round_trip_keeps_value() {
    for s in ["1.500", "-0.0012", "42", "000.10"] {
        let x = num(s);
        let y = num(&to_canonical_string(&x));
        assert_eq!(to_canonical_string(&y), to_canonical_string(&x));
        assert_eq!(to_canonical_string(&difference(&x, &y)), "0");
    }
}

#[test]
fn division_times_divisor_close() {
    let a = num("1");
    let b = num("3");
    let q = quotient(&a, &b).unwrap();
    let back = to_canonical_string(&product(&q, &b));
    assert!(back.starts_with("0.9999999999"));
}

#[test]
fn square_root_squared_close() {
    let r = square_root(&num("2")).unwrap();
    let sq = to_canonical_string(&product(&r, &r));
    assert!(sq.starts_with("1.99999999999") || sq.starts_with("2.0000000000"));
}

#[test]
fn menu_codes() {
    assert_eq!(Operation::from_code(1), Some(Operation::Add));
    assert_eq!(Operation::from_code(7), Some(Operation::SquareRoot));
    assert_eq!(Operation::from_code(0), None);
    assert_eq!(Operation::from_code(8), None);
    assert_eq!(Operation::SquareRoot.arity(), 1);
    assert_eq!(Operation::Divide.arity(), 2);
}

#[test]
fn compare_by_numeric_value() {
    assert_eq!(compare(&num("1.50"), &num("1.5")), Ordering::Equal);
    assert_eq!(compare(&num("-2"), &num("1")), Ordering::Less);
    assert_eq!(compare(&num("0.1"), &num("0.09")), Ordering::Greater);
    assert_eq!(compare(&num("-0"), &num("0.000")), Ordering::Equal);
}

#[test]
fn rounded_operations_reject_huge_scale() {
    let a = Decimal { negative: false, digits: vec![4], scale: 0x4000_0000_0000_0000 };
    assert_eq!(quotient(&a, &num("2")).err(), Some(CalcError::ComputationError));
    assert_eq!(square_root(&a).err(), Some(CalcError::ComputationError));
}

#[test]
fn power_with_huge_exponent() {
    let huge = "123456789012345678901234567890";
    assert_eq!(run(Operation::Power, "0", huge), Ok("0".to_string()));
    assert_eq!(run(Operation::Power, "1.000", huge), Ok("1".to_string()));
    assert_eq!(run(Operation::Power, "-1", huge), Ok("1".to_string()));
    assert_eq!(run(Operation::Power, "-1", "123456789012345678901234567891"), Ok("-1".to_string()));
    assert_eq!(run(Operation::Power, "2", huge), Err(CalcError::ComputationError));
    assert_eq!(run(Operation::Power, "2", "1.5"), Err(CalcError::InvalidExponent));
    assert_eq!(run(Operation::Power, "0", "0"), Ok("1".to_string()));
    assert_eq!(run(Operation::Power, "-1", "3"), Ok("-1".to_string()));
    assert_eq!(run(Operation::Power, "-2", "3"), Ok("-8".to_string()));
}

#[test]
fn exponent_parity() {
    assert!(exponent_is_odd(&num("7")));
    assert!(!exponent_is_odd(&num("10.00")));
    assert!(!exponent_is_odd(&num("0.000")));
    assert!(exponent_is_odd(&num("123456789012345678901234567891")));
}

#[test]
fn results_keep_the_larger_scale() {
    assert_eq!(sum(&num("1.00"), &num("0")).scale, 2);
    assert_eq!(sum(&num("0"), &num("2.500")).scale, 3);
    assert_eq!(difference(&num("5.0"), &num("0.00")).scale, 2);
    assert_eq!(product(&num("1"), &num("2.50")).scale, 2);
    assert_eq!(product(&num("1.5"), &num("1")).scale, 1);
    assert_eq!(to_canonical_string(&product(&num("1"), &num("2.50"))), "2.5");
}

#[test]
fn square_root_is_non_negative() {
    let r = square_root(&num("0.25")).unwrap();
    assert!(!r.is_negative());
    assert_eq!(to_canonical_string(&r), "0.5");
}
