use ratio_calc::eval::Op;
use ratio_calc::{Error, Rational};

fn eval_display(input: &str) -> String {
    match Rational::run_expr(input) {
        Ok(v) => v.display(),
        Err(e) => panic!("expected a value for {:?}, got {:?}", input, e),
    }
}

fn eval_err(input: &str) -> Error {
    match Rational::run_expr(input) {
        Ok(v) => panic!("expected an error for {:?}, got {}", input, v.display()),
        Err(e) => e,
    }
}

#[test]
fn digits_accumulate_by_addition() {
    // "12" scans as 1 + 2 = 3, so "12+3" is 3 + 3
    assert_eq!(eval_display("12+3"), "6");
}

#[test]
fn digits_accumulate_by_addition_concrete() {
    // "23" scans as 2 + 3 = 5, and 5 + 4 = 9
    assert_eq!(eval_display("23+4"), "9");
}

#[test]
fn first_tier_runs_left_to_right() {
    // 6/3 = 2 first, then 2*2 = 4
    assert_eq!(eval_display("6/3*2"), "4");
}

#[test]
fn multiplication_before_addition() {
    assert_eq!(eval_display("2+3*4"), "14");
}

#[test]
fn subtraction_is_left_associative() {
    assert_eq!(eval_display("9-2-3"), "4");
}

#[test]
fn division_chain() {
    assert_eq!(eval_display("8/2/2"), "2");
}

#[test]
fn spaces_are_ignored() {
    assert_eq!(eval_display("1 + 2"), "3");
}

#[test]
fn fractional_result_uses_mixed_layout() {
    // 7/2 stays a fraction and displays as quotient, remainder, denominator
    assert_eq!(eval_display("7/2"), "31/2");
}

#[test]
fn division_by_zero_operand() {
    assert_eq!(eval_err("1/0"), Error::DivisionByZero);
}

#[test]
fn division_by_zero_aborts_line() {
    assert_eq!(eval_err("5/0*3"), Error::DivisionByZero);
}

#[test]
fn unknown_character_reports_its_index() {
    assert_eq!(eval_err("1+x"), Error::InvalidSyntax(2));
}

#[test]
fn unknown_character_index_counts_from_zero() {
    assert_eq!(eval_err("?"), Error::InvalidSyntax(0));
}

#[test]
fn empty_line_is_invalid() {
    assert_eq!(eval_err(""), Error::InvalidExpr);
}

#[test]
fn all_space_line_is_invalid() {
    assert_eq!(eval_err("   "), Error::InvalidExpr);
}

#[test]
fn single_operand_evaluates_to_itself() {
    assert_eq!(eval_display("7"), "7");
}

#[test]
fn op_compute_applies_the_operator() {
    let a = Rational::from_int(6);
    let b = Rational::from_int(4);
    let sum = Op::Plus.compute(a, b).unwrap();
    assert_eq!(sum.num(), 10);
    assert_eq!(sum.den(), 1);
    let diff = Op::Min.compute(a, b).unwrap();
    assert_eq!(diff.num(), 2);
    let prod = Op::Star.compute(a, b).unwrap();
    assert_eq!(prod.num(), 24);
    let quot = Op::Slash.compute(a, b).unwrap();
    assert_eq!(quot.num(), 3);
    assert_eq!(quot.den(), 2);
}

#[test]
fn op_compute_checks_division() {
    let a = Rational::from_int(1);
    let zero = Rational::from_int(0);
    match Op::Slash.compute(a, zero) {
        Err(e) => assert_eq!(e, Error::DivisionByZero),
        Ok(_) => panic!("division by a zero-valued fraction must fail"),
    }
}
