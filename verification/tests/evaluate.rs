use expr_eval::error::ExprError;
use expr_eval::expr::{evaluate, Expr};

#[test]
fn precedence_multiplication_before_addition() {
    assert_eq!(evaluate("2 + 3 * 4"), Ok(14));
}

#[test]
fn precedence_power_before_multiplication() {
    assert_eq!(evaluate("2 * 3 ^ 2"), Ok(18));
    assert_eq!(evaluate("2 ^ 2 * 3"), Ok(12));
}

#[test]
fn left_associativity_of_subtraction() {
    assert_eq!(evaluate("10 - 3 - 2"), Ok(5));
}

#[test]
fn left_associativity_of_division() {
    assert_eq!(evaluate("100 / 5 / 2"), Ok(10));
}

#[test]
fn right_associativity_of_power() {
    assert_eq!(evaluate("2 ^ 3 ^ 2"), Ok(512));
}

#[test]
fn grouping_overrides_precedence() {
    assert_eq!(evaluate("(2 + 3) * 4"), Ok(20));
}

#[test]
fn nested_grouping() {
    assert_eq!(evaluate("((2))"), Ok(2));
    assert_eq!(evaluate("(((1 + 2) * 3))"), Ok(9));
}

#[test]
fn whitespace_is_insignificant() {
    assert_eq!(evaluate("92 + 5 + 5 * 27 - (92 - 12) / 4 + 26"), Ok(238));
    assert_eq!(evaluate("92+5+5*27-(92-12)/4+26"), Ok(238));
    assert_eq!(evaluate("  92 +  5\t+ 5 * 27 -\n(92 - 12) / 4 + 26  "), Ok(238));
}

#[test]
fn missing_close_paren_is_an_error() {
    assert_eq!(evaluate("(1 + 2"), Err(ExprError::ExpectedCloseParen));
}

#[test]
fn trailing_token_is_an_error() {
    assert_eq!(evaluate("1 + 2)"), Err(ExprError::UnexpectedTrailingInput));
}

#[test]
fn empty_input_is_an_error() {
    assert_eq!(evaluate(""), Err(ExprError::ExpectedOperand));
}

#[test]
fn whitespace_only_input_is_an_error() {
    assert_eq!(evaluate("   "), Err(ExprError::ExpectedOperand));
}

#[test]
fn operator_without_operand_is_an_error() {
    assert_eq!(evaluate("-1"), Err(ExprError::ExpectedOperand));
    assert_eq!(evaluate("2 +"), Err(ExprError::ExpectedOperand));
}

#[test]
fn evaluation_is_repeatable() {
    let src = "92 + 5 + 5 * 27 - (92 - 12) / 4 + 26";
    let first = evaluate(src);
    let second = evaluate(src);
    assert_eq!(first, second);
    let bad = "(1 + 2";
    assert_eq!(evaluate(bad), evaluate(bad));
}

#[test]
fn digit_run_is_greedy() {
    assert_eq!(evaluate("123"), Ok(123));
}

#[test]
fn division_truncates_toward_zero() {
    assert_eq!(evaluate("7 / 2"), Ok(3));
    assert_eq!(evaluate("(1 - 8) / 3"), Ok(-2));
}

#[test]
fn division_by_zero_is_an_error() {
    assert_eq!(evaluate("1 / 0"), Err(ExprError::ComputeFailed));
}

#[test]
fn negative_exponent_is_an_error() {
    assert_eq!(evaluate("2 ^ (1 - 2)"), Err(ExprError::ComputeFailed));
}

#[test]
fn power_edge_values() {
    assert_eq!(evaluate("0 ^ 0"), Ok(1));
    assert_eq!(evaluate("0 ^ 5"), Ok(0));
    assert_eq!(evaluate("1 ^ 1000"), Ok(1));
    assert_eq!(evaluate("2 ^ 30"), Ok(1073741824));
    assert_eq!(evaluate("(0 - 2) ^ 31"), Ok(i32::MIN));
}

#[test]
fn power_overflow_is_an_error() {
    assert_eq!(evaluate("2 ^ 31"), Err(ExprError::ComputeFailed));
    assert_eq!(evaluate("10 ^ 100"), Err(ExprError::ComputeFailed));
}

#[test]
fn addition_overflow_is_an_error() {
    assert_eq!(evaluate("2147483647 + 1"), Err(ExprError::ComputeFailed));
}

#[test]
fn multiplication_overflow_is_an_error() {
    assert_eq!(evaluate("65536 * 65536"), Err(ExprError::ComputeFailed));
}

#[test]
fn minimum_divided_by_minus_one_is_an_error() {
    assert_eq!(
        evaluate("(0 - 2147483647 - 1) / (0 - 1)"),
        Err(ExprError::ComputeFailed)
    );
}

#[test]
fn largest_number_literal() {
    assert_eq!(evaluate("2147483647"), Ok(2147483647));
}

#[test]
fn number_literal_overflow_ends_the_stream() {
    assert_eq!(evaluate("2147483648"), Err(ExprError::ExpectedOperand));
}

#[test]
fn unrecognized_character_ends_the_stream() {
    assert_eq!(evaluate("2 + x"), Err(ExprError::ExpectedOperand));
    assert_eq!(evaluate("1 @ 2"), Ok(1));
}

#[test]
fn evaluator_over_its_own_tokens() {
    let mut e = Expr::new("2 + 2");
    assert_eq!(e.eval(), Ok(4));
}
