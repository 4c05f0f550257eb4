use equation_solver::solver::{solve, SolveError};
use equation_solver::tokenizer::{Number, Token};

fn eval(text: &str) -> Result<Number, SolveError> {
    solve(&Token::parse(text))
}

fn eval_int(text: &str) -> i64 {
    match eval(text) {
        Ok(Number::Integer(i)) => i,
        other => panic!("expected an integer result for {:?}, got {:?}", text, other),
    }
}

fn eval_dec_bits(text: &str) -> u64 {
    match eval(text) {
        Ok(Number::Decimal(b)) => b,
        other => panic!("expected a decimal result for {:?}, got {:?}", text, other),
    }
}

#[test]
fn flat_addition() {
    assert_eq!(eval_int("3+4"), 7);
}

#[test]
fn flat_subtraction() {
    assert_eq!(eval_int("10-4"), 6);
}

#[test]
fn flat_multiplication() {
    assert_eq!(eval_int("6*7"), 42);
}

#[test]
fn flat_division_truncates() {
    assert_eq!(eval_int("3/2"), 1);
    assert_eq!(eval_int("9/3"), 3);
}

#[test]
fn flat_modulo() {
    assert_eq!(eval_int("10%3"), 1);
}

#[test]
fn division_truncates_toward_zero() {
    // 0-7 folds to -7 first, then the division truncates toward zero.
    assert_eq!(eval_int("0-7/2"), -3);
    assert_eq!(eval_int("0-7%3"), -1);
}

#[test]
fn addition_wraps_in_64_bits() {
    assert_eq!(eval_int("9223372036854775807+1"), i64::MIN);
}

#[test]
fn decimal_operand_promotes_result() {
    let bits = eval_dec_bits("3+4.5");
    assert_eq!(bits, 7.5f64.to_bits());
    let result = eval("3+4.5").unwrap();
    assert!(result.is_decimal());
    assert!(!result.is_integer());
    assert_eq!(result.as_string(), "7.5");
}

#[test]
fn decimal_addition_matches_doubles() {
    assert_eq!(eval_dec_bits("0.1+0.2"), (0.1f64 + 0.2f64).to_bits());
}

#[test]
fn decimal_subtraction_matches_doubles() {
    assert_eq!(eval_dec_bits("1.5-0.25"), (1.5f64 - 0.25f64).to_bits());
}

#[test]
fn decimal_multiplication_matches_doubles() {
    assert_eq!(eval_dec_bits("1.5*2.0"), (1.5f64 * 2.0f64).to_bits());
}

#[test]
fn decimal_division_matches_doubles() {
    assert_eq!(eval_dec_bits("1.0/3.0"), (1.0f64 / 3.0f64).to_bits());
}

#[test]
fn decimal_modulo_matches_doubles() {
    assert_eq!(eval_dec_bits("5.5%2.0"), (5.5f64 % 2.0f64).to_bits());
}

#[test]
fn integer_promotes_through_conversion() {
    // The integer operand converts to the nearest double before the sum.
    assert_eq!(eval_dec_bits("1+0.5"), (1.0f64 + 0.5f64).to_bits());
}

#[test]
fn left_to_right_no_precedence() {
    assert_eq!(eval_int("2+3*4"), 20);
    assert_eq!(eval_int("10-3-2"), 5);
}

#[test]
fn parentheses_force_grouping() {
    assert_eq!(eval_int("(2+3)*4"), 20);
    assert_eq!(eval_int("2*(3+4)"), 14);
}

#[test]
fn nested_groups_resolve_recursively() {
    assert_eq!(eval_int("((1+2))"), 3);
    assert_eq!(eval_int("((1+2))*(2+0)+1"), 7);
    // A lone number inside parentheses is not a solvable expression.
    assert_eq!(eval("((2))"), Err(SolveError::MalformedExpression));
}

#[test]
fn spaces_are_skipped() {
    assert_eq!(eval_int("2 + 3"), 5);
}

#[test]
fn unmatched_open_paren_is_skipped() {
    assert_eq!(eval_int("(1+2"), 3);
}

#[test]
fn integer_division_by_zero_is_typed_error() {
    assert_eq!(eval("4/0"), Err(SolveError::DivisionByZero));
    assert_eq!(eval("4%0"), Err(SolveError::DivisionByZero));
    assert_eq!(
        SolveError::DivisionByZero.message(),
        "Division by zero!".to_string()
    );
}

#[test]
fn decimal_division_by_zero_is_infinite() {
    let bits = eval_dec_bits("4.0/0");
    assert_eq!(bits, (4.0f64 / 0.0f64).to_bits());
    assert!(f64::from_bits(bits).is_infinite());
}

#[test]
fn empty_input_is_malformed() {
    assert_eq!(eval(""), Err(SolveError::MalformedExpression));
}

#[test]
fn lone_number_is_malformed() {
    assert_eq!(eval("5"), Err(SolveError::MalformedExpression));
    assert_eq!(
        SolveError::MalformedExpression.message(),
        "Unknown case!".to_string()
    );
}

#[test]
fn two_tokens_are_malformed() {
    assert_eq!(eval("5+"), Err(SolveError::MalformedExpression));
}

#[test]
fn operator_in_operand_position_is_an_error() {
    assert_eq!(eval("3++4"), Err(SolveError::OperatorAsOperand));
    assert_eq!(
        SolveError::OperatorAsOperand.message(),
        "First token can't be an operator!".to_string()
    );
}

#[test]
fn error_inside_group_propagates() {
    assert_eq!(eval("(4/0)+1"), Err(SolveError::DivisionByZero));
}

#[test]
fn long_fold_keeps_going() {
    assert_eq!(eval_int("1+2+3+4+5"), 15);
}
