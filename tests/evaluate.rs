use calculator::calculator::{evaluate, Calculator};
use calculator::token::{CalcError, TokenType};

fn eval(s: &str) -> Result<i32, CalcError> {
    evaluate(s.to_string())
}

#[test]
fn left_associative_subtraction() {
    assert_eq!(eval("1-2-3"), Ok(-4));
}

#[test]
fn left_associative_division() {
    assert_eq!(eval("8/4/2"), Ok(1));
}

#[test]
fn multiplication_binds_tighter() {
    assert_eq!(eval("2+3*4"), Ok(14));
}

#[test]
fn parentheses_override_precedence() {
    assert_eq!(eval("(2+3)*4"), Ok(20));
}

#[test]
fn unary_minus_on_number() {
    assert_eq!(eval("-5+3"), Ok(-2));
}

#[test]
fn unary_minus_on_parenthesis() {
    assert_eq!(eval("-(2+3)"), Ok(-5));
}

#[test]
fn surrounding_white_space_is_ignored() {
    assert_eq!(eval("  1 +  2 "), Ok(3));
    assert_eq!(eval("  1 +  2 "), eval("1+2"));
}

#[test]
fn unicode_white_space_is_ignored() {
    assert_eq!(eval("\t4\u{a0}*\u{3000}5\n"), Ok(20));
}

#[test]
fn inserted_white_space_keeps_result() {
    let plain = "(12+3)*-4/5-6";
    let spaced = " ( 12 + 3 ) * - 4 / 5 - 6 ";
    assert_eq!(eval(plain), Ok(-18));
    assert_eq!(eval(spaced), eval(plain));
}

#[test]
fn division_by_zero_is_an_error() {
    assert_eq!(eval("5/0"), Err(CalcError::DivisionByZero));
}

#[test]
fn division_by_zero_expression_is_an_error() {
    assert_eq!(eval("1/(2-2)"), Err(CalcError::DivisionByZero));
}

#[test]
fn trailing_operator_is_illegal_primary() {
    assert_eq!(eval("2+"), Err(CalcError::IllegalPrimary));
}

#[test]
fn unclosed_parenthesis_is_missing_paren() {
    assert_eq!(eval("(1+2"), Err(CalcError::MissingCloseParen));
}

#[test]
fn two_numbers_are_trailing_input() {
    assert_eq!(eval("1 2"), Err(CalcError::TrailingInput));
}

#[test]
fn stray_close_paren_is_trailing_input() {
    assert_eq!(eval("1)"), Err(CalcError::TrailingInput));
}

#[test]
fn empty_input_is_illegal_primary() {
    assert_eq!(eval(""), Err(CalcError::IllegalPrimary));
    assert_eq!(eval("   "), Err(CalcError::IllegalPrimary));
}

#[test]
fn unknown_character_is_reported() {
    assert_eq!(eval("2+x"), Err(CalcError::UnknownToken('x')));
}

#[test]
fn unknown_character_after_complete_expression_is_trailing_first() {
    // the scanner stops at the second number; the `$` is never reached
    assert_eq!(eval("1 2 $"), Err(CalcError::TrailingInput));
}

#[test]
fn unary_minus_needs_operand() {
    assert_eq!(eval("-*3"), Err(CalcError::UnaryMinusOperand));
    assert_eq!(eval("--3"), Err(CalcError::UnaryMinusOperand));
}

#[test]
fn double_negation_through_parentheses() {
    assert_eq!(eval("-(-3)"), Ok(3));
    assert_eq!(eval("1--5"), Ok(6));
}

#[test]
fn leading_zeros_read_as_decimal() {
    assert_eq!(eval("007"), Ok(7));
    assert_eq!(eval("0010+1"), Ok(11));
}

#[test]
fn division_truncates_toward_zero() {
    assert_eq!(eval("7/2"), Ok(3));
    assert_eq!(eval("-7/2"), Ok(-3));
    assert_eq!(eval("7/-2"), Ok(-3));
    assert_eq!(eval("-7/-2"), Ok(3));
}

#[test]
fn largest_literal_fits() {
    assert_eq!(eval("2147483647"), Ok(2147483647));
    assert_eq!(eval("-2147483647-1"), Ok(-2147483648));
}

#[test]
fn literal_too_large_overflows() {
    assert_eq!(eval("2147483648"), Err(CalcError::Overflow));
}

#[test]
fn arithmetic_overflow_is_reported() {
    assert_eq!(eval("2147483647+1"), Err(CalcError::Overflow));
    assert_eq!(eval("65536*65536"), Err(CalcError::Overflow));
    assert_eq!(eval("(-2147483647-1)/-1"), Err(CalcError::Overflow));
    assert_eq!(eval("-(-2147483647-1)"), Err(CalcError::Overflow));
}

#[test]
fn scanner_walks_tokens() {
    let mut c = Calculator::new("  12*(3".to_string(), false);
    assert_eq!(c.current_token, TokenType::Unset);
    assert_eq!(c.get_token(), Ok(()));
    assert_eq!(c.current_token, TokenType::Number);
    assert_eq!(c.number_val, 12);
    assert_eq!(c.current_index, 4);
    assert_eq!(c.get_token(), Ok(()));
    assert_eq!(c.current_token, TokenType::Mul);
    assert_eq!(c.get_token(), Ok(()));
    assert_eq!(c.current_token, TokenType::LeftParen);
    assert_eq!(c.get_token(), Ok(()));
    assert_eq!(c.current_token, TokenType::Number);
    assert_eq!(c.number_val, 3);
    assert_eq!(c.get_token(), Ok(()));
    assert_eq!(c.current_token, TokenType::End);
    assert_eq!(c.current_index, 7);
    assert_eq!(c.get_token(), Ok(()));
    assert_eq!(c.current_token, TokenType::End);
    assert_eq!(c.current_index, 7);
}

#[test]
fn new_reads_characters() {
    let c = Calculator::new("a\u{e9}b".to_string(), true);
    assert_eq!(c.src_chars, vec!['a', '\u{e9}', 'b']);
    assert_eq!(c.current_index, 0);
    assert!(c.debug_mode);
}

#[test]
fn grammar_functions_leave_cursor_past_their_part() {
    let mut c = Calculator::new("2*3+4)".to_string(), false);
    assert_eq!(c.get_token(), Ok(()));
    assert_eq!(c.eval_mul_div_expr(), Ok(6));
    assert_eq!(c.current_token, TokenType::Add);
    assert_eq!(c.get_token(), Ok(()));
    assert_eq!(c.eval_primary_expr(), Ok(4));
    assert_eq!(c.current_token, TokenType::RightParen);
}

#[test]
fn expression_value_then_end() {
    let mut c = Calculator::new("(1+2)*3-4".to_string(), false);
    assert_eq!(c.get_token(), Ok(()));
    assert_eq!(c.eval_expr(), Ok(5));
    assert_eq!(c.current_token, TokenType::End);
    let mut d = Calculator::new("1+2*3".to_string(), false);
    assert_eq!(d.get_token(), Ok(()));
    assert_eq!(d.eval_add_sub_expr(), Ok(7));
}
