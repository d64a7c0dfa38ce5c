use rpn_calc::{evaluate_rpn, infix_to_rpn, tokenize, BinOp, EvalError, Token};

fn number(text: &str) -> Token {
    Token::Number(text.to_string())
}

fn operator(text: &str) -> Token {
    Token::Operator(text.to_string())
}

fn value(rpn: Vec<Token>) -> Result<f64, EvalError> {
    evaluate_rpn(
        rpn,
        |literal: &String| literal.parse::<f64>().ok(),
        |value: &f64| *value == 0.0,
        |op: BinOp, left: f64, right: f64| match op {
            BinOp::Add => left + right,
            BinOp::Subtract => left - right,
            BinOp::Multiply => left * right,
            BinOp::Divide => left / right,
        },
    )
}

fn evaluate(text: &str) -> Result<f64, EvalError> {
    value(infix_to_rpn(tokenize(text.to_string()).tokens))
}

#[test]
fn twelve_plus_three_is_fifteen() {
    let lexed = tokenize("12+3".to_string());
    assert_eq!(lexed.tokens, vec![number("12"), operator("+"), number("3")]);
    assert!(lexed.rejected.is_empty());
    let rpn = infix_to_rpn(lexed.tokens);
    assert_eq!(rpn, vec![number("12"), number("3"), operator("+")]);
    assert_eq!(value(rpn), Ok(15.0));
}

#[test]
fn parentheses_are_evaluated_first() {
    let rpn = infix_to_rpn(tokenize("(1+2)*3".to_string()).tokens);
    assert_eq!(
        rpn,
        vec![number("1"), number("2"), operator("+"), number("3"), operator("*")]
    );
    assert_eq!(value(rpn), Ok(9.0));
}

#[test]
fn operators_are_evaluated_from_left_to_right() {
    let rpn = infix_to_rpn(tokenize("2+3*4".to_string()).tokens);
    assert_eq!(
        rpn,
        vec![number("2"), number("3"), operator("+"), number("4"), operator("*")]
    );
    assert_eq!(value(rpn), Ok(20.0));
}

#[test]
fn a_lone_operator_lacks_operands() {
    let rpn = infix_to_rpn(tokenize("+".to_string()).tokens);
    assert_eq!(rpn, vec![operator("+")]);
    assert_eq!(value(rpn), Err(EvalError::InsufficientOperands));
}

#[test]
fn five_by_zero_is_a_division_by_zero() {
    assert_eq!(evaluate("5/0"), Err(EvalError::DivisionByZero));
}

#[test]
fn two_numbers_side_by_side_are_no_expression() {
    let rpn = infix_to_rpn(tokenize("1 2".to_string()).tokens);
    assert_eq!(rpn, vec![number("1"), number("2")]);
    assert_eq!(value(rpn), Err(EvalError::InvalidExpression));
}

#[test]
fn empty_text_is_no_expression() {
    let lexed = tokenize(String::new());
    assert!(lexed.tokens.is_empty());
    let rpn = infix_to_rpn(lexed.tokens);
    assert!(rpn.is_empty());
    assert_eq!(value(rpn), Err(EvalError::InvalidExpression));
}

#[test]
fn whole_expressions_have_values() {
    assert_eq!(evaluate("7"), Ok(7.0));
    assert_eq!(evaluate("(7)"), Ok(7.0));
    assert_eq!(evaluate("10-4-3"), Ok(3.0));
    assert_eq!(evaluate("10-(4-3)"), Ok(9.0));
    assert_eq!(evaluate("100/10/5"), Ok(2.0));
    assert_eq!(evaluate("100/(10/5)"), Ok(50.0));
    assert_eq!(evaluate("2*3+4"), Ok(10.0));
    assert_eq!(evaluate("2*(3+4)"), Ok(14.0));
    assert_eq!(evaluate("((1+2)*(3+4))-1"), Ok(20.0));
    assert_eq!(evaluate(" 1 +\t2 "), Ok(3.0));
    assert_eq!(evaluate("1/4"), Ok(0.25));
}

#[test]
fn whole_expressions_fail_in_the_arithmetic_only() {
    for text in ["1", "1+2", "(1)", "((1+2))", "1+(2*(3-4))/5", "(1+2)*(3+4)", "1/0", "(0)/(0)"] {
        match evaluate(text) {
            Ok(_) | Err(EvalError::DivisionByZero) | Err(EvalError::ParseError(_)) => {}
            Err(other) => panic!("{:?} failed with {:?}", text, other),
        }
    }
}

#[test]
fn an_unclosed_parenthesis_is_an_invalid_token() {
    assert_eq!(evaluate("(1+2"), Err(EvalError::InvalidToken));
}

#[test]
fn a_stray_closing_parenthesis_goes_unnoticed() {
    assert_eq!(evaluate("1+2)"), Ok(3.0));
}

#[test]
fn a_dropped_character_changes_the_expression() {
    let lexed = tokenize("1+a2".to_string());
    assert_eq!(lexed.rejected, vec!['a']);
    assert_eq!(value(infix_to_rpn(lexed.tokens)), Ok(3.0));
}

#[test]
fn a_trailing_operator_lacks_an_operand() {
    assert_eq!(evaluate("1+"), Err(EvalError::InsufficientOperands));
}

#[test]
fn a_sign_is_not_understood() {
    assert_eq!(evaluate("-5"), Err(EvalError::InsufficientOperands));
}

#[test]
fn division_by_zero_in_parentheses() {
    assert_eq!(evaluate("1/(2-2)"), Err(EvalError::DivisionByZero));
}

#[test]
fn empty_parentheses_are_no_expression() {
    assert_eq!(evaluate("()"), Err(EvalError::InvalidExpression));
}
