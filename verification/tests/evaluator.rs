use rpn_calc::{evaluate_rpn, parse_operator, BinOp, EvalError, Token};

fn number(text: &str) -> Token {
    Token::Number(text.to_string())
}

fn operator(text: &str) -> Token {
    Token::Operator(text.to_string())
}

fn read(literal: &String) -> Option<f64> {
    literal.parse::<f64>().ok()
}

fn is_zero(value: &f64) -> bool {
    *value == 0.0
}

fn apply(op: BinOp, left: f64, right: f64) -> f64 {
    match op {
        BinOp::Add => left + right,
        BinOp::Subtract => left - right,
        BinOp::Multiply => left * right,
        BinOp::Divide => left / right,
    }
}

fn value(tokens: Vec<Token>) -> Result<f64, EvalError> {
    evaluate_rpn(tokens, read, is_zero, apply)
}

/// Reduces to the expression written out in full, so that a test sees which
/// operation met which operands.
fn written_out(tokens: Vec<Token>) -> Result<String, EvalError> {
    evaluate_rpn(
        tokens,
        |literal: &String| Some(literal.clone()),
        |_: &String| false,
        |op: BinOp, left: String, right: String| format!("({} {:?} {})", left, op, right),
    )
}

#[test]
fn a_number_alone_is_the_value() {
    assert_eq!(value(vec![number("42")]), Ok(42.0));
}

#[test]
fn an_operator_is_applied_to_the_two_operands_before_it() {
    assert_eq!(value(vec![number("12"), number("3"), operator("+")]), Ok(15.0));
}

#[test]
fn the_left_operand_is_the_one_pushed_first() {
    assert_eq!(value(vec![number("7"), number("2"), operator("-")]), Ok(5.0));
    assert_eq!(value(vec![number("2"), number("7"), operator("-")]), Ok(-5.0));
    assert_eq!(value(vec![number("8"), number("2"), operator("/")]), Ok(4.0));
    assert_eq!(value(vec![number("2"), number("8"), operator("/")]), Ok(0.25));
    assert_eq!(
        written_out(vec![number("a"), number("b"), operator("-")]),
        Ok("(a Subtract b)".to_string())
    );
}

#[test]
fn each_operator_has_its_operation() {
    assert_eq!(value(vec![number("6"), number("3"), operator("+")]), Ok(9.0));
    assert_eq!(value(vec![number("6"), number("3"), operator("-")]), Ok(3.0));
    assert_eq!(value(vec![number("6"), number("3"), operator("*")]), Ok(18.0));
    assert_eq!(value(vec![number("6"), number("3"), operator("/")]), Ok(2.0));
}

#[test]
fn results_are_operands_of_later_operators() {
    let tokens = vec![
        number("1"),
        number("2"),
        operator("+"),
        number("3"),
        number("4"),
        operator("+"),
        operator("*"),
    ];
    assert_eq!(value(tokens.clone()), Ok(21.0));
    assert_eq!(written_out(tokens), Ok("((1 Add 2) Multiply (3 Add 4))".to_string()));
}

#[test]
fn an_operator_takes_the_two_topmost_operands() {
    let tokens = vec![number("1"), number("2"), number("3"), operator("-"), operator("/")];
    assert_eq!(written_out(tokens.clone()), Ok("(1 Divide (2 Subtract 3))".to_string()));
    assert_eq!(value(tokens), Ok(-1.0));
}

#[test]
fn division_need_not_be_whole() {
    assert_eq!(value(vec![number("1"), number("8"), operator("/")]), Ok(0.125));
}

#[test]
fn an_operator_with_no_operand_fails() {
    assert_eq!(value(vec![operator("+")]), Err(EvalError::InsufficientOperands));
}

#[test]
fn an_operator_with_one_operand_fails() {
    assert_eq!(value(vec![number("1"), operator("+")]), Err(EvalError::InsufficientOperands));
}

#[test]
fn the_first_token_that_fails_decides() {
    let tokens = vec![
        number("1"),
        number("2"),
        operator("+"),
        operator("*"),
        number("3"),
        Token::LeftParen,
    ];
    assert_eq!(value(tokens), Err(EvalError::InsufficientOperands));
    let tokens = vec![number("1"), Token::RightParen, operator("+")];
    assert_eq!(value(tokens), Err(EvalError::InvalidToken));
}

#[test]
fn a_missing_operand_is_noticed_before_an_unknown_symbol() {
    assert_eq!(value(vec![number("1"), operator("^")]), Err(EvalError::InsufficientOperands));
}

#[test]
fn an_unknown_symbol_fails() {
    assert_eq!(
        value(vec![number("2"), number("3"), operator("^")]),
        Err(EvalError::InvalidOperator("^".to_string()))
    );
}

#[test]
fn an_unknown_symbol_is_noticed_before_a_zero() {
    assert_eq!(
        value(vec![number("2"), number("0"), operator("%")]),
        Err(EvalError::InvalidOperator("%".to_string()))
    );
}

#[test]
fn a_symbol_of_two_characters_is_unknown() {
    assert_eq!(
        value(vec![number("2"), number("3"), operator("++")]),
        Err(EvalError::InvalidOperator("++".to_string()))
    );
    assert_eq!(
        value(vec![number("2"), number("3"), operator("")]),
        Err(EvalError::InvalidOperator(String::new()))
    );
}

#[test]
fn a_parenthesis_fails() {
    assert_eq!(value(vec![number("1"), Token::LeftParen]), Err(EvalError::InvalidToken));
    assert_eq!(value(vec![Token::RightParen, number("1")]), Err(EvalError::InvalidToken));
}

#[test]
fn two_operands_left_over_fail() {
    assert_eq!(value(vec![number("1"), number("2")]), Err(EvalError::InvalidExpression));
}

#[test]
fn nothing_at_all_fails() {
    assert_eq!(value(Vec::new()), Err(EvalError::InvalidExpression));
}

#[test]
fn division_by_zero_fails() {
    assert_eq!(
        value(vec![number("5"), number("0"), operator("/")]),
        Err(EvalError::DivisionByZero)
    );
}

#[test]
fn division_by_a_difference_of_zero_fails() {
    let tokens = vec![number("5"), number("3"), number("3"), operator("-"), operator("/")];
    assert_eq!(value(tokens), Err(EvalError::DivisionByZero));
}

#[test]
fn zero_divided_is_zero() {
    assert_eq!(value(vec![number("0"), number("5"), operator("/")]), Ok(0.0));
}

#[test]
fn only_division_minds_a_zero_on_the_right() {
    assert_eq!(value(vec![number("5"), number("0"), operator("+")]), Ok(5.0));
    assert_eq!(value(vec![number("5"), number("0"), operator("-")]), Ok(5.0));
    assert_eq!(value(vec![number("5"), number("0"), operator("*")]), Ok(0.0));
}

#[test]
fn a_division_by_zero_comes_before_a_later_failure() {
    let tokens = vec![number("5"), number("0"), operator("/"), operator("+")];
    assert_eq!(value(tokens), Err(EvalError::DivisionByZero));
}

#[test]
fn an_earlier_failure_comes_before_a_division_by_zero() {
    let tokens = vec![operator("+"), number("5"), number("0"), operator("/")];
    assert_eq!(value(tokens), Err(EvalError::InsufficientOperands));
}

#[test]
fn a_literal_that_is_no_number_fails_when_it_is_reached() {
    assert_eq!(value(vec![number("abc")]), Err(EvalError::ParseError("abc".to_string())));
    assert_eq!(value(vec![number("")]), Err(EvalError::ParseError(String::new())));
    assert_eq!(
        value(vec![Token::LeftParen, number("abc")]),
        Err(EvalError::InvalidToken)
    );
}

#[test]
fn a_long_run_of_digits_is_a_number() {
    let digits = "9".repeat(400);
    assert_eq!(value(vec![number(&digits)]), Ok(f64::INFINITY));
}

#[test]
fn the_zero_test_is_asked_about_the_right_operand_of_a_division_only() {
    let asked = std::cell::RefCell::new(Vec::new());
    let result = evaluate_rpn(
        vec![
            number("1"),
            number("2"),
            operator("+"),
            number("4"),
            operator("/"),
            number("0"),
            operator("*"),
        ],
        read,
        |value: &f64| {
            asked.borrow_mut().push(*value);
            *value == 0.0
        },
        apply,
    );
    assert_eq!(result, Ok(0.0));
    assert_eq!(*asked.borrow(), vec![4.0]);
}

#[test]
fn operator_symbols_are_read() {
    assert_eq!(parse_operator(&"+".to_string()), Some(BinOp::Add));
    assert_eq!(parse_operator(&"-".to_string()), Some(BinOp::Subtract));
    assert_eq!(parse_operator(&"*".to_string()), Some(BinOp::Multiply));
    assert_eq!(parse_operator(&"/".to_string()), Some(BinOp::Divide));
    assert_eq!(parse_operator(&"%".to_string()), None);
    assert_eq!(parse_operator(&"".to_string()), None);
    assert_eq!(parse_operator(&"+ ".to_string()), None);
    assert_eq!(parse_operator(&"\u{ff0b}".to_string()), None);
}

#[test]
fn failures_describe_themselves() {
    assert_eq!(EvalError::ParseError("1x".to_string()).message(), "Invalid number: 1x");
    assert_eq!(EvalError::InsufficientOperands.message(), "Insufficient operands for operator");
    assert_eq!(EvalError::DivisionByZero.message(), "Division by zero");
    assert_eq!(EvalError::InvalidOperator("^".to_string()).message(), "Invalid operator: ^");
    assert_eq!(EvalError::InvalidToken.message(), "Invalid token");
    assert_eq!(EvalError::InvalidExpression.message(), "Invalid expression");
}

#[test]
fn the_same_tokens_give_the_same_result() {
    let tokens = vec![number("9"), number("4"), operator("-"), number("2"), operator("*")];
    assert_eq!(value(tokens.clone()), value(tokens.clone()));
    assert_eq!(value(tokens), Ok(10.0));
}
