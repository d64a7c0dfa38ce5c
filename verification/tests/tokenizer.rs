use rpn_calc::{classify, tokenize, CharClass, Token};

fn number(text: &str) -> Token {
    Token::Number(text.to_string())
}

fn operator(text: &str) -> Token {
    Token::Operator(text.to_string())
}

#[test]
fn digits_run_together_into_one_number() {
    let lexed = tokenize("12345".to_string());
    assert_eq!(lexed.tokens, vec![number("12345")]);
    assert!(lexed.rejected.is_empty());
}

#[test]
fn empty_text_has_no_tokens() {
    let lexed = tokenize(String::new());
    assert!(lexed.tokens.is_empty());
    assert!(lexed.rejected.is_empty());
}

#[test]
fn every_symbol_is_a_token_of_its_own() {
    let lexed = tokenize("+-*/()".to_string());
    assert_eq!(
        lexed.tokens,
        vec![
            operator("+"),
            operator("-"),
            operator("*"),
            operator("/"),
            Token::LeftParen,
            Token::RightParen,
        ]
    );
    assert!(lexed.rejected.is_empty());
}

#[test]
fn a_symbol_ends_the_number_before_it() {
    let lexed = tokenize("12+3".to_string());
    assert_eq!(lexed.tokens, vec![number("12"), operator("+"), number("3")]);
}

#[test]
fn a_number_ends_with_the_text() {
    let lexed = tokenize("(7".to_string());
    assert_eq!(lexed.tokens, vec![Token::LeftParen, number("7")]);
}

#[test]
fn whitespace_separates_numbers() {
    let lexed = tokenize("1 2".to_string());
    assert_eq!(lexed.tokens, vec![number("1"), number("2")]);
    assert!(lexed.rejected.is_empty());
}

#[test]
fn whitespace_of_every_sort_is_skipped_in_silence() {
    let lexed = tokenize(" 1\t+\n2\r \u{a0}*\u{2003}3 ".to_string());
    assert_eq!(
        lexed.tokens,
        vec![number("1"), operator("+"), number("2"), operator("*"), number("3")]
    );
    assert!(lexed.rejected.is_empty());
}

#[test]
fn unknown_characters_are_reported_in_order_and_left_out() {
    let lexed = tokenize("1a+b2$".to_string());
    assert_eq!(lexed.tokens, vec![number("1"), operator("+"), number("2")]);
    assert_eq!(lexed.rejected, vec!['a', 'b', '$']);
}

#[test]
fn an_unknown_character_separates_numbers() {
    let lexed = tokenize("12x34".to_string());
    assert_eq!(lexed.tokens, vec![number("12"), number("34")]);
    assert_eq!(lexed.rejected, vec!['x']);
}

#[test]
fn a_decimal_point_is_no_part_of_a_number() {
    let lexed = tokenize("1.5".to_string());
    assert_eq!(lexed.tokens, vec![number("1"), number("5")]);
    assert_eq!(lexed.rejected, vec!['.']);
}

#[test]
fn digits_of_other_scripts_are_no_digits() {
    let lexed = tokenize("1\u{663}2".to_string());
    assert_eq!(lexed.tokens, vec![number("1"), number("2")]);
    assert_eq!(lexed.rejected, vec!['\u{663}']);
}

#[test]
fn the_same_character_is_reported_each_time() {
    let lexed = tokenize("??".to_string());
    assert!(lexed.tokens.is_empty());
    assert_eq!(lexed.rejected, vec!['?', '?']);
}

#[test]
fn tokens_spell_the_text_without_what_was_left_out() {
    let text = " (12 + x3)*45 / 6 - 7y ";
    let lexed = tokenize(text.to_string());
    let mut spelled = String::new();
    for token in &lexed.tokens {
        match token {
            Token::Number(literal) => spelled.push_str(literal),
            Token::Operator(symbol) => spelled.push_str(symbol),
            Token::LeftParen => spelled.push('('),
            Token::RightParen => spelled.push(')'),
        }
    }
    assert_eq!(spelled, "(12+3)*45/6-7");
    assert_eq!(lexed.rejected, vec!['x', 'y']);
}

#[test]
fn tokens_are_well_formed() {
    let lexed = tokenize("10*(2+x)-007/ 9".to_string());
    assert_eq!(lexed.tokens.len(), 10);
    for token in &lexed.tokens {
        match token {
            Token::Number(literal) => {
                assert!(!literal.is_empty());
                assert!(literal.chars().all(|c| ('0'..='9').contains(&c)));
            }
            Token::Operator(symbol) => {
                assert!(matches!(symbol.as_str(), "+" | "-" | "*" | "/"));
            }
            Token::LeftParen | Token::RightParen => {}
        }
    }
}

#[test]
fn clean_text_gives_no_report() {
    let lexed = tokenize("( 1 + 2 ) * 3 / 4 - 5".to_string());
    assert!(lexed.rejected.is_empty());
    assert_eq!(lexed.tokens.len(), 11);
}

#[test]
fn leading_zeros_are_kept() {
    let lexed = tokenize("007".to_string());
    assert_eq!(lexed.tokens, vec![number("007")]);
}

#[test]
fn characters_fall_into_their_classes() {
    assert_eq!(classify('0', false), CharClass::Digit);
    assert_eq!(classify('9', false), CharClass::Digit);
    assert_eq!(classify('+', false), CharClass::Operator);
    assert_eq!(classify('-', false), CharClass::Operator);
    assert_eq!(classify('*', false), CharClass::Operator);
    assert_eq!(classify('/', false), CharClass::Operator);
    assert_eq!(classify('(', false), CharClass::LeftParen);
    assert_eq!(classify(')', false), CharClass::RightParen);
    assert_eq!(classify(' ', true), CharClass::Whitespace);
    assert_eq!(classify('\n', true), CharClass::Whitespace);
    assert_eq!(classify('a', false), CharClass::Invalid);
    assert_eq!(classify('.', false), CharClass::Invalid);
    assert_eq!(classify(':', false), CharClass::Invalid);
}

#[test]
fn a_significant_character_keeps_its_class() {
    assert_eq!(classify('5', true), CharClass::Digit);
    assert_eq!(classify('*', true), CharClass::Operator);
    assert_eq!(classify('(', true), CharClass::LeftParen);
    assert_eq!(classify(')', true), CharClass::RightParen);
}
