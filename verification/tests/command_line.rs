use rpn_calc::expression_from_args;

fn args(words: &[&str]) -> Vec<String> {
    words.iter().map(|w| w.to_string()).collect()
}

#[test]
fn one_word_is_the_expression() {
    assert_eq!(expression_from_args(&args(&["calc", "-text", "1+2"])), Some("1+2".to_string()));
}

#[test]
fn words_are_joined_with_single_spaces() {
    assert_eq!(
        expression_from_args(&args(&["calc", "-text", "1", "+", "2"])),
        Some("1 + 2".to_string())
    );
}

#[test]
fn empty_words_still_count() {
    assert_eq!(
        expression_from_args(&args(&["calc", "-text", "", "1", ""])),
        Some(" 1 ".to_string())
    );
    assert_eq!(expression_from_args(&args(&["calc", "-text", ""])), Some(String::new()));
}

#[test]
fn the_flag_alone_is_not_enough() {
    assert_eq!(expression_from_args(&args(&["calc", "-text"])), None);
}

#[test]
fn no_arguments_at_all() {
    assert_eq!(expression_from_args(&args(&["calc"])), None);
    assert_eq!(expression_from_args(&args(&[])), None);
}

#[test]
fn another_flag_is_refused() {
    assert_eq!(expression_from_args(&args(&["calc", "-txt", "1+2"])), None);
    assert_eq!(expression_from_args(&args(&["calc", "--text", "1+2"])), None);
    assert_eq!(expression_from_args(&args(&["calc", "1+2", "-text"])), None);
}

#[test]
fn the_flag_is_a_word_like_any_other_later_on() {
    assert_eq!(
        expression_from_args(&args(&["calc", "-text", "-text", "1"])),
        Some("-text 1".to_string())
    );
}
