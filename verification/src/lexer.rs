//! Splitting of expression text into tokens.
//!
//! A number is a longest run of digits; an operator symbol or a parenthesis is
//! a token by itself. Every other character separates tokens and is left out:
//! whitespace silently, anything else with a report.

use vstd::prelude::*;
use crate::chars::{classify, is_digit, is_operator_symbol, is_rejected, CharClass};
use crate::lexer_laws::lex_tokens_well_formed;
use crate::token::{Token, TokenView};

verus! {

/// The tokens of a text and the characters that were reported as invalid, both
/// in the order of the text.
#[derive(Clone, Debug, PartialEq, Eq)]
pub struct Lexed {
    pub tokens: Vec<Token>,
    pub rejected: Vec<char>,
}

/// Whether `text` holds nothing but decimal digits.
pub open spec fn all_digits(text: Seq<char>) -> bool {
    forall|i: int| 0 <= i < text.len() ==> is_digit(#[trigger] text[i])
}

/// The length of the longest run of digits that `text` starts with.
pub open spec fn digit_run(text: Seq<char>) -> nat
    decreases text.len(),
{
    if text.len() > 0 && is_digit(text[0]) {
        1 + digit_run(text.skip(1))
    } else {
        0
    }
}

/// What a character other than a digit adds to the tokens: a parenthesis or
/// an operator is a token by itself, and anything else adds nothing.
pub open spec fn symbol_tokens(c: char) -> Seq<TokenView> {
    if c == '(' {
        seq![TokenView::LeftParen]
    } else if c == ')' {
        seq![TokenView::RightParen]
    } else if is_operator_symbol(c) {
        seq![TokenView::Operator(seq![c])]
    } else {
        Seq::empty()
    }
}

/// The tokens of `text`: each longest run of digits is a number, and every
/// other character adds what [`symbol_tokens`] says.
pub open spec fn lex(text: Seq<char>) -> Seq<TokenView>
    decreases text.len(),
    via lex_decreases
{
    if text.len() == 0 {
        Seq::empty()
    } else if is_digit(text[0]) {
        let n = digit_run(text) as int;
        seq![TokenView::Number(text.take(n))] + lex(text.skip(n))
    } else {
        symbol_tokens(text[0]) + lex(text.skip(1))
    }
}

#[via_fn]
proof fn lex_decreases(text: Seq<char>) {
    lemma_digit_run_bounds(text);
}

/// The test for characters that are reported as invalid.
pub open spec fn rejected() -> spec_fn(char) -> bool {
    |c: char| is_rejected(c)
}

/// The characters of `text` that are reported as invalid, in their order.
pub open spec fn rejected_chars(text: Seq<char>) -> Seq<char> {
    text.filter(rejected())
}

/// A run of digits is no longer than the text, and not empty when the text
/// starts with a digit.
pub(crate) proof fn lemma_digit_run_bounds(text: Seq<char>)
    ensures
        digit_run(text) <= text.len(),
        text.len() > 0 && is_digit(text[0]) ==> digit_run(text) >= 1,
        forall|i: int| 0 <= i < digit_run(text) ==> is_digit(#[trigger] text[i]),
        digit_run(text) < text.len() ==> !is_digit(text[digit_run(text) as int]),
    decreases text.len(),
{
    if text.len() > 0 && is_digit(text[0]) {
        let tail = text.skip(1);
        lemma_digit_run_bounds(tail);
        assert forall|i: int| 0 <= i < digit_run(text) implies is_digit(#[trigger] text[i]) by {
            if i > 0 {
                assert(text[i] == tail[i - 1]);
            }
        }
        if digit_run(text) < text.len() {
            assert(text[digit_run(text) as int] == tail[digit_run(tail) as int]);
        }
    }
}

/// The number that a run of digits makes, if the run is not empty.
pub open spec fn pending_number(digits: Seq<char>) -> Seq<TokenView> {
    if digits.len() > 0 {
        seq![TokenView::Number(digits)]
    } else {
        Seq::empty()
    }
}

/// Digits followed by something that is no digit are read as one number, and
/// the rest is read by itself.
proof fn lemma_lex_after_digits(digits: Seq<char>, rest: Seq<char>)
    requires
        all_digits(digits),
        rest.len() == 0 || !is_digit(rest[0]),
    ensures
        lex(digits + rest) == pending_number(digits) + lex(rest),
{
    let text = digits + rest;
    if digits.len() == 0 {
        assert(text =~= rest);
        assert(pending_number(digits) + lex(rest) =~= lex(rest));
    } else {
        lemma_digit_run_bounds(text);
        let n = digit_run(text);
        assert(text[0] == digits[0]);
        if n < digits.len() {
            assert(text[n as int] == digits[n as int]);
        }
        if n > digits.len() {
            assert(text[digits.len() as int] == rest[0]);
        }
        assert(text.take(n as int) =~= digits);
        assert(text.skip(n as int) =~= rest);
    }
}

/// Ends the number in progress, if there is one.
fn flush(tokens: &mut Vec<Token>, pending: &mut String)
    ensures
        final(pending)@.len() == 0,
        final(tokens).deep_view() == old(tokens).deep_view() + pending_number(old(pending)@),
{
    if !pending.as_str().is_empty() {
        let mut literal = String::new();
        std::mem::swap(&mut literal, pending);
        tokens.push(Token::Number(literal));
    }
    assert(tokens.deep_view() =~= old(tokens).deep_view() + pending_number(old(pending)@));
}

/// Splits `expression` into tokens.
pub fn tokenize(expression: String) -> (lexed: Lexed)
    ensures
        lexed.tokens.deep_view() == lex(expression@),
        lexed.rejected@ == rejected_chars(expression@),
        forall|i: int|
            0 <= i < lexed.tokens@.len() ==> (#[trigger] lexed.tokens@[i])@.well_formed(),
{
    let ghost text = expression@;
    let mut tokens: Vec<Token> = Vec::new();
    let mut rejected: Vec<char> = Vec::new();
    let mut pending = String::new();
    proof {
        reveal(Seq::filter);
        assert(pending@ + text.skip(0) =~= text);
        assert(tokens.deep_view() + lex(text) =~= lex(text));
        assert(text.take(0) =~= Seq::<char>::empty());
    }
    for c in it: expression.chars()
        invariant
            it.seq() == text,
            all_digits(pending@),
            tokens.deep_view() + lex(pending@ + text.skip(it.index() as int)) == lex(text),
            rejected@ == rejected_chars(text.take(it.index() as int)),
    {
        let ghost rest = text.skip(it.index() as int);
        let ghost read = tokens.deep_view();
        let ghost digits = pending@;
        proof {
            reveal(Seq::filter);
            assert(rest[0] == c);
            assert(rest.skip(1) =~= text.skip(it.index() + 1));
            assert(text.take(it.index() + 1).drop_last() =~= text.take(it.index() as int));
            assert(text.take(it.index() + 1).last() == c);
        }
        let class = classify(c, c.is_whitespace());
        match class {
            CharClass::Digit => {
                pending.push(c);
                assert(pending@ + rest.skip(1) =~= digits + rest);
            },
            _ => {
                flush(&mut tokens, &mut pending);
                match class {
                    CharClass::Operator => {
                        let mut symbol = String::new();
                        symbol.push(c);
                        assert(symbol@ =~= seq![c]);
                        tokens.push(Token::Operator(symbol));
                    },
                    CharClass::LeftParen => {
                        tokens.push(Token::LeftParen);
                    },
                    CharClass::RightParen => {
                        tokens.push(Token::RightParen);
                    },
                    CharClass::Invalid => {
                        rejected.push(c);
                    },
                    _ => {},
                }
                proof {
                    lemma_lex_after_digits(digits, rest);
                    assert(tokens.deep_view() =~= read + pending_number(digits) + symbol_tokens(c));
                    assert(lex(rest) =~= symbol_tokens(c) + lex(rest.skip(1)));
                    assert(pending@ + rest.skip(1) =~= rest.skip(1));
                    assert(tokens.deep_view() + lex(rest.skip(1)) =~= read + (pending_number(
                        digits,
                    ) + (symbol_tokens(c) + lex(rest.skip(1)))));
                }
            },
        }
    }
    let ghost read = tokens.deep_view();
    let ghost digits = pending@;
    flush(&mut tokens, &mut pending);
    proof {
        let rest = text.skip(text.len() as int);
        assert(rest =~= Seq::<char>::empty());
        assert(text.take(text.len() as int) =~= text);
        lemma_lex_after_digits(digits, rest);
        assert(read + (pending_number(digits) + lex(rest)) =~= tokens.deep_view());
        lex_tokens_well_formed(text);
        assert forall|i: int| 0 <= i < tokens@.len() implies (#[trigger] tokens@[i])@.well_formed() by {
            assert(tokens@[i]@ == tokens.deep_view()[i]);
        }
    }
    Lexed { tokens, rejected }
}

} // verus!
