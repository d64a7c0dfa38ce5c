//! What holds of every tokenization.

use vstd::prelude::*;
use crate::chars::{is_digit, is_significant, is_unicode_whitespace};
use crate::lexer::{
    digit_run, lemma_digit_run_bounds, lex, rejected, rejected_chars, symbol_tokens,
};
use crate::seqs::{lemma_filter_all, lemma_filter_none, lemma_filter_one};
use crate::token::{spelling, TokenView};

verus! {

/// The test for characters that end up in a token.
pub open spec fn significant() -> spec_fn(char) -> bool {
    |c: char| is_significant(c)
}

/// The characters of `text` that end up in a token, in their order.
pub open spec fn significant_chars(text: Seq<char>) -> Seq<char> {
    text.filter(significant())
}

/// Spelling a token followed by more tokens.
proof fn lemma_spelling_cons(token: TokenView, rest: Seq<TokenView>)
    ensures
        spelling(seq![token] + rest) == token.text() + spelling(rest),
{
    let all = seq![token] + rest;
    assert(all[0] == token);
    assert(all.skip(1) =~= rest);
}

/// Every token that the tokenizer makes is well formed: a number is a
/// non-empty run of digits, an operator is one of the four symbols.
pub proof fn lex_tokens_well_formed(text: Seq<char>)
    ensures
        forall|i: int| 0 <= i < lex(text).len() ==> (#[trigger] lex(text)[i]).well_formed(),
    decreases text.len(),
{
    if text.len() == 0 {
    } else if is_digit(text[0]) {
        lemma_digit_run_bounds(text);
        let n = digit_run(text) as int;
        let rest = lex(text.skip(n));
        lex_tokens_well_formed(text.skip(n));
        assert forall|i: int| 0 <= i < lex(text).len() implies (#[trigger] lex(
            text,
        )[i]).well_formed() by {
            if i > 0 {
                assert(lex(text)[i] == rest[i - 1]);
            }
        }
    } else {
        let rest = lex(text.skip(1));
        lex_tokens_well_formed(text.skip(1));
        let first = symbol_tokens(text[0]);
        assert forall|i: int| 0 <= i < lex(text).len() implies (#[trigger] lex(
            text,
        )[i]).well_formed() by {
            if i >= first.len() {
                assert(lex(text)[i] == rest[i - first.len()]);
            }
        }
    }
}

/// No digit, operator symbol or parenthesis is lost or moved: the tokens,
/// spelled one after the other, are the text without the characters that
/// belong to no token.
pub proof fn lex_keeps_significant(text: Seq<char>)
    ensures
        spelling(lex(text)) == significant_chars(text),
    decreases text.len(),
{
    let keep = significant();
    if text.len() == 0 {
        lemma_filter_none(text, keep);
    } else if is_digit(text[0]) {
        lemma_digit_run_bounds(text);
        let n = digit_run(text) as int;
        let digits = text.take(n);
        let rest = text.skip(n);
        lex_keeps_significant(rest);
        lemma_spelling_cons(TokenView::Number(digits), lex(rest));
        assert(text =~= digits + rest);
        Seq::filter_distributes_over_add(digits, rest, keep);
        lemma_filter_all(digits, keep);
    } else {
        let c = text[0];
        let rest = text.skip(1);
        lex_keeps_significant(rest);
        assert(text =~= seq![c] + rest);
        Seq::filter_distributes_over_add(seq![c], rest, keep);
        lemma_filter_one(c, keep);
        if symbol_tokens(c).len() > 0 {
            let token = symbol_tokens(c)[0];
            assert(symbol_tokens(c) =~= seq![token]);
            lemma_spelling_cons(token, lex(rest));
        } else {
            assert(symbol_tokens(c) + lex(rest) =~= lex(rest));
            assert(Seq::<char>::empty() + significant_chars(rest) =~= significant_chars(rest));
        }
    }
}

/// A text of digits, operator symbols, parentheses and whitespace gives no
/// report: whatever the tokenizer leaves out of such a text is whitespace.
pub proof fn lex_reports_nothing_in_clean_text(text: Seq<char>)
    requires
        forall|i: int|
            0 <= i < text.len() ==> is_significant(#[trigger] text[i]) || is_unicode_whitespace(
                text[i],
            ),
    ensures
        rejected_chars(text) == Seq::<char>::empty(),
        spelling(lex(text)) == significant_chars(text),
{
    lemma_filter_none(text, rejected());
    lex_keeps_significant(text);
}

} // verus!
