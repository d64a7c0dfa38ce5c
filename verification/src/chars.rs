//! The characters an expression is written with, sorted into classes.

use vstd::prelude::*;

verus! {

/// What `char::is_whitespace` of the standard library answers for `c`: whether
/// the character carries the Unicode `White_Space` property. The set itself is
/// not written out here.
pub uninterp spec fn is_unicode_whitespace(c: char) -> bool;

/// `char::is_whitespace`, taken without proof: its answer depends on the
/// character alone, and [`is_unicode_whitespace`] is the name for it.
pub assume_specification[ char::is_whitespace ](c: char) -> (r: bool)
    ensures
        r == is_unicode_whitespace(c),
;

/// `String::push`, taken without proof: the string afterwards is the string
/// before with `c` appended as its last character.
pub assume_specification[ String::push ](s: &mut String, c: char)
    ensures
        final(s)@ == old(s)@.push(c),
;

/// Whether `c` is one of the ten decimal digits `0` to `9`.
pub open spec fn is_digit(c: char) -> bool {
    '0' <= c <= '9'
}

/// Whether `c` is one of the four operator symbols.
pub open spec fn is_operator_symbol(c: char) -> bool {
    c == '+' || c == '-' || c == '*' || c == '/'
}

/// Whether `c` is a parenthesis.
pub open spec fn is_paren(c: char) -> bool {
    c == '(' || c == ')'
}

/// Whether `c` ends up in some token: digits, operator symbols and
/// parentheses do, everything else is left out of the token sequence.
pub open spec fn is_significant(c: char) -> bool {
    is_digit(c) || is_operator_symbol(c) || is_paren(c)
}

/// What the tokenizer does with one character.
#[derive(Clone, Copy, Debug, PartialEq, Eq, Structural)]
pub enum CharClass {
    /// Part of a number literal.
    Digit,
    /// One of `+ - * /`.
    Operator,
    /// `(`
    LeftParen,
    /// `)`
    RightParen,
    /// Skipped silently.
    Whitespace,
    /// Skipped and reported.
    Invalid,
}

/// The class of `c`, given whether the standard library counts it as
/// whitespace. A significant character keeps its class whatever `whitespace`
/// says; of the others, whitespace is skipped silently and the rest is invalid.
pub open spec fn class_of(c: char, whitespace: bool) -> CharClass {
    if is_digit(c) {
        CharClass::Digit
    } else if is_operator_symbol(c) {
        CharClass::Operator
    } else if c == '(' {
        CharClass::LeftParen
    } else if c == ')' {
        CharClass::RightParen
    } else if whitespace {
        CharClass::Whitespace
    } else {
        CharClass::Invalid
    }
}

/// Whether the tokenizer reports `c` as an invalid character.
pub open spec fn is_rejected(c: char) -> bool {
    class_of(c, is_unicode_whitespace(c)) == CharClass::Invalid
}

/// Sorts `c` into its class; `whitespace` is what `char::is_whitespace`
/// answered for it.
pub fn classify(c: char, whitespace: bool) -> (class: CharClass)
    ensures
        class == class_of(c, whitespace),
{
    if '0' <= c && c <= '9' {
        CharClass::Digit
    } else if c == '+' || c == '-' || c == '*' || c == '/' {
        CharClass::Operator
    } else if c == '(' {
        CharClass::LeftParen
    } else if c == ')' {
        CharClass::RightParen
    } else if whitespace {
        CharClass::Whitespace
    } else {
        CharClass::Invalid
    }
}

} // verus!
