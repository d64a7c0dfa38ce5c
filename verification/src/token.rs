//! The tokens of an arithmetic expression.

use vstd::prelude::*;
use crate::chars::{is_digit, is_operator_symbol};

verus! {

/// One lexical unit of an expression.
#[derive(Clone, Debug, PartialEq, Eq)]
pub enum Token {
    /// An operand, as the digits it was written with.
    Number(String),
    /// A binary operation, as its one-character symbol.
    Operator(String),
    /// `(`
    LeftParen,
    /// `)`
    RightParen,
}

/// A token in contracts, with its text as a sequence of characters.
pub enum TokenView {
    Number(Seq<char>),
    Operator(Seq<char>),
    LeftParen,
    RightParen,
}

impl View for Token {
    type V = TokenView;

    open spec fn view(&self) -> TokenView {
        match self {
            Token::Number(literal) => TokenView::Number(literal@),
            Token::Operator(symbol) => TokenView::Operator(symbol@),
            Token::LeftParen => TokenView::LeftParen,
            Token::RightParen => TokenView::RightParen,
        }
    }
}

impl DeepView for Token {
    type V = TokenView;

    open spec fn deep_view(&self) -> TokenView {
        self@
    }
}

/// The views of `tokens`, one for one.
pub open spec fn views(tokens: Seq<Token>) -> Seq<TokenView> {
    Seq::new(tokens.len(), |i: int| tokens[i]@)
}

/// The deep view of a vector of tokens is the views of its elements.
pub proof fn deep_view_is_views(tokens: &Vec<Token>)
    ensures
        tokens.deep_view() == views(tokens@),
{
    assert(tokens.deep_view() =~= views(tokens@));
}

/// The four kinds of token.
pub enum Kind {
    Number,
    Operator,
    LeftParen,
    RightParen,
}

impl TokenView {
    /// The kind of the token, its text aside.
    pub open spec fn kind(self) -> Kind {
        match self {
            TokenView::Number(_) => Kind::Number,
            TokenView::Operator(_) => Kind::Operator,
            TokenView::LeftParen => Kind::LeftParen,
            TokenView::RightParen => Kind::RightParen,
        }
    }

    /// A number is a non-empty run of decimal digits; an operator is exactly
    /// one of the four symbols.
    pub open spec fn well_formed(self) -> bool {
        match self {
            TokenView::Number(literal) => literal.len() > 0 && forall|i: int|
                0 <= i < literal.len() ==> is_digit(#[trigger] literal[i]),
            TokenView::Operator(symbol) => symbol.len() == 1 && is_operator_symbol(symbol[0]),
            TokenView::LeftParen => true,
            TokenView::RightParen => true,
        }
    }

    /// The characters the token is written with.
    pub open spec fn text(self) -> Seq<char> {
        match self {
            TokenView::Number(literal) => literal,
            TokenView::Operator(symbol) => symbol,
            TokenView::LeftParen => seq!['('],
            TokenView::RightParen => seq![')'],
        }
    }
}

/// The test for tokens of one kind.
pub open spec fn has_kind(kind: Kind) -> spec_fn(TokenView) -> bool {
    |t: TokenView| t.kind() == kind
}

/// The tokens of one kind among `tokens`, in their order.
pub open spec fn of_kind(tokens: Seq<TokenView>, kind: Kind) -> Seq<TokenView> {
    tokens.filter(has_kind(kind))
}

/// The texts of `tokens`, one after the other with nothing in between.
pub open spec fn spelling(tokens: Seq<TokenView>) -> Seq<char>
    decreases tokens.len(),
{
    if tokens.len() == 0 {
        Seq::empty()
    } else {
        tokens[0].text() + spelling(tokens.skip(1))
    }
}

} // verus!
