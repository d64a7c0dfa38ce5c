//! What holds of conversion and reduction together.

use vstd::prelude::*;
use crate::eval::{operator_of, reduces_to, Arithmetic, EvalError};
use crate::eval_laws::{
    depth_from, fails_in_arithmetic, lemma_depth_push, reduction_failure_has_cause,
    reduction_follows_depth,
};
use crate::lexer::lex;
use crate::lexer_laws::lex_tokens_well_formed;
use crate::postfix::{popped, postfix_of, top_run, Shunt};
use crate::postfix_laws::{
    holds_pending_only, lemma_run, lemma_unload_run, open_parens, postfix_parens,
    postfix_tokens_from_input,
};
use crate::seqs::{lemma_filter_all, lemma_filter_push};
use crate::token::{has_kind, of_kind, views, Kind, Token, TokenView};

verus! {

/// Whether `tokens` can begin an infix expression, and if they can, whether
/// they end where an operand ends.
///
/// An operand is a number or an expression in parentheses. Operands and
/// operators take turns, an operator has one of the four symbols, and a
/// closing parenthesis follows an operand and has an opening partner.
pub open spec fn infix_prefix(tokens: Seq<TokenView>) -> Option<bool>
    decreases tokens.len(),
{
    if tokens.len() == 0 {
        Some(false)
    } else {
        match infix_prefix(tokens.drop_last()) {
            None => None,
            Some(after_operand) => match tokens.last() {
                TokenView::Number(_) => if after_operand {
                    None
                } else {
                    Some(true)
                },
                TokenView::LeftParen => if after_operand {
                    None
                } else {
                    Some(false)
                },
                TokenView::Operator(symbol) => if after_operand && operator_of(symbol) is Some {
                    Some(false)
                } else {
                    None
                },
                TokenView::RightParen => if after_operand && open_parens(tokens.drop_last())
                    > 0 {
                    Some(true)
                } else {
                    None
                },
            },
        }
    }
}

/// Whether `tokens` are a whole infix expression: operands joined by
/// operators, with every parenthesis closed.
pub open spec fn is_infix_expression(tokens: Seq<TokenView>) -> bool {
    infix_prefix(tokens) == Some(true) && open_parens(tokens) == 0
}

/// Whether every operator among `tokens` has one of the four symbols.
pub open spec fn operators_known(tokens: Seq<TokenView>) -> bool {
    forall|i: int|
        0 <= i < tokens.len() ==> ((#[trigger] tokens[i]) matches TokenView::Operator(symbol)
            ==> operator_of(symbol) is Some)
}

/// Known operators sent to the output one after the other each take one
/// operand off the stack, as long as two are there.
proof fn lemma_depth_unload(output: Seq<TokenView>, stack: Seq<TokenView>, count: nat, depth: nat)
    requires
        count <= stack.len(),
        depth_from(output, 0) == Some(depth),
        depth >= count + 1,
        operators_known(stack),
        forall|i: int| 0 <= i < count ==> (#[trigger] popped(stack, count)[i]) is Operator,
    ensures
        depth_from(output + popped(stack, count), 0) == Some((depth - count) as nat),
    decreases count,
{
    if count == 0 {
        assert(output + popped(stack, count) =~= output);
    } else {
        let fewer = (count - 1) as nat;
        let top = stack[stack.len() - count];
        assert forall|i: int| 0 <= i < fewer implies (#[trigger] popped(stack, fewer)[i]) is Operator by {
            assert(popped(stack, fewer)[i] == popped(stack, count)[i]);
        }
        lemma_depth_unload(output, stack, fewer, depth);
        assert(popped(stack, count)[count - 1] == top);
        assert(output + popped(stack, count) =~= (output + popped(stack, fewer)).push(top));
        lemma_depth_push(output + popped(stack, fewer), top, 0);
    }
}

/// While an infix expression is being read, the output is a postfix sequence
/// that leaves one operand for each operator waiting on the stack, and one
/// more when an operand has just ended.
proof fn lemma_run_infix(tokens: Seq<TokenView>)
    requires
        infix_prefix(tokens) is Some,
    ensures
        ({
            let s = Shunt::run(tokens);
            let pending = of_kind(s.stack, Kind::Operator).len();
            &&& operators_known(s.stack)
            &&& depth_from(s.output, 0) == Some(
                if infix_prefix(tokens) == Some(true) {
                    pending + 1
                } else {
                    pending
                },
            )
        }),
    decreases tokens.len(),
{
    let operator = has_kind(Kind::Operator);
    if tokens.len() == 0 {
        reveal(Seq::filter);
    } else {
        let read = tokens.drop_last();
        let token = tokens.last();
        let s = Shunt::run(read);
        let after = s.step(token);
        lemma_run_infix(read);
        lemma_run(read);
        let pending = of_kind(s.stack, Kind::Operator).len();
        match token {
            TokenView::Number(_) => {
                lemma_depth_push(s.output, token, 0);
            },
            TokenView::Operator(_) => {
                let k = top_run(s.stack, false);
                let c = s.unload(k);
                lemma_unload_run(s, false);
                lemma_depth_unload(s.output, s.stack, k, pending + 1);
                lemma_filter_push(c.stack, token, operator);
                assert forall|i: int| 0 <= i < after.stack.len() implies ((
                #[trigger] after.stack[i]) matches TokenView::Operator(symbol) ==> operator_of(
                    symbol,
                ) is Some) by {
                    if i < c.stack.len() {
                        assert(after.stack[i] == s.stack[i]);
                    }
                }
            },
            TokenView::LeftParen => {
                lemma_filter_push(s.stack, token, operator);
                assert forall|i: int| 0 <= i < after.stack.len() implies ((
                #[trigger] after.stack[i]) matches TokenView::Operator(symbol) ==> operator_of(
                    symbol,
                ) is Some) by {
                    if i < s.stack.len() {
                        assert(after.stack[i] == s.stack[i]);
                    }
                }
            },
            TokenView::RightParen => {
                let k = top_run(s.stack, true);
                let c = s.unload(k);
                lemma_unload_run(s, true);
                lemma_depth_unload(s.output, s.stack, k, pending + 1);
                if c.stack.len() == 0 {
                    reveal(Seq::filter);
                    assert(of_kind(c.stack, Kind::LeftParen).len() == 0);
                } else {
                    let below = c.stack.drop_last();
                    assert(below.push(c.stack.last()) =~= c.stack);
                    lemma_filter_push(below, c.stack.last(), operator);
                }
                assert forall|i: int| 0 <= i < after.stack.len() implies ((
                #[trigger] after.stack[i]) matches TokenView::Operator(symbol) ==> operator_of(
                    symbol,
                ) is Some) by {
                    assert(after.stack[i] == s.stack[i]);
                }
            },
        }
    }
}

/// A stack of operators and opening parentheses that holds no opening
/// parenthesis holds operators only.
proof fn lemma_only_operators(stack: Seq<TokenView>)
    requires
        holds_pending_only(stack),
        of_kind(stack, Kind::LeftParen).len() == 0,
    ensures
        forall|i: int| 0 <= i < stack.len() ==> (#[trigger] stack[i]) is Operator,
{
    assert forall|i: int| 0 <= i < stack.len() implies (#[trigger] stack[i]) is Operator by {
        if stack[i] is LeftParen {
            stack.lemma_filter_contains(has_kind(Kind::LeftParen), i);
        }
    }
}

/// The stack discipline accepts the postfix form of a whole infix
/// expression, and one operand is left: every operator finds its two operands
/// and no parenthesis is left.
pub proof fn infix_expression_has_depth_one(tokens: Seq<TokenView>)
    requires
        is_infix_expression(tokens),
    ensures
        depth_from(postfix_of(tokens), 0) == Some(1nat),
{
    let s = Shunt::run(tokens);
    let n = s.stack.len();
    lemma_run(tokens);
    lemma_run_infix(tokens);
    lemma_only_operators(s.stack);
    lemma_filter_all(s.stack, has_kind(Kind::Operator));
    lemma_depth_unload(s.output, s.stack, n, n + 1);
}

/// Reducing the postfix form of a whole infix expression gives a value,
/// unless the arithmetic fails: a literal cannot be read, or a division is by
/// zero.
pub proof fn infix_expression_reduces<V>(
    infix: Seq<TokenView>,
    postfix: Seq<Token>,
    arithmetic: Arithmetic<V>,
    result: Result<V, EvalError>,
)
    requires
        is_infix_expression(infix),
        views(postfix) == postfix_of(infix),
        reduces_to(postfix, Seq::empty(), arithmetic, result),
    ensures
        result is Ok || fails_in_arithmetic(result),
{
    infix_expression_has_depth_one(infix);
    reduction_follows_depth(postfix, Seq::empty(), arithmetic, result);
}

/// An operator that the tokenizer makes is one that the reduction knows:
/// reducing the postfix form of the tokens of a text never fails with an
/// invalid operator.
pub proof fn lexed_operators_are_known<V>(
    text: Seq<char>,
    postfix: Seq<Token>,
    arithmetic: Arithmetic<V>,
    result: Result<V, EvalError>,
)
    requires
        views(postfix) == postfix_of(lex(text)),
        reduces_to(postfix, Seq::empty(), arithmetic, result),
    ensures
        !(result matches Err(EvalError::InvalidOperator(_))),
{
    if result matches Err(EvalError::InvalidOperator(_)) {
        let symbol = result->Err_0->InvalidOperator_0;
        reduction_failure_has_cause(postfix, Seq::empty(), arithmetic, result);
        let i = choose|i: int| 0 <= i < postfix.len() && postfix[i] == Token::Operator(symbol);
        let token = views(postfix)[i];
        assert(token == TokenView::Operator(symbol@));
        postfix_tokens_from_input(lex(text));
        assert(lex(text).contains(token));
        lex_tokens_well_formed(text);
    }
}

/// Where every opening parenthesis of the infix sequence is closed, no
/// parenthesis reaches the reduction: it never fails with an invalid token.
pub proof fn closed_parens_never_reach_reduction<V>(
    infix: Seq<TokenView>,
    postfix: Seq<Token>,
    arithmetic: Arithmetic<V>,
    result: Result<V, EvalError>,
)
    requires
        open_parens(infix) == 0,
        views(postfix) == postfix_of(infix),
        reduces_to(postfix, Seq::empty(), arithmetic, result),
    ensures
        result != Err::<V, EvalError>(EvalError::InvalidToken),
{
    if result == Err::<V, EvalError>(EvalError::InvalidToken) {
        reduction_failure_has_cause(postfix, Seq::empty(), arithmetic, result);
        postfix_parens(infix);
        let paren = if postfix.contains(Token::LeftParen) {
            Token::LeftParen
        } else {
            Token::RightParen
        };
        let i = choose|i: int| 0 <= i < postfix.len() && postfix[i] == paren;
        assert(views(postfix)[i] == paren@);
        if paren == Token::LeftParen {
            postfix_of(infix).lemma_filter_contains(has_kind(Kind::LeftParen), i);
        } else {
            postfix_of(infix).lemma_filter_contains(has_kind(Kind::RightParen), i);
        }
    }
}

} // verus!
