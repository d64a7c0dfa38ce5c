//! What holds of every reduction, whatever the arithmetic.

use vstd::prelude::*;
use crate::eval::{operator_of, reduces_to, Arithmetic, BinOp, EvalError};
use crate::token::{views, Token, TokenView};

verus! {

/// The number of operands on the stack after `token`, when there were
/// `depth` before it; nothing if the token stops the reduction.
pub open spec fn next_depth(depth: nat, token: TokenView) -> Option<nat> {
    match token {
        TokenView::Number(_) => Some(depth + 1),
        TokenView::Operator(symbol) => if depth >= 2 && operator_of(symbol) is Some {
            Some((depth - 1) as nat)
        } else {
            None
        },
        _ => None,
    }
}

/// The number of operands on the stack after all of `tokens`, when there
/// were `depth` before them; nothing if one of them stops the reduction.
pub open spec fn depth_from(tokens: Seq<TokenView>, depth: nat) -> Option<nat>
    decreases tokens.len(),
{
    if tokens.len() == 0 {
        Some(depth)
    } else {
        match next_depth(depth, tokens[0]) {
            Some(after) => depth_from(tokens.skip(1), after),
            None => None,
        }
    }
}

/// Whether `result` is a failure of the arithmetic: a literal that could not
/// be read, or a division by zero.
pub open spec fn fails_in_arithmetic<V>(result: Result<V, EvalError>) -> bool {
    result matches Err(error) && (error is ParseError || error is DivisionByZero)
}

/// Whether the arithmetic has one answer only to each question.
pub open spec fn single_valued<V>(arithmetic: Arithmetic<V>) -> bool {
    &&& forall|literal: String, first: Option<V>, second: Option<V>|
        #[trigger] (arithmetic.reads)(literal, first) && #[trigger] (arithmetic.reads)(
            literal,
            second,
        ) ==> first == second
    &&& forall|value: V, first: bool, second: bool|
        #[trigger] (arithmetic.tests_zero)(value, first) && #[trigger] (arithmetic.tests_zero)(
            value,
            second,
        ) ==> first == second
    &&& forall|op: BinOp, left: V, right: V, first: V, second: V|
        #[trigger] (arithmetic.applies)(op, left, right, first) && #[trigger] (arithmetic.applies)(
            op,
            left,
            right,
            second,
        ) ==> first == second
}

/// Some number that reading `literal` may give and with which the reduction
/// of `rest` comes to `result`.
spec fn read_value<V>(
    rest: Seq<Token>,
    stack: Seq<V>,
    arithmetic: Arithmetic<V>,
    result: Result<V, EvalError>,
    literal: String,
) -> V {
    choose|value: V|
        #[trigger] arithmetic.reads_as(literal, value) && reduces_to(
            rest,
            stack.push(value),
            arithmetic,
            result,
        )
}

/// Some number that applying `op` to the two topmost operands may give and
/// with which the reduction of `rest` comes to `result`.
spec fn applied_value<V>(
    rest: Seq<Token>,
    stack: Seq<V>,
    arithmetic: Arithmetic<V>,
    result: Result<V, EvalError>,
    op: BinOp,
) -> V {
    choose|value: V|
        #[trigger] arithmetic.gives(op, stack[stack.len() - 2], stack[stack.len() - 1], value)
            && reduces_to(rest, stack.take(stack.len() - 2).push(value), arithmetic, result)
}

/// A reduction has a value only where the stack discipline accepts the
/// tokens and one operand is left. Where it does, the reduction has a value
/// unless the arithmetic fails.
pub proof fn reduction_follows_depth<V>(
    tokens: Seq<Token>,
    stack: Seq<V>,
    arithmetic: Arithmetic<V>,
    result: Result<V, EvalError>,
)
    requires
        reduces_to(tokens, stack, arithmetic, result),
    ensures
        result is Ok ==> depth_from(views(tokens), stack.len()) == Some(1nat),
        depth_from(views(tokens), stack.len()) == Some(1nat) ==> result is Ok
            || fails_in_arithmetic(result),
    decreases tokens.len(),
{
    if tokens.len() > 0 {
        let rest = tokens.skip(1);
        assert(views(tokens)[0] == tokens[0]@);
        assert(views(tokens).skip(1) =~= views(rest));
        match tokens[0] {
            Token::Number(literal) => {
                if !fails_in_arithmetic(result) {
                    let value = read_value(rest, stack, arithmetic, result, literal);
                    reduction_follows_depth(rest, stack.push(value), arithmetic, result);
                }
            },
            Token::Operator(symbol) => {
                if stack.len() >= 2 && operator_of(symbol@) is Some && !fails_in_arithmetic(
                    result,
                ) {
                    let op = operator_of(symbol@)->0;
                    let value = applied_value(rest, stack, arithmetic, result, op);
                    reduction_follows_depth(
                        rest,
                        stack.take(stack.len() - 2).push(value),
                        arithmetic,
                        result,
                    );
                }
            },
            _ => {},
        }
    }
}

/// Each failure that names a token has such a token among `tokens`: a
/// parenthesis for an invalid token, an operator with an unknown symbol for an
/// invalid operator, and a number that the arithmetic may refuse to read for a
/// parse error.
pub proof fn reduction_failure_has_cause<V>(
    tokens: Seq<Token>,
    stack: Seq<V>,
    arithmetic: Arithmetic<V>,
    result: Result<V, EvalError>,
)
    requires
        reduces_to(tokens, stack, arithmetic, result),
    ensures
        result == Err::<V, EvalError>(EvalError::InvalidToken) ==> tokens.contains(Token::LeftParen)
            || tokens.contains(Token::RightParen),
        result matches Err(EvalError::InvalidOperator(symbol)) ==> tokens.contains(
            Token::Operator(symbol),
        ) && operator_of(symbol@) is None,
        result matches Err(EvalError::ParseError(literal)) ==> tokens.contains(
            Token::Number(literal),
        ) && arithmetic.rejects(literal),
    decreases tokens.len(),
{
    if tokens.len() > 0 {
        let rest = tokens.skip(1);
        assert(tokens.contains(tokens[0]));
        assert forall|t: Token| rest.contains(t) implies tokens.contains(t) by {
            let i = choose|i: int| 0 <= i < rest.len() && rest[i] == t;
            assert(tokens[i + 1] == t);
        }
        match tokens[0] {
            Token::Number(literal) => {
                if !(arithmetic.rejects(literal) && result == Err::<V, EvalError>(
                    EvalError::ParseError(literal),
                )) {
                    let value = read_value(rest, stack, arithmetic, result, literal);
                    reduction_failure_has_cause(rest, stack.push(value), arithmetic, result);
                }
            },
            Token::Operator(symbol) => {
                if stack.len() >= 2 && operator_of(symbol@) is Some && !(result
                    == Err::<V, EvalError>(EvalError::DivisionByZero)) {
                    let op = operator_of(symbol@)->0;
                    let value = applied_value(rest, stack, arithmetic, result, op);
                    reduction_failure_has_cause(
                        rest,
                        stack.take(stack.len() - 2).push(value),
                        arithmetic,
                        result,
                    );
                }
            },
            _ => {},
        }
    }
}

/// In an arithmetic that has one answer only to each question, a reduction
/// has one result only.
pub proof fn reduction_is_single_valued<V>(
    tokens: Seq<Token>,
    stack: Seq<V>,
    arithmetic: Arithmetic<V>,
    first: Result<V, EvalError>,
    second: Result<V, EvalError>,
)
    requires
        single_valued(arithmetic),
        reduces_to(tokens, stack, arithmetic, first),
        reduces_to(tokens, stack, arithmetic, second),
    ensures
        first == second,
    decreases tokens.len(),
{
    if tokens.len() > 0 {
        let rest = tokens.skip(1);
        match tokens[0] {
            Token::Number(literal) => {
                if arithmetic.rejects(literal) {
                    assert forall|value: V| !#[trigger] arithmetic.reads_as(literal, value) by {
                        if arithmetic.reads_as(literal, value) {
                            assert(Some(value) == None::<V>);
                        }
                    }
                } else {
                    let one = read_value(rest, stack, arithmetic, first, literal);
                    let other = read_value(rest, stack, arithmetic, second, literal);
                    assert(Some(one) == Some(other));
                    reduction_is_single_valued(rest, stack.push(one), arithmetic, first, second);
                }
            },
            Token::Operator(symbol) => {
                if stack.len() >= 2 && operator_of(symbol@) is Some {
                    let op = operator_of(symbol@)->0;
                    let right = stack[stack.len() - 1];
                    if op == BinOp::Divide && arithmetic.may_be_zero(right) {
                        assert(!arithmetic.may_be_nonzero(right));
                    } else {
                        let one = applied_value(rest, stack, arithmetic, first, op);
                        let other = applied_value(rest, stack, arithmetic, second, op);
                        assert(one == other);
                        reduction_is_single_valued(
                            rest,
                            stack.take(stack.len() - 2).push(one),
                            arithmetic,
                            first,
                            second,
                        );
                    }
                }
            },
            _ => {},
        }
    }
}

/// The depth after one more token follows from the depth before it.
pub(crate) proof fn lemma_depth_push(tokens: Seq<TokenView>, token: TokenView, depth: nat)
    ensures
        depth_from(tokens.push(token), depth) == match depth_from(tokens, depth) {
            Some(before) => next_depth(before, token),
            None => None,
        },
    decreases tokens.len(),
{
    let all = tokens.push(token);
    if tokens.len() == 0 {
        assert(all.skip(1) =~= Seq::<TokenView>::empty());
        match next_depth(depth, token) {
            Some(after) => {
                assert(depth_from(all.skip(1), after) == Some(after));
            },
            None => {},
        }
    } else {
        assert(all[0] == tokens[0]);
        assert(all.skip(1) =~= tokens.skip(1).push(token));
        match next_depth(depth, tokens[0]) {
            Some(after) => {
                lemma_depth_push(tokens.skip(1), token, after);
            },
            None => {},
        }
    }
}

} // verus!
