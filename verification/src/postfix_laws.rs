//! What holds of every conversion to postfix order.

use vstd::prelude::*;
use crate::postfix::{gives_way, popped, postfix_of, top_run, Shunt};
use crate::seqs::{lemma_filter_all, lemma_filter_none, lemma_filter_push};
use crate::token::{has_kind, of_kind, Kind, TokenView};

verus! {

/// How many opening parentheses of `tokens` are still waiting for their
/// partner once all of `tokens` has been read. A closing parenthesis with no
/// opening one before it closes nothing.
pub open spec fn open_parens(tokens: Seq<TokenView>) -> nat
    decreases tokens.len(),
{
    if tokens.len() == 0 {
        0
    } else {
        let before = open_parens(tokens.drop_last());
        match tokens.last() {
            TokenView::LeftParen => before + 1,
            TokenView::RightParen => if before > 0 {
                (before - 1) as nat
            } else {
                0
            },
            _ => before,
        }
    }
}

/// How many opening parentheses of `tokens` have found their partner.
pub open spec fn matched_pairs(tokens: Seq<TokenView>) -> nat
    decreases tokens.len(),
{
    if tokens.len() == 0 {
        0
    } else {
        let before = matched_pairs(tokens.drop_last());
        if tokens.last() is RightParen && open_parens(tokens.drop_last()) > 0 {
            before + 1
        } else {
            before
        }
    }
}

/// How many tokens the conversion drops: every closing parenthesis, and every
/// opening parenthesis that has a partner.
pub open spec fn discarded(tokens: Seq<TokenView>) -> nat {
    of_kind(tokens, Kind::RightParen).len() + matched_pairs(tokens)
}

/// Whether a stack holds operators and opening parentheses only.
pub open spec fn holds_pending_only(stack: Seq<TokenView>) -> bool {
    forall|i: int|
        0 <= i < stack.len() ==> (#[trigger] stack[i]) is Operator || stack[i] is LeftParen
}

/// Whether a sequence holds numbers and operators only.
pub open spec fn holds_operands_and_operators(output: Seq<TokenView>) -> bool {
    forall|i: int|
        0 <= i < output.len() ==> (#[trigger] output[i]) is Number || output[i] is Operator
}

/// The run on top of a stack lies within the stack, every token of it
/// gives way, and the token below it does not.
pub(crate) proof fn lemma_top_run(stack: Seq<TokenView>, closing: bool)
    ensures
        top_run(stack, closing) <= stack.len(),
        forall|i: int|
            stack.len() - top_run(stack, closing) <= i < stack.len() ==> gives_way(
                #[trigger] stack[i],
                closing,
            ),
        top_run(stack, closing) < stack.len() ==> !gives_way(
            stack[stack.len() - top_run(stack, closing) - 1],
            closing,
        ),
    decreases stack.len(),
{
    if stack.len() > 0 && gives_way(stack.last(), closing) {
        let below = stack.drop_last();
        lemma_top_run(below, closing);
        assert forall|i: int|
            stack.len() - top_run(stack, closing) <= i < stack.len() implies gives_way(
            #[trigger] stack[i],
            closing,
        ) by {
            if i < stack.len() - 1 {
                assert(stack[i] == below[i]);
            }
        }
        if top_run(stack, closing) < stack.len() {
            assert(stack[stack.len() - top_run(stack, closing) - 1] == below[below.len()
                - top_run(below, closing) - 1]);
        }
    }
}

/// What unloading the run on top of the stack keeps: only operators move,
/// from the stack to the output.
pub(crate) proof fn lemma_unload_run(s: Shunt, closing: bool)
    requires
        holds_pending_only(s.stack),
        holds_operands_and_operators(s.output),
    ensures
        ({
            let k = top_run(s.stack, closing);
            let c = s.unload(k);
            &&& k <= s.stack.len()
            &&& c.output.len() + c.stack.len() == s.output.len() + s.stack.len()
            &&& holds_pending_only(c.stack)
            &&& holds_operands_and_operators(c.output)
            &&& c.stack.len() > 0 ==> !gives_way(c.stack.last(), closing)
            &&& forall|i: int| 0 <= i < k ==> (#[trigger] popped(s.stack, k)[i]) is Operator
            &&& forall|i: int|
                0 <= i < c.output.len() ==> s.output.contains(#[trigger] c.output[i])
                    || s.stack.contains(c.output[i])
            &&& forall|i: int| 0 <= i < c.stack.len() ==> s.stack.contains(#[trigger] c.stack[i])
            &&& of_kind(c.stack, Kind::Operator).len() + k == of_kind(s.stack, Kind::Operator).len()
            &&& of_kind(c.output, Kind::Number) == of_kind(s.output, Kind::Number)
            &&& of_kind(c.stack, Kind::LeftParen) == of_kind(s.stack, Kind::LeftParen)
            &&& of_kind(c.output, Kind::Operator).len() + of_kind(c.stack, Kind::Operator).len()
                == of_kind(s.output, Kind::Operator).len() + of_kind(
                s.stack,
                Kind::Operator,
            ).len()
        }),
{
    let k = top_run(s.stack, closing);
    let c = s.unload(k);
    let n = s.stack.len();
    lemma_top_run(s.stack, closing);
    let moved = popped(s.stack, k);
    let top = s.stack.skip(n - k);
    assert(s.stack =~= c.stack + top);
    assert forall|i: int| 0 <= i < moved.len() implies (#[trigger] moved[i]) is Operator by {
        assert(gives_way(s.stack[n - 1 - i], closing));
    }
    assert forall|i: int| 0 <= i < top.len() implies (#[trigger] top[i]) is Operator by {
        assert(gives_way(s.stack[n - k + i], closing));
    }
    assert forall|i: int| 0 <= i < c.stack.len() implies ((#[trigger] c.stack[i]) is Operator
        || c.stack[i] is LeftParen) && s.stack.contains(c.stack[i]) by {
        assert(c.stack[i] == s.stack[i]);
    }
    assert forall|i: int| 0 <= i < c.output.len() implies ((#[trigger] c.output[i]) is Number
        || c.output[i] is Operator) && (s.output.contains(c.output[i]) || s.stack.contains(
        c.output[i],
    )) by {
        if i < s.output.len() {
            assert(c.output[i] == s.output[i]);
        } else {
            assert(c.output[i] == moved[i - s.output.len()]);
            assert(c.output[i] == s.stack[n - 1 - (i - s.output.len())]);
        }
    }
    let number = has_kind(Kind::Number);
    let operator = has_kind(Kind::Operator);
    let left = has_kind(Kind::LeftParen);
    Seq::filter_distributes_over_add(s.output, moved, number);
    lemma_filter_none(moved, number);
    assert(s.output.filter(number) + Seq::<TokenView>::empty() =~= s.output.filter(number));
    Seq::filter_distributes_over_add(c.stack, top, left);
    lemma_filter_none(top, left);
    assert(c.stack.filter(left) + Seq::<TokenView>::empty() =~= c.stack.filter(left));
    Seq::filter_distributes_over_add(s.output, moved, operator);
    lemma_filter_all(moved, operator);
    Seq::filter_distributes_over_add(c.stack, top, operator);
    lemma_filter_all(top, operator);
}

/// What holds of the state after any sequence of tokens.
pub(crate) proof fn lemma_run(tokens: Seq<TokenView>)
    ensures
        ({
            let s = Shunt::run(tokens);
            &&& holds_pending_only(s.stack)
            &&& holds_operands_and_operators(s.output)
            &&& s.output.len() + s.stack.len() + discarded(tokens) == tokens.len()
            &&& of_kind(s.output, Kind::Number) == of_kind(tokens, Kind::Number)
            &&& of_kind(s.stack, Kind::LeftParen).len() == open_parens(tokens)
            &&& of_kind(s.output, Kind::Operator).len() + of_kind(s.stack, Kind::Operator).len()
                == of_kind(tokens, Kind::Operator).len()
            &&& forall|i: int| 0 <= i < s.output.len() ==> tokens.contains(#[trigger] s.output[i])
            &&& forall|i: int| 0 <= i < s.stack.len() ==> tokens.contains(#[trigger] s.stack[i])
        }),
    decreases tokens.len(),
{
    let number = has_kind(Kind::Number);
    let operator = has_kind(Kind::Operator);
    let left = has_kind(Kind::LeftParen);
    let right = has_kind(Kind::RightParen);
    if tokens.len() == 0 {
        lemma_filter_none(tokens, number);
        lemma_filter_none(tokens, operator);
        lemma_filter_none(tokens, left);
        lemma_filter_none(tokens, right);
    } else {
        let read = tokens.drop_last();
        let token = tokens.last();
        let s = Shunt::run(read);
        let after = s.step(token);
        lemma_run(read);
        assert(read.push(token) =~= tokens);
        lemma_filter_push(read, token, number);
        lemma_filter_push(read, token, operator);
        lemma_filter_push(read, token, left);
        lemma_filter_push(read, token, right);
        assert(tokens.contains(token)) by {
            assert(tokens[tokens.len() - 1] == token);
        }
        assert forall|t: TokenView| read.contains(t) implies tokens.contains(t) by {
            let i = choose|i: int| 0 <= i < read.len() && read[i] == t;
            assert(tokens[i] == t);
        }
        match token {
            TokenView::Number(_) => {
                lemma_filter_push(s.output, token, number);
                lemma_filter_push(s.output, token, operator);
            },
            TokenView::Operator(_) => {
                lemma_unload_run(s, false);
                let c = s.unload(top_run(s.stack, false));
                lemma_filter_push(c.stack, token, left);
                lemma_filter_push(c.stack, token, operator);
            },
            TokenView::LeftParen => {
                lemma_filter_push(s.stack, token, left);
                lemma_filter_push(s.stack, token, operator);
            },
            TokenView::RightParen => {
                lemma_unload_run(s, true);
                let c = s.unload(top_run(s.stack, true));
                if c.stack.len() > 0 {
                    let below = c.stack.drop_last();
                    assert(below.push(c.stack.last()) =~= c.stack);
                    lemma_filter_push(below, c.stack.last(), left);
                    lemma_filter_push(below, c.stack.last(), operator);
                } else {
                    lemma_filter_none(c.stack, left);
                }
            },
        }
    }
}

/// Turning a whole stack over keeps the number of its tokens that pass a
/// test.
proof fn lemma_popped_all(stack: Seq<TokenView>, p: spec_fn(TokenView) -> bool)
    ensures
        popped(stack, stack.len()).filter(p).len() == stack.filter(p).len(),
    decreases stack.len(),
{
    reveal(Seq::filter);
    if stack.len() > 0 {
        let below = stack.drop_last();
        let top = seq![stack.last()];
        lemma_popped_all(below, p);
        assert(popped(stack, stack.len()) =~= top + popped(below, below.len()));
        Seq::filter_distributes_over_add(top, popped(below, below.len()), p);
        let none = Seq::<TokenView>::empty();
        assert(top =~= none.push(stack.last()));
        lemma_filter_push(none, stack.last(), p);
        assert(none.filter(p).len() == 0);
    } else {
        assert(popped(stack, stack.len()) =~= stack);
    }
}

/// The conversion ends with an empty stack, and its result is as long as the
/// input less the parentheses that it drops: every closing one, and every
/// opening one that has a partner.
pub proof fn postfix_length(tokens: Seq<TokenView>)
    ensures
        Shunt::run(tokens).drain().stack.len() == 0,
        postfix_of(tokens).len() + discarded(tokens) == tokens.len(),
{
    lemma_run(tokens);
}

/// Every token of the result is a token of the input.
pub proof fn postfix_tokens_from_input(tokens: Seq<TokenView>)
    ensures
        forall|i: int|
            0 <= i < postfix_of(tokens).len() ==> tokens.contains(#[trigger] postfix_of(tokens)[i]),
{
    let s = Shunt::run(tokens);
    lemma_run(tokens);
    assert forall|i: int| 0 <= i < postfix_of(tokens).len() implies tokens.contains(
        #[trigger] postfix_of(tokens)[i],
    ) by {
        if i < s.output.len() {
            assert(postfix_of(tokens)[i] == s.output[i]);
        } else {
            assert(postfix_of(tokens)[i] == s.stack[s.stack.len() - 1 - (i - s.output.len())]);
        }
    }
}

/// The numbers of the result are the numbers of the input, in the same
/// order.
pub proof fn postfix_keeps_operands(tokens: Seq<TokenView>)
    ensures
        of_kind(postfix_of(tokens), Kind::Number) == of_kind(tokens, Kind::Number),
{
    let s = Shunt::run(tokens);
    let rest = popped(s.stack, s.stack.len());
    let number = has_kind(Kind::Number);
    lemma_run(tokens);
    Seq::filter_distributes_over_add(s.output, rest, number);
    lemma_filter_none(rest, number);
    assert(s.output.filter(number) + Seq::<TokenView>::empty() =~= s.output.filter(number));
}

/// The result holds as many operators as the input.
pub proof fn postfix_keeps_operators(tokens: Seq<TokenView>)
    ensures
        of_kind(postfix_of(tokens), Kind::Operator).len() == of_kind(tokens, Kind::Operator).len(),
{
    let s = Shunt::run(tokens);
    let rest = popped(s.stack, s.stack.len());
    let operator = has_kind(Kind::Operator);
    lemma_run(tokens);
    Seq::filter_distributes_over_add(s.output, rest, operator);
    lemma_popped_all(s.stack, operator);
}

/// No closing parenthesis reaches the result, and an opening parenthesis does
/// only when it has no partner: each of those comes out once.
pub proof fn postfix_parens(tokens: Seq<TokenView>)
    ensures
        of_kind(postfix_of(tokens), Kind::RightParen).len() == 0,
        of_kind(postfix_of(tokens), Kind::LeftParen).len() == open_parens(tokens),
{
    let s = Shunt::run(tokens);
    let rest = popped(s.stack, s.stack.len());
    let left = has_kind(Kind::LeftParen);
    let right = has_kind(Kind::RightParen);
    lemma_run(tokens);
    lemma_filter_none(postfix_of(tokens), right);
    Seq::filter_distributes_over_add(s.output, rest, left);
    lemma_filter_none(s.output, left);
    lemma_popped_all(s.stack, left);
}

/// An expression without parentheses: a first operand, and then operators
/// each followed by its right operand.
pub open spec fn flat_infix(first: TokenView, pairs: Seq<(TokenView, TokenView)>) -> Seq<TokenView>
    decreases pairs.len(),
{
    if pairs.len() == 0 {
        seq![first]
    } else {
        flat_infix(first, pairs.drop_last()) + seq![pairs.last().0, pairs.last().1]
    }
}

/// The same expression with each operator behind its right operand.
pub open spec fn flat_postfix(first: TokenView, pairs: Seq<(TokenView, TokenView)>) -> Seq<
    TokenView,
>
    decreases pairs.len(),
{
    if pairs.len() == 0 {
        seq![first]
    } else {
        flat_postfix(first, pairs.drop_last()) + seq![pairs.last().1, pairs.last().0]
    }
}

/// Whether `first` is a number and every pair is an operator and a number.
pub open spec fn is_flat(first: TokenView, pairs: Seq<(TokenView, TokenView)>) -> bool {
    &&& first is Number
    &&& forall|i: int|
        0 <= i < pairs.len() ==> (#[trigger] pairs[i]).0 is Operator && pairs[i].1 is Number
}

/// After an expression without parentheses has been read, everything but the
/// last operator is in the output, in postfix order, and the last operator
/// waits alone on the stack.
proof fn lemma_run_flat(first: TokenView, pairs: Seq<(TokenView, TokenView)>)
    requires
        is_flat(first, pairs),
    ensures
        ({
            let s = Shunt::run(flat_infix(first, pairs));
            if pairs.len() == 0 {
                s.output == seq![first] && s.stack == Seq::<TokenView>::empty()
            } else {
                s.output == flat_postfix(first, pairs).drop_last() && s.stack == seq![
                    pairs.last().0,
                ]
            }
        }),
    decreases pairs.len(),
{
    reveal_with_fuel(Shunt::run, 2);
    reveal_with_fuel(top_run, 2);
    if pairs.len() == 0 {
        let tokens = flat_infix(first, pairs);
        assert(tokens.drop_last() =~= Seq::<TokenView>::empty());
        let s = Shunt::run(tokens);
        assert(s.output =~= seq![first]);
        assert(s.stack =~= Seq::<TokenView>::empty());
    } else {
        let init = pairs.drop_last();
        let op = pairs.last().0;
        let operand = pairs.last().1;
        let read = flat_infix(first, init);
        let tokens = flat_infix(first, pairs);
        lemma_run_flat(first, init);
        assert(tokens.drop_last() =~= read.push(op));
        assert(read.push(op).drop_last() =~= read);
        let before = Shunt::run(read);
        let between = before.step(op);
        assert(Shunt::run(read.push(op)) == between);
        let after = between.step(operand);
        assert(Shunt::run(tokens) == after);
        let done = flat_postfix(first, init);
        if init.len() == 0 {
            assert(between.output =~= done);
        } else {
            assert(before.stack.drop_last() =~= Seq::<TokenView>::empty());
            assert(top_run(before.stack, false) == 1);
            assert(done.last() == init.last().0);
            assert(between.output =~= done);
        }
        assert(between.stack =~= seq![op]);
        assert(after.output =~= flat_postfix(first, pairs).drop_last());
        assert(after.stack =~= seq![op]);
    }
}

/// Without parentheses every operator moves behind the operand that follows
/// it and nothing else moves: the operators are applied from left to right,
/// whatever their symbols.
pub proof fn postfix_of_flat_expression(first: TokenView, pairs: Seq<(TokenView, TokenView)>)
    requires
        is_flat(first, pairs),
    ensures
        postfix_of(flat_infix(first, pairs)) == flat_postfix(first, pairs),
{
    lemma_run_flat(first, pairs);
    let s = Shunt::run(flat_infix(first, pairs));
    if pairs.len() == 0 {
        assert(postfix_of(flat_infix(first, pairs)) =~= seq![first]);
    } else {
        assert(postfix_of(flat_infix(first, pairs)) =~= flat_postfix(first, pairs));
    }
}

} // verus!
