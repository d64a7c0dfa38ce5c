//! Reordering of an infix token sequence into postfix order.
//!
//! The conversion keeps pending operators and open parentheses on a stack.
//! All four operators rank alike: an operator first sends every operator on
//! top of the stack to the output, so operators group from left to right.
//! Parentheses that have no partner raise no error.

use vstd::prelude::*;
use crate::token::{Token, TokenView};

verus! {

/// The two sequences the conversion works on. The top of `stack` is its last
/// element.
pub struct Shunt {
    pub output: Seq<TokenView>,
    pub stack: Seq<TokenView>,
}

/// Whether `t`, on top of the stack, gives way to the incoming token and
/// moves to the output: to an operator when `t` is an operator, to a closing
/// parenthesis (`closing`) when `t` is anything but an opening parenthesis.
pub open spec fn gives_way(t: TokenView, closing: bool) -> bool {
    if closing {
        !(t is LeftParen)
    } else {
        t is Operator
    }
}

/// How many tokens on top of `stack` give way, counted from the top down to
/// the first one that does not.
pub open spec fn top_run(stack: Seq<TokenView>, closing: bool) -> nat
    decreases stack.len(),
{
    if stack.len() > 0 && gives_way(stack.last(), closing) {
        1 + top_run(stack.drop_last(), closing)
    } else {
        0
    }
}

/// The `count` topmost tokens of `stack`, the top one first.
pub open spec fn popped(stack: Seq<TokenView>, count: nat) -> Seq<TokenView> {
    Seq::new(count, |i: int| stack[stack.len() - 1 - i])
}

impl Shunt {
    /// Nothing read yet.
    pub open spec fn start() -> Shunt {
        Shunt { output: Seq::empty(), stack: Seq::empty() }
    }

    /// The `count` topmost tokens of the stack moved to the output, the top
    /// one first.
    pub open spec fn unload(self, count: nat) -> Shunt {
        Shunt {
            output: self.output + popped(self.stack, count),
            stack: self.stack.take(self.stack.len() - count),
        }
    }

    /// The state after one more token.
    pub open spec fn step(self, token: TokenView) -> Shunt {
        match token {
            TokenView::Number(_) => Shunt { output: self.output.push(token), stack: self.stack },
            TokenView::Operator(_) => {
                let cleared = self.unload(top_run(self.stack, false));
                Shunt { output: cleared.output, stack: cleared.stack.push(token) }
            },
            TokenView::LeftParen => Shunt { output: self.output, stack: self.stack.push(token) },
            TokenView::RightParen => {
                let cleared = self.unload(top_run(self.stack, true));
                Shunt {
                    output: cleared.output,
                    stack: if cleared.stack.len() > 0 {
                        cleared.stack.drop_last()
                    } else {
                        cleared.stack
                    },
                }
            },
        }
    }

    /// The state after all of `tokens`, read from left to right.
    pub open spec fn run(tokens: Seq<TokenView>) -> Shunt
        decreases tokens.len(),
    {
        if tokens.len() == 0 {
            Shunt::start()
        } else {
            Shunt::run(tokens.drop_last()).step(tokens.last())
        }
    }

    /// Everything left on the stack moved to the output.
    pub open spec fn drain(self) -> Shunt {
        self.unload(self.stack.len())
    }
}

/// The postfix order of `tokens`.
pub open spec fn postfix_of(tokens: Seq<TokenView>) -> Seq<TokenView> {
    Shunt::run(tokens).drain().output
}

/// Moving no token changes nothing.
proof fn lemma_unload_none(s: Shunt)
    ensures
        s.unload(0) == s,
{
    assert(s.unload(0).output =~= s.output);
    assert(s.unload(0).stack =~= s.stack);
}

/// Moving `count` tokens and then one more moves `count + 1` tokens.
proof fn lemma_unload_one_more(s: Shunt, count: nat)
    requires
        count < s.stack.len(),
    ensures
        s.unload(count).unload(1) == s.unload(count + 1),
{
    assert(s.unload(count).unload(1).output =~= s.unload(count + 1).output);
    assert(s.unload(count).unload(1).stack =~= s.unload(count + 1).stack);
}

/// The state that two vectors of tokens stand for.
pub open spec fn shunt_of(output: &Vec<Token>, operators: &Vec<Token>) -> Shunt {
    Shunt { output: output.deep_view(), stack: operators.deep_view() }
}

/// Whether there is a token on top of `operators` and it gives way.
fn gives_way_on_top(operators: &Vec<Token>, closing: bool) -> (r: bool)
    ensures
        r == (operators@.len() > 0 && gives_way(operators@.last()@, closing)),
{
    let n: usize = operators.len();
    if n == 0 {
        false
    } else {
        match &operators[n - 1] {
            Token::Operator(_) => true,
            Token::LeftParen => false,
            _ => closing,
        }
    }
}

/// Moves the top of `operators` to the end of `output`.
fn pop_to_output(output: &mut Vec<Token>, operators: &mut Vec<Token>)
    requires
        old(operators)@.len() > 0,
    ensures
        shunt_of(final(output), final(operators)) == shunt_of(old(output), old(operators)).unload(1),
{
    let ghost start = shunt_of(output, operators);
    match operators.pop() {
        Some(token) => output.push(token),
        None => {},
    }
    proof {
        let end = shunt_of(output, operators);
        assert(end.output =~= start.unload(1).output);
        assert(end.stack =~= start.unload(1).stack);
    }
}

/// Moves tokens from the top of `operators` to `output` for as long as the
/// top gives way.
fn unload_top(output: &mut Vec<Token>, operators: &mut Vec<Token>, closing: bool)
    ensures
        shunt_of(final(output), final(operators)) == shunt_of(old(output), old(operators)).unload(
            top_run(old(operators).deep_view(), closing),
        ),
{
    let ghost start = shunt_of(output, operators);
    let ghost mut count: nat = 0;
    proof {
        lemma_unload_none(start);
    }
    while gives_way_on_top(operators, closing)
        invariant
            count + top_run(operators.deep_view(), closing) == top_run(start.stack, closing),
            count <= start.stack.len(),
            shunt_of(output, operators) == start.unload(count),
        decreases operators@.len(),
    {
        pop_to_output(output, operators);
        proof {
            lemma_unload_one_more(start, count);
            count = count + 1;
        }
    }
}

/// Moves everything left on `operators` to `output`, the top first.
fn drain(output: &mut Vec<Token>, operators: &mut Vec<Token>)
    ensures
        final(operators)@.len() == 0,
        shunt_of(final(output), final(operators)) == shunt_of(old(output), old(operators)).drain(),
{
    let ghost start = shunt_of(output, operators);
    let ghost mut count: nat = 0;
    proof {
        lemma_unload_none(start);
    }
    while operators.len() > 0
        invariant
            count + operators@.len() == start.stack.len(),
            shunt_of(output, operators) == start.unload(count),
        decreases operators@.len(),
    {
        pop_to_output(output, operators);
        proof {
            assert(operators.deep_view().len() == operators@.len());
            lemma_unload_one_more(start, count);
            count = count + 1;
        }
    }
}

/// Reorders an infix token sequence into postfix order.
pub fn infix_to_rpn(tokens: Vec<Token>) -> (rpn: Vec<Token>)
    ensures
        rpn.deep_view() == postfix_of(tokens.deep_view()),
{
    let ghost all = tokens.deep_view();
    let mut output: Vec<Token> = Vec::new();
    let mut operators: Vec<Token> = Vec::new();
    proof {
        assert(output.deep_view() =~= Shunt::start().output);
        assert(operators.deep_view() =~= Shunt::start().stack);
    }
    for token in it: tokens
        invariant
            it.seq() == tokens@,
            all == tokens.deep_view(),
            shunt_of(&output, &operators) == Shunt::run(all.take(it.index() as int)),
    {
        let ghost before = shunt_of(&output, &operators);
        let ghost current = token@;
        proof {
            let read = all.take(it.index() + 1);
            assert(read.drop_last() == all.take(it.index() as int));
            assert(read.last() == current);
        }
        match token {
            Token::Number(_) => {
                output.push(token);
            },
            Token::Operator(_) => {
                unload_top(&mut output, &mut operators, false);
                operators.push(token);
            },
            Token::LeftParen => {
                operators.push(token);
            },
            Token::RightParen => {
                unload_top(&mut output, &mut operators, true);
                operators.pop();
            },
        }
        proof {
            let after = shunt_of(&output, &operators);
            assert(after.output =~= before.step(current).output);
            assert(after.stack =~= before.step(current).stack);
        }
    }
    proof {
        assert(all.take(all.len() as int) == all);
    }
    drain(&mut output, &mut operators);
    output
}

} // verus!
