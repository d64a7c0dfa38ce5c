//! Reduction of a postfix token sequence with one operand stack.
//!
//! The stack discipline is decided here: which operands are pushed, which
//! operation is applied to which two operands, when the reduction fails and
//! what its value is. The numbers themselves belong to the caller, who hands
//! in three functions: one that reads a literal, one that tells whether a
//! number is zero, and one that applies an operation to two numbers.

use vstd::prelude::*;
use crate::token::Token;

verus! {

/// One of the four binary operations.
#[derive(Clone, Copy, Debug, PartialEq, Eq, Structural)]
pub enum BinOp {
    /// `+`
    Add,
    /// `-`
    Subtract,
    /// `*`
    Multiply,
    /// `/`
    Divide,
}

/// Why a postfix sequence has no value.
#[derive(Clone, Debug, PartialEq, Eq)]
pub enum EvalError {
    /// A number literal that cannot be read as a number.
    ParseError(String),
    /// An operator met fewer than two operands on the stack.
    InsufficientOperands,
    /// A division whose right operand is exactly zero.
    DivisionByZero,
    /// An operator token whose symbol is none of `+ - * /`.
    InvalidOperator(String),
    /// A parenthesis in a postfix sequence.
    InvalidToken,
    /// The stack does not hold exactly one operand at the end.
    InvalidExpression,
}

/// An [`EvalError`] in contracts, with its text as a sequence of characters.
pub enum EvalErrorView {
    ParseError(Seq<char>),
    InsufficientOperands,
    DivisionByZero,
    InvalidOperator(Seq<char>),
    InvalidToken,
    InvalidExpression,
}

impl View for EvalError {
    type V = EvalErrorView;

    open spec fn view(&self) -> EvalErrorView {
        match self {
            EvalError::ParseError(literal) => EvalErrorView::ParseError(literal@),
            EvalError::InsufficientOperands => EvalErrorView::InsufficientOperands,
            EvalError::DivisionByZero => EvalErrorView::DivisionByZero,
            EvalError::InvalidOperator(symbol) => EvalErrorView::InvalidOperator(symbol@),
            EvalError::InvalidToken => EvalErrorView::InvalidToken,
            EvalError::InvalidExpression => EvalErrorView::InvalidExpression,
        }
    }
}

impl EvalErrorView {
    /// The text that describes the failure.
    pub open spec fn message(self) -> Seq<char> {
        match self {
            EvalErrorView::ParseError(literal) => "Invalid number: "@ + literal,
            EvalErrorView::InsufficientOperands => "Insufficient operands for operator"@,
            EvalErrorView::DivisionByZero => "Division by zero"@,
            EvalErrorView::InvalidOperator(symbol) => "Invalid operator: "@ + symbol,
            EvalErrorView::InvalidToken => "Invalid token"@,
            EvalErrorView::InvalidExpression => "Invalid expression"@,
        }
    }
}

impl EvalError {
    /// Describes the failure in words.
    pub fn message(&self) -> (text: String)
        ensures
            text@ == self@.message(),
    {
        match self {
            EvalError::ParseError(literal) => "Invalid number: ".to_owned().concat(
                literal.as_str(),
            ),
            EvalError::InsufficientOperands => "Insufficient operands for operator".to_owned(),
            EvalError::DivisionByZero => "Division by zero".to_owned(),
            EvalError::InvalidOperator(symbol) => "Invalid operator: ".to_owned().concat(
                symbol.as_str(),
            ),
            EvalError::InvalidToken => "Invalid token".to_owned(),
            EvalError::InvalidExpression => "Invalid expression".to_owned(),
        }
    }
}

/// The operation that an operator symbol stands for.
pub open spec fn operator_of(symbol: Seq<char>) -> Option<BinOp> {
    if symbol.len() != 1 {
        None
    } else if symbol[0] == '+' {
        Some(BinOp::Add)
    } else if symbol[0] == '-' {
        Some(BinOp::Subtract)
    } else if symbol[0] == '*' {
        Some(BinOp::Multiply)
    } else if symbol[0] == '/' {
        Some(BinOp::Divide)
    } else {
        None
    }
}

/// Reads an operator symbol.
pub fn parse_operator(symbol: &String) -> (op: Option<BinOp>)
    ensures
        op == operator_of(symbol@),
{
    let text = symbol.as_str();
    if text.unicode_len() != 1 {
        return None;
    }
    let c = text.get_char(0);
    if c == '+' {
        Some(BinOp::Add)
    } else if c == '-' {
        Some(BinOp::Subtract)
    } else if c == '*' {
        Some(BinOp::Multiply)
    } else if c == '/' {
        Some(BinOp::Divide)
    } else {
        None
    }
}

/// An arithmetic on numbers of type `V` as contracts see it: what its three
/// functions may answer. An answer need not be the only one.
#[verifier::reject_recursive_types(V)]
pub struct Arithmetic<V> {
    /// `reads(literal, answer)`: reading `literal` may give `answer`, which is
    /// a number, or nothing where the literal is taken for no number.
    pub reads: spec_fn(String, Option<V>) -> bool,
    /// `tests_zero(value, answer)`: asked whether `value` is zero, the
    /// arithmetic may give `answer`.
    pub tests_zero: spec_fn(V, bool) -> bool,
    /// `applies(op, left, right, value)`: applying `op` to `left` and `right`
    /// may give `value`.
    pub applies: spec_fn(BinOp, V, V, V) -> bool,
}

impl<V> Arithmetic<V> {
    /// Reading `literal` may give `value`.
    pub open spec fn reads_as(self, literal: String, value: V) -> bool {
        (self.reads)(literal, Some(value))
    }

    /// Reading `literal` may give nothing.
    pub open spec fn rejects(self, literal: String) -> bool {
        (self.reads)(literal, None)
    }

    /// `value` may be taken for zero.
    pub open spec fn may_be_zero(self, value: V) -> bool {
        (self.tests_zero)(value, true)
    }

    /// `value` may be taken for other than zero.
    pub open spec fn may_be_nonzero(self, value: V) -> bool {
        (self.tests_zero)(value, false)
    }

    /// Applying `op` to `left` and `right` may give `value`.
    pub open spec fn gives(self, op: BinOp, left: V, right: V, value: V) -> bool {
        (self.applies)(op, left, right, value)
    }
}

/// The arithmetic that three functions of the caller make up: what each may
/// answer is what its own contract allows.
pub open spec fn arithmetic_of<V, P, Z, A>(parse: P, is_zero: Z, apply: A) -> Arithmetic<V> where
    P: Fn(&String) -> Option<V>,
    Z: Fn(&V) -> bool,
    A: Fn(BinOp, V, V) -> V,
 {
    Arithmetic {
        reads: |literal: String, answer: Option<V>| parse.ensures((&literal,), answer),
        tests_zero: |value: V, answer: bool| is_zero.ensures((&value,), answer),
        applies: |op: BinOp, left: V, right: V, value: V| apply.ensures((op, left, right), value),
    }
}

/// Whether reducing `tokens` on top of `stack` can come to `result` in the
/// given arithmetic.
///
/// A number is read and pushed, or the reduction fails where it cannot be
/// read. An operator needs two operands and a known symbol; the topmost
/// operand is its right one and the one below its left one, and the result
/// takes the place of both. A division fails where the right operand is
/// zero. A parenthesis fails. At the end the stack has to hold exactly one
/// operand, which is the value.
pub open spec fn reduces_to<V>(
    tokens: Seq<Token>,
    stack: Seq<V>,
    arithmetic: Arithmetic<V>,
    result: Result<V, EvalError>,
) -> bool
    decreases tokens.len(),
{
    if tokens.len() == 0 {
        if stack.len() == 1 {
            result == Ok::<V, EvalError>(stack[0])
        } else {
            result == Err::<V, EvalError>(EvalError::InvalidExpression)
        }
    } else {
        let rest = tokens.skip(1);
        match tokens[0] {
            Token::Number(literal) => {
                ||| arithmetic.rejects(literal) && result == Err::<V, EvalError>(
                    EvalError::ParseError(literal),
                )
                ||| exists|value: V|
                    #[trigger] arithmetic.reads_as(literal, value) && reduces_to(
                        rest,
                        stack.push(value),
                        arithmetic,
                        result,
                    )
            },
            Token::Operator(symbol) => {
                if stack.len() < 2 {
                    result == Err::<V, EvalError>(EvalError::InsufficientOperands)
                } else {
                    match operator_of(symbol@) {
                        None => result == Err::<V, EvalError>(EvalError::InvalidOperator(symbol)),
                        Some(op) => {
                            let right = stack[stack.len() - 1];
                            let left = stack[stack.len() - 2];
                            let below = stack.take(stack.len() - 2);
                            ||| op == BinOp::Divide && arithmetic.may_be_zero(right) && result
                                == Err::<V, EvalError>(EvalError::DivisionByZero)
                            ||| (op != BinOp::Divide || arithmetic.may_be_nonzero(right))
                                && exists|value: V|
                                #[trigger] arithmetic.gives(op, left, right, value) && reduces_to(
                                    rest,
                                    below.push(value),
                                    arithmetic,
                                    result,
                                )
                        },
                    }
                }
            },
            _ => result == Err::<V, EvalError>(EvalError::InvalidToken),
        }
    }
}

/// Whether the caller's three functions can be called as the reduction calls
/// them: `parse` on every literal, `is_zero` on every number, and `apply` on
/// every operation and pair of operands but a division by a number that
/// `is_zero` takes for zero.
pub open spec fn callable<V, P, Z, A>(parse: P, is_zero: Z, apply: A) -> bool where
    P: Fn(&String) -> Option<V>,
    Z: Fn(&V) -> bool,
    A: Fn(BinOp, V, V) -> V,
 {
    &&& forall|literal: &String| #[trigger] parse.requires((literal,))
    &&& forall|value: &V| #[trigger] is_zero.requires((value,))
    &&& forall|op: BinOp, left: V, right: V|
        (op != BinOp::Divide || is_zero.ensures((&right,), false)) ==> #[trigger] apply.requires(
            (op, left, right),
        )
}

/// Reduces a postfix sequence to its value.
///
/// The numbers are the caller's: `parse` reads a number literal, if it can;
/// `is_zero` tells whether a number is exactly zero; `apply` applies an
/// operation to a left and a right operand.
pub fn evaluate_rpn<V, P, Z, A>(tokens: Vec<Token>, parse: P, is_zero: Z, apply: A) -> (result:
    Result<V, EvalError>) where
    P: Fn(&String) -> Option<V>,
    Z: Fn(&V) -> bool,
    A: Fn(BinOp, V, V) -> V,

    requires
        callable(parse, is_zero, apply),
    ensures
        reduces_to(tokens@, Seq::empty(), arithmetic_of(parse, is_zero, apply), result),
{
    let ghost all = tokens@;
    let ghost arithmetic = arithmetic_of(parse, is_zero, apply);
    let mut stack: Vec<V> = Vec::new();
    proof {
        assert(all.skip(0) =~= all);
    }
    for token in it: tokens
        invariant
            it.seq() == all,
            callable(parse, is_zero, apply),
            arithmetic == arithmetic_of(parse, is_zero, apply),
            forall|r: Result<V, EvalError>| #[trigger]
                reduces_to(all.skip(it.index() as int), stack@, arithmetic, r) ==> reduces_to(
                    all,
                    Seq::empty(),
                    arithmetic,
                    r,
                ),
    {
        let ghost rest = all.skip(it.index() as int);
        let ghost before = stack@;
        proof {
            assert(rest[0] == token);
            assert(rest.skip(1) =~= all.skip(it.index() + 1));
        }
        match token {
            Token::Number(literal) => {
                let ghost text = literal;
                match parse(&literal) {
                    Some(value) => {
                        let ghost pushed = value;
                        stack.push(value);
                        proof {
                            assert(arithmetic.reads_as(text, pushed));
                            assert forall|r: Result<V, EvalError>| #[trigger]
                                reduces_to(rest.skip(1), stack@, arithmetic, r) implies reduces_to(
                                rest,
                                before,
                                arithmetic,
                                r,
                            ) by {
                                assert(reduces_to(rest.skip(1), before.push(pushed), arithmetic, r));
                            }
                        }
                    },
                    None => {
                        let failure = Err(EvalError::ParseError(literal));
                        assert(arithmetic.rejects(text));
                        assert(reduces_to(rest, before, arithmetic, failure));
                        return failure;
                    },
                }
            },
            Token::Operator(symbol) => {
                if stack.len() < 2 {
                    let failure = Err(EvalError::InsufficientOperands);
                    assert(reduces_to(rest, before, arithmetic, failure));
                    return failure;
                }
                match parse_operator(&symbol) {
                    Some(op) => {
                        let right = stack.pop().unwrap();
                        let left = stack.pop().unwrap();
                        let ghost operands = (left, right);
                        proof {
                            assert(stack@ =~= before.take(before.len() - 2));
                        }
                        let zero = match op {
                            BinOp::Divide => is_zero(&right),
                            _ => false,
                        };
                        if zero {
                            let failure = Err(EvalError::DivisionByZero);
                            assert(arithmetic.may_be_zero(operands.1));
                            assert(reduces_to(rest, before, arithmetic, failure));
                            return failure;
                        }
                        let value = apply(op, left, right);
                        let ghost applied = value;
                        stack.push(value);
                        proof {
                            assert(op != BinOp::Divide || arithmetic.may_be_nonzero(operands.1));
                            assert(arithmetic.gives(op, operands.0, operands.1, applied));
                            assert forall|r: Result<V, EvalError>| #[trigger]
                                reduces_to(rest.skip(1), stack@, arithmetic, r) implies reduces_to(
                                rest,
                                before,
                                arithmetic,
                                r,
                            ) by {
                                assert(reduces_to(
                                    rest.skip(1),
                                    before.take(before.len() - 2).push(applied),
                                    arithmetic,
                                    r,
                                ));
                            }
                        }
                    },
                    None => {
                        let failure = Err(EvalError::InvalidOperator(symbol));
                        assert(reduces_to(rest, before, arithmetic, failure));
                        return failure;
                    },
                }
            },
            _ => {
                let failure = Err(EvalError::InvalidToken);
                assert(reduces_to(rest, before, arithmetic, failure));
                return failure;
            },
        }
    }
    proof {
        assert(all.skip(all.len() as int) =~= Seq::<Token>::empty());
    }
    let ghost end = stack@;
    let result = if stack.len() == 1 {
        match stack.pop() {
            Some(value) => Ok(value),
            None => Err(EvalError::InvalidExpression),
        }
    } else {
        Err(EvalError::InvalidExpression)
    };
    assert(reduces_to(Seq::<Token>::empty(), end, arithmetic, result));
    result
}

} // verus!
