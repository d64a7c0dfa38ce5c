//! A small arithmetic expression pipeline: text is split into tokens, the
//! tokens are reordered from infix to postfix with every operator at the same
//! precedence, and the postfix sequence is reduced with a single operand stack.
//!
//! Each stage is a function of its own: [`tokenize`], [`infix_to_rpn`] and
//! [`evaluate_rpn`]. The numbers that an expression is evaluated on are the
//! caller's; the library decides what is done with them and in which order.
//! The modules whose names end in `_laws` hold what is proved of every run of
//! a stage, or of two stages together.

pub mod chars;
mod seqs;
pub mod token;
pub mod lexer;
pub mod lexer_laws;
pub mod postfix;
pub mod postfix_laws;
pub mod eval;
pub mod eval_laws;
pub mod pipeline_laws;
pub mod command_line;

pub use crate::chars::{classify, CharClass};
pub use crate::command_line::expression_from_args;
pub use crate::eval::{evaluate_rpn, parse_operator, BinOp, EvalError};
pub use crate::lexer::{tokenize, Lexed};
pub use crate::postfix::infix_to_rpn;
pub use crate::token::Token;
