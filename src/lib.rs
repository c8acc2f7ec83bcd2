//! A scientific-calculator expression engine.
//!
//! An input line such as `sin90-1` is spaced into lexical units, split,
//! converted to postfix order with the shunting-yard algorithm and assembled
//! into operand trees. Numeric evaluation of those trees is left to the caller.

pub mod calculator;
pub mod expr;
pub mod format;
pub mod grouping;
pub mod lexer;
pub mod postfix;
pub mod token;

pub use calculator::Calculator;
pub use expr::{assemble, Assembly, Expr};
pub use format::format_text;
pub use lexer::{float_literal, tokenize};
pub use postfix::to_postfix;
pub use token::{BinOp, CalcError, Func, Token};
