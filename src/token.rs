//! Lexical units of a calculator expression and the engine's error kinds.

use vstd::prelude::*;

verus! {

/// A binary arithmetic operator.
#[derive(Clone, Copy, Debug, PartialEq, Eq, Structural)]
pub enum BinOp {
    Add,
    Sub,
    Mul,
    Div,
}

/// A unary function applied to the operand that follows it.
#[derive(Clone, Copy, Debug, PartialEq, Eq, Structural)]
pub enum Func {
    Sin,
    Cos,
    Tan,
    Ln,
    Log,
    Asin,
    Acos,
    Atan,
}

/// A lexical unit. A number keeps its literal text, which is a valid
/// floating-point literal; its value is read by the evaluating caller.
#[derive(Debug, PartialEq)]
pub enum Token {
    Number(String),
    Operator(BinOp),
    Function(Func),
}

/// The mathematical view of a token.
pub enum Symbol {
    Number(Seq<char>),
    Operator(BinOp),
    Function(Func),
}

impl View for Token {
    type V = Symbol;

    open spec fn view(&self) -> Symbol {
        match self {
            Token::Number(s) => Symbol::Number(s@),
            Token::Operator(op) => Symbol::Operator(*op),
            Token::Function(f) => Symbol::Function(*f),
        }
    }
}

/// The symbols of a sequence of tokens.
pub open spec fn symbols(ts: Seq<Token>) -> Seq<Symbol> {
    ts.map_values(|t: Token| t@)
}

/// Why an expression could not be evaluated.
#[derive(Clone, Copy, Debug, PartialEq, Eq, Structural)]
pub enum CalcError {
    /// The formatted input holds no unit.
    EmptyExpression,
    /// A unit is neither an operator, a function name nor a number literal.
    InvalidNumber,
    /// An operator or function finds too few operands, or none is left.
    MalformedExpression,
    /// A divisor is exactly zero.
    DivisionByZero,
    /// `ln` or `log` of a non-positive value, or `asin` / `acos` outside [-1, 1].
    DomainError,
}

/// Binding strength of a binary operator: `+ -` bind weaker than `* /`.
pub open spec fn precedence(op: BinOp) -> nat {
    match op {
        BinOp::Add | BinOp::Sub => 1,
        BinOp::Mul | BinOp::Div => 2,
    }
}

/// The name that writes a function.
pub open spec fn function_name(f: Func) -> Seq<char> {
    match f {
        Func::Sin => seq!['s', 'i', 'n'],
        Func::Cos => seq!['c', 'o', 's'],
        Func::Tan => seq!['t', 'a', 'n'],
        Func::Ln => seq!['l', 'n'],
        Func::Log => seq!['l', 'o', 'g'],
        Func::Asin => seq!['a', 's', 'i', 'n'],
        Func::Acos => seq!['a', 'c', 'o', 's'],
        Func::Atan => seq!['a', 't', 'a', 'n'],
    }
}

/// The character that writes an operator.
pub open spec fn operator_char(op: BinOp) -> char {
    match op {
        BinOp::Add => '+',
        BinOp::Sub => '-',
        BinOp::Mul => '*',
        BinOp::Div => '/',
    }
}

impl BinOp {
    /// Binding strength of the operator (see the spec function `precedence`).
    pub fn precedence(self) -> (r: u8)
        ensures
            r == precedence(self),
    {
        match self {
            BinOp::Add | BinOp::Sub => 1,
            BinOp::Mul | BinOp::Div => 2,
        }
    }
}

} // verus!
