//! The calculator façade: from a raw line to postfix tokens and operand trees.

use vstd::prelude::*;
use crate::expr::{assemble, assembled, Assembly};
use crate::format::{format_text, formatted};
use crate::lexer::{texts, tokenize, words};
use crate::postfix::{all_classified, classified, postfix, to_postfix};
use crate::token::{symbols, CalcError, Symbol, Token};

verus! {

/// What the pipeline makes of a raw line: format, split, reject an empty
/// line, then classify every unit and convert to postfix order.
pub open spec fn parsed(s: Seq<char>) -> Result<Seq<Symbol>, CalcError> {
    let units = words(formatted(s));
    if units.len() == 0 {
        Err(CalcError::EmptyExpression)
    } else if !all_classified(units) {
        Err(CalcError::InvalidNumber)
    } else {
        Ok(postfix(classified(units)))
    }
}

/// Binding strength of an operator character: 1 for `+ -`, 2 for `* /`, 0
/// for any other character.
pub open spec fn char_precedence(op: char) -> u8 {
    if op == '+' || op == '-' {
        1
    } else if op == '*' || op == '/' {
        2
    } else {
        0
    }
}

/// An evaluation setting: angles in radians (`rad_mode`) or in degrees.
pub struct Calculator {
    pub rad_mode: bool,
}

impl Calculator {
    /// A calculator in radian mode (`true`) or degree mode (`false`).
    pub fn new(rad_mode: bool) -> (r: Self)
        ensures
            r.rad_mode == rad_mode,
    {
        Self { rad_mode }
    }

    /// Binding strength of an operator character (see `char_precedence`).
    pub fn get_precedence(op: char) -> (r: u8)
        ensures
            r == char_precedence(op),
    {
        match op {
            '+' | '-' => 1,
            '*' | '/' => 2,
            _ => 0,
        }
    }

    /// Spaces a raw line into units (see `formatted`).
    pub fn format_expression(&self, expr: &str) -> (r: String)
        ensures
            r@ == formatted(expr@),
    {
        format_text(expr)
    }

    /// Converts units to postfix order with the shunting-yard algorithm.
    pub fn infix_to_postfix(&self, tokens: Vec<&str>) -> (r: Result<Vec<Token>, CalcError>)
        ensures
            match r {
                Ok(ts) => all_classified(texts(tokens@)) && symbols(ts@) == postfix(
                    classified(texts(tokens@)),
                ),
                Err(e) => e == CalcError::InvalidNumber && !all_classified(texts(tokens@)),
            },
    {
        to_postfix(&tokens)
    }

    /// Formats, splits and converts a raw line to postfix tokens.
    pub fn parse(&self, expr: &str) -> (r: Result<Vec<Token>, CalcError>)
        ensures
            match r {
                Ok(ts) => parsed(expr@) == Ok::<Seq<Symbol>, CalcError>(symbols(ts@)),
                Err(e) => parsed(expr@) == Err::<Seq<Symbol>, CalcError>(e),
            },
    {
        let line = self.format_expression(expr);
        let units = tokenize(line.as_str());
        if units.len() == 0 {
            return Err(CalcError::EmptyExpression);
        }
        to_postfix(&units)
    }

    /// Parses a raw line and assembles its postfix tokens into operand trees,
    /// ready for numeric evaluation in this calculator's angle mode.
    pub fn prepare(&self, expr: &str) -> (r: Result<Assembly, CalcError>)
        ensures
            match r {
                Ok(a) => parsed(expr@) is Ok && a@ == assembled(parsed(expr@)->Ok_0),
                Err(e) => parsed(expr@) == Err::<Seq<Symbol>, CalcError>(e),
            },
    {
        match self.parse(expr) {
            Ok(ts) => Ok(assemble(ts)),
            Err(e) => Err(e),
        }
    }
}

} // verus!
