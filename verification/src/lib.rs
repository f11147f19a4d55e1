//! A small expression language whose numeric literals can carry a unit
//! (percentage, repetition count, time duration).
//!
//! The pipeline has three stages: a lexer that turns source text into a
//! token sequence, a recursive-descent parser that builds an abstract
//! syntax tree with panic-mode error recovery, and a tree-walking
//! evaluator with unit-aware, type-aware operator semantics.

use vstd::prelude::*;
use vstd::string::StringExecFns;

pub mod ast;
pub mod interpreter;
pub mod lexer;
pub mod number;
pub mod parser;
pub mod reporting;
mod text;

use crate::ast::{BinaryOp, OpToken, UnaryOp};
use crate::lexer::TokenType;

verus! {

/// Every failure the pipeline can hand back to its caller.
#[derive(Debug, Clone, Copy, PartialEq, Eq)]
pub enum WmdError {
    /// A numeric literal carries a suffix other than `x`, `%`, `s` or `m`.
    BadUnit,
    /// The parser met a grammar violation; details went to the reporter.
    ParseError,
    /// A token type stood where an operator was expected.
    UnexpectedTokenOp(TokenType),
    /// A unary operator met an operand that is not a number.
    UnaryNumberRequired(OpToken<UnaryOp>),
    /// A binary operator met an operand that is not a number.
    BinaryNumberRequired(OpToken<BinaryOp>),
    /// `+` met operands that are neither numbers nor strings.
    NumberOrStringRequired(OpToken<BinaryOp>),
    /// A division's right operand is zero.
    DivisionByZero(OpToken<BinaryOp>),
    /// An arithmetic result left the representable decimal range.
    NumberOverflow(OpToken<BinaryOp>),
}

/// The line-citation prefix of a runtime diagnostic.
pub open spec fn line_prefix(line: usize) -> Seq<char> {
    "[line "@ + crate::number::digits_of(line as nat) + "] "@
}

/// Build the line-citation prefix of a runtime diagnostic.
fn line_prefix_text(line: usize) -> (r: String)
    ensures
        r@ == line_prefix(line),
{
    let mut s = String::from_str("[line ");
    let digits = crate::number::u128_digits(line as u128);
    crate::text::push_chars(&mut s, &digits);
    s.append("] ");
    s
}

impl WmdError {
    /// The diagnostic text of this failure.
    pub open spec fn spec_message(self) -> Seq<char> {
        match self {
            WmdError::BadUnit => "invalid unit, expected x, %, s or m"@,
            WmdError::ParseError => "error parsing"@,
            WmdError::UnexpectedTokenOp(t) => "unexpected operator: "@ + t.spec_name(),
            WmdError::UnaryNumberRequired(op) => line_prefix(op.line) + "Unary operator '"@
                + op.typ.spec_symbol() + "' requires number operand"@,
            WmdError::BinaryNumberRequired(op) => line_prefix(op.line) + "Binary operator '"@
                + op.typ.spec_symbol() + "' requires number operands"@,
            WmdError::NumberOrStringRequired(op) => line_prefix(op.line) + "Operator '"@
                + op.typ.spec_symbol() + "' requires number or string operands"@,
            WmdError::DivisionByZero(op) => line_prefix(op.line) + "Division by zero"@,
            WmdError::NumberOverflow(op) => line_prefix(op.line)
                + "Number out of decimal range"@,
        }
    }

    /// The diagnostic text of this failure.
    pub fn message(&self) -> (r: String)
        ensures
            r@ == self.spec_message(),
    {
        match self {
            WmdError::BadUnit => String::from_str("invalid unit, expected x, %, s or m"),
            WmdError::ParseError => String::from_str("error parsing"),
            WmdError::UnexpectedTokenOp(t) => {
                let mut s = String::from_str("unexpected operator: ");
                let name = t.name();
                s.append(name.as_str());
                s
            },
            WmdError::UnaryNumberRequired(op) => {
                let mut s = line_prefix_text(op.line);
                s.append("Unary operator '");
                let sym = op.typ.symbol_text();
                s.append(sym.as_str());
                s.append("' requires number operand");
                s
            },
            WmdError::BinaryNumberRequired(op) => {
                let mut s = line_prefix_text(op.line);
                s.append("Binary operator '");
                let sym = op.typ.symbol_text();
                s.append(sym.as_str());
                s.append("' requires number operands");
                s
            },
            WmdError::NumberOrStringRequired(op) => {
                let mut s = line_prefix_text(op.line);
                s.append("Operator '");
                let sym = op.typ.symbol_text();
                s.append(sym.as_str());
                s.append("' requires number or string operands");
                s
            },
            WmdError::DivisionByZero(op) => {
                let mut s = line_prefix_text(op.line);
                s.append("Division by zero");
                s
            },
            WmdError::NumberOverflow(op) => {
                let mut s = line_prefix_text(op.line);
                s.append("Number out of decimal range");
                s
            },
        }
    }
}

} // verus!
