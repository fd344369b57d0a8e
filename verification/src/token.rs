//! The tokens of the expression language.

use vstd::prelude::*;

verus! {

/// A binary operator.
#[derive(Debug, Copy, Clone, PartialEq, Eq, Structural)]
pub enum MathOp {
    Add,
    Sub,
    Mul,
    Div,
    Pow,
}

/// One token of source text. A number is held as its binary64 bit pattern.
#[derive(Debug, Copy, Clone, PartialEq, Eq, Structural)]
pub enum Token {
    Num(u64),
    BrOpen,
    BrClose,
    Op(MathOp),
}

/// Why no token could be read.
#[derive(Debug, Copy, Clone, PartialEq, Eq, Structural)]
pub enum LexError {
    /// A character that starts no token.
    UnexpectedCharacter,
    /// A run of digits and decimal points that is no number.
    InvalidNumberLiteral,
}

} // verus!
