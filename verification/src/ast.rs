//! The expression tree.

use crate::number::MINUS_ONE_BITS;
use crate::token::MathOp;
use vstd::prelude::*;

verus! {

/// An expression: a number, held as its binary64 bit pattern, or an operation
/// on two expressions.
#[derive(Debug, PartialEq, Eq)]
pub enum AST {
    Num(u64),
    Op(Operation),
}

/// A binary operation and its two operands.
#[derive(Debug, PartialEq, Eq)]
pub struct Operation {
    pub lhs: Box<AST>,
    pub rhs: Box<AST>,
    pub op: MathOp,
}

/// The tree of `lhs op rhs`.
pub open spec fn binary(op: MathOp, lhs: AST, rhs: AST) -> AST {
    AST::Op(Operation { lhs: Box::new(lhs), rhs: Box::new(rhs), op })
}

/// The tree of `-operand`: the product of -1 and the operand.
pub open spec fn negation(operand: AST) -> AST {
    binary(MathOp::Mul, AST::Num(MINUS_ONE_BITS), operand)
}

impl AST {
    /// No node of the tree is a power.
    pub open spec fn pow_free(self) -> bool
        decreases self,
    {
        match self {
            AST::Num(_) => true,
            AST::Op(o) => o.op != MathOp::Pow && o.lhs.pow_free() && o.rhs.pow_free(),
        }
    }

    /// How many numbers the tree holds.
    pub open spec fn leaves(self) -> nat
        decreases self,
    {
        match self {
            AST::Num(_) => 1,
            AST::Op(o) => o.lhs.leaves() + o.rhs.leaves(),
        }
    }

    /// How many operations the tree holds.
    pub open spec fn operations(self) -> nat
        decreases self,
    {
        match self {
            AST::Num(_) => 0,
            AST::Op(o) => 1 + o.lhs.operations() + o.rhs.operations(),
        }
    }

    /// The value of the tree under the arithmetic `arith`, which says what an
    /// operator makes of the bit patterns of its two operands.
    pub open spec fn value(self, arith: spec_fn(MathOp, u64, u64) -> u64) -> u64
        decreases self,
    {
        match self {
            AST::Num(bits) => bits,
            AST::Op(o) => arith(o.op, o.lhs.value(arith), o.rhs.value(arith)),
        }
    }

    /// Whether no node of the tree is a power.
    pub fn is_pow_free(&self) -> (r: bool)
        ensures
            r == self.pow_free(),
        decreases self,
    {
        match self {
            AST::Num(_) => true,
            AST::Op(o) => {
                let plain = match o.op {
                    MathOp::Pow => false,
                    _ => true,
                };
                plain && o.lhs.is_pow_free() && o.rhs.is_pow_free()
            },
        }
    }
}

} // verus!
