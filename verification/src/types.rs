//! The expression tree, its interpreter, and the bytecode of the stack machine.

use crate::text::{i32_to_string, int_text};
use vstd::prelude::*;
use vstd::string::StringExecFns;

verus! {

/// A binary operator of the language.
#[derive(Debug, Clone, Copy, PartialEq, Eq)]
pub enum Binop {
    BPlus,
    BTimes,
}

/// A binary operation with its two operands.
#[derive(Debug, PartialEq, Eq)]
pub struct Binexp {
    pub op: Binop,
    pub lhs: Exp,
    pub rhs: Exp,
}

/// An expression: an integer literal or a binary operation.
#[derive(Debug, PartialEq, Eq)]
pub enum Exp {
    EI32(i32),
    EBinop(Box<Binexp>),
}

/// One instruction of the stack machine.
#[derive(Debug, Clone, Copy, PartialEq, Eq)]
pub enum Instr {
    IPlus,
    ITimes,
    II32(i32),
}

impl Clone for Exp {
    fn clone(&self) -> (r: Self)
        ensures
            r == *self,
        decreases self,
    {
        match self {
            Exp::EI32(i) => Exp::EI32(*i),
            Exp::EBinop(b) => Exp::EBinop(
                Box::new(Binexp { op: b.op, lhs: b.lhs.clone(), rhs: b.rhs.clone() }),
            ),
        }
    }
}

impl Clone for Binexp {
    fn clone(&self) -> (r: Self)
        ensures
            r == *self,
    {
        Binexp { op: self.op, lhs: self.lhs.clone(), rhs: self.rhs.clone() }
    }
}

/// What an operator does to two 32-bit values: the sum or the product,
/// wrapped to 32 bits.
pub open spec fn apply(op: Binop, a: i32, b: i32) -> i32 {
    match op {
        Binop::BPlus => a.wrapping_add(b),
        Binop::BTimes => a.wrapping_mul(b),
    }
}

/// The value of an expression.
pub open spec fn value(e: Exp) -> i32
    decreases e,
{
    match e {
        Exp::EI32(i) => i,
        Exp::EBinop(b) => apply(b.op, value(b.lhs), value(b.rhs)),
    }
}

/// An operator as text.
pub open spec fn op_text(op: Binop) -> Seq<char> {
    match op {
        Binop::BPlus => "+"@,
        Binop::BTimes => "*"@,
    }
}

/// An expression as text: a literal in decimal, an operation as
/// `(left op right)`.
pub open spec fn exp_text(e: Exp) -> Seq<char>
    decreases e,
{
    match e {
        Exp::EI32(i) => int_text(i as int),
        Exp::EBinop(b) => "("@ + exp_text(b.lhs) + " "@ + op_text(b.op) + " "@ + exp_text(b.rhs)
            + ")"@,
    }
}

impl Binop {
    /// Writes the operator.
    pub fn to_string(&self) -> (r: String)
        ensures
            r@ == op_text(*self),
    {
        match self {
            Binop::BPlus => String::from_str("+"),
            Binop::BTimes => String::from_str("*"),
        }
    }
}

impl Binexp {
    /// Writes the operation as `(left op right)`.
    pub fn to_string(&self) -> (r: String)
        ensures
            r@ == exp_text(Exp::EBinop(Box::new(*self))),
        decreases self,
    {
        let mut r = String::from_str("(");
        r.append(self.lhs.to_string().as_str());
        r.append(" ");
        r.append(self.op.to_string().as_str());
        r.append(" ");
        r.append(self.rhs.to_string().as_str());
        r.append(")");
        r
    }
}

impl Exp {
    /// Writes the expression, every operation in parentheses.
    pub fn to_string(&self) -> (r: String)
        ensures
            r@ == exp_text(*self),
        decreases self,
    {
        match self {
            Exp::EI32(i) => i32_to_string(*i),
            Exp::EBinop(b) => b.to_string(),
        }
    }
}

/// Evaluation to a 32-bit integer.
pub trait Interp {
    /// The value that `interp` computes.
    spec fn meaning(&self) -> i32;

    fn interp(&self) -> (r: i32)
        ensures
            r == self.meaning(),
    ;
}

impl Interp for Binexp {
    open spec fn meaning(&self) -> i32 {
        apply(self.op, value(self.lhs), value(self.rhs))
    }

    fn interp(&self) -> (r: i32)
        decreases self,
    {
        let a = self.lhs.interp();
        let b = self.rhs.interp();
        match self.op {
            Binop::BPlus => a.wrapping_add(b),
            Binop::BTimes => a.wrapping_mul(b),
        }
    }
}

impl Interp for Exp {
    open spec fn meaning(&self) -> i32 {
        value(*self)
    }

    fn interp(&self) -> (r: i32)
        decreases self,
    {
        match self {
            Exp::EI32(i) => *i,
            Exp::EBinop(b) => b.interp(),
        }
    }
}

} // verus!
