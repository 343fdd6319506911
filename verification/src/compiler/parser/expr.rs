//! Expression trees, as the semantic analysis hands them to code generation.
use vstd::prelude::*;

use crate::reporting::Location;
use crate::stdlib::NativeFunction;
use crate::vm::error::RuntimeError;
use crate::vm::opcode::Opcode;
use crate::vm::operator::{BinaryOp, UnaryOp};
use crate::vm::value::LiteralType;

verus! {

/// A resolved variable: a local slot, a global slot, or an upvalue of the enclosing closure.
#[derive(Eq, PartialEq, Debug, Clone, Copy)]
pub enum LValueReference {
    Local(u32),
    Global(u32),
    UpValue(u32),
}

/// The target of a pattern assignment: `_`, a variable, or a sequence of patterns that the
/// assigned value is taken apart into, element by element.
#[derive(Debug)]
pub enum LValue {
    Empty,
    Named(LValueReference),
    Terms(Vec<LValue>),
}

/// An expression, with the location of the source text it was read from.
#[derive(Debug)]
pub struct Expr(pub Location, pub ExprType);

#[derive(Debug)]
pub enum ExprType {
    Nil,
    Exit,
    Bool(bool),
    Int(i64),
    Complex(i64, i64),
    Str(String),
    LValue(LValueReference),
    NativeFunction(NativeFunction),
    /// A function constant, with the opcodes that close over its captured variables.
    Function(u32, Vec<Opcode>),
    SliceLiteral(Box<Expr>, Box<Expr>, Box<Option<Expr>>),
    Unary(UnaryOp, Box<Expr>),
    Binary(BinaryOp, Box<Expr>, Box<Expr>),
    Literal(LiteralType, Vec<Expr>),
    /// `...arg`; the flag is set on the first unrolled argument of a call.
    Unroll(Box<Expr>, bool),
    /// A call; the flag is set when an argument is unrolled.
    Eval(Box<Expr>, Vec<Expr>, bool),
    /// `arg . f`
    Compose(Box<Expr>, Box<Expr>),
    LogicalAnd(Box<Expr>, Box<Expr>),
    LogicalOr(Box<Expr>, Box<Expr>),
    Index(Box<Expr>, Box<Expr>),
    Slice(Box<Expr>, Box<Expr>, Box<Expr>),
    SliceWithStep(Box<Expr>, Box<Expr>, Box<Expr>, Box<Expr>),
    IfThenElse(Box<Expr>, Box<Expr>, Box<Expr>),
    GetField(Box<Expr>, u32),
    SetField(Box<Expr>, u32, Box<Expr>),
    /// `lhs->field op= rhs`
    SwapField(Box<Expr>, u32, Box<Expr>, BinaryOp),
    GetFieldFunction(u32),
    Assignment(LValueReference, Box<Expr>),
    ArrayAssignment(Box<Expr>, Box<Expr>, Box<Expr>),
    /// `array[index] op= rhs`; `NotEqual` stands for `.=`, which calls `rhs` on the element.
    ArrayOpAssignment(Box<Expr>, Box<Expr>, BinaryOp, Box<Expr>),
    PatternAssignment(LValue, Box<Expr>),
    /// An error found while compiling, raised where the expression would have been evaluated.
    RuntimeError(Box<RuntimeError>),
}

} // verus!
