//! The operators of the language.
use vstd::prelude::*;

use crate::text::push_str;

verus! {

#[derive(Eq, PartialEq, Debug, Clone, Copy)]
pub enum UnaryOp {
    Minus,
    Not,
}

#[derive(Eq, PartialEq, Debug, Clone, Copy)]
pub enum BinaryOp {
    Mul,
    Div,
    Pow,
    Mod,
    Is,
    Add,
    Sub,
    LeftShift,
    RightShift,
    BitwiseAnd,
    BitwiseOr,
    BitwiseXor,
    LessThan,
    LessThanEqual,
    GreaterThan,
    GreaterThanEqual,
    Equal,
    NotEqual,
    Max,
    Min,
}

impl UnaryOp {
    /// The operator's name, as its variant is written.
    pub open spec fn name(self) -> Seq<char> {
        match self {
            UnaryOp::Minus => "Minus"@,
            UnaryOp::Not => "Not"@,
        }
    }

    /// Appends the operator's name at the end of `out`.
    pub fn push_name(&self, out: &mut String)
        ensures
            final(out)@ == old(out)@ + self.name(),
    {
        match self {
            UnaryOp::Minus => push_str(out, "Minus"),
            UnaryOp::Not => push_str(out, "Not"),
        }
    }
}

impl BinaryOp {
    /// The operator's name, as its variant is written.
    pub open spec fn name(self) -> Seq<char> {
        match self {
            BinaryOp::Mul => "Mul"@,
            BinaryOp::Div => "Div"@,
            BinaryOp::Pow => "Pow"@,
            BinaryOp::Mod => "Mod"@,
            BinaryOp::Is => "Is"@,
            BinaryOp::Add => "Add"@,
            BinaryOp::Sub => "Sub"@,
            BinaryOp::LeftShift => "LeftShift"@,
            BinaryOp::RightShift => "RightShift"@,
            BinaryOp::BitwiseAnd => "BitwiseAnd"@,
            BinaryOp::BitwiseOr => "BitwiseOr"@,
            BinaryOp::BitwiseXor => "BitwiseXor"@,
            BinaryOp::LessThan => "LessThan"@,
            BinaryOp::LessThanEqual => "LessThanEqual"@,
            BinaryOp::GreaterThan => "GreaterThan"@,
            BinaryOp::GreaterThanEqual => "GreaterThanEqual"@,
            BinaryOp::Equal => "Equal"@,
            BinaryOp::NotEqual => "NotEqual"@,
            BinaryOp::Max => "Max"@,
            BinaryOp::Min => "Min"@,
        }
    }

    /// Appends the operator's name at the end of `out`.
    pub fn push_name(&self, out: &mut String)
        ensures
            final(out)@ == old(out)@ + self.name(),
    {
        match self {
            BinaryOp::Mul => push_str(out, "Mul"),
            BinaryOp::Div => push_str(out, "Div"),
            BinaryOp::Pow => push_str(out, "Pow"),
            BinaryOp::Mod => push_str(out, "Mod"),
            BinaryOp::Is => push_str(out, "Is"),
            BinaryOp::Add => push_str(out, "Add"),
            BinaryOp::Sub => push_str(out, "Sub"),
            BinaryOp::LeftShift => push_str(out, "LeftShift"),
            BinaryOp::RightShift => push_str(out, "RightShift"),
            BinaryOp::BitwiseAnd => push_str(out, "BitwiseAnd"),
            BinaryOp::BitwiseOr => push_str(out, "BitwiseOr"),
            BinaryOp::BitwiseXor => push_str(out, "BitwiseXor"),
            BinaryOp::LessThan => push_str(out, "LessThan"),
            BinaryOp::LessThanEqual => push_str(out, "LessThanEqual"),
            BinaryOp::GreaterThan => push_str(out, "GreaterThan"),
            BinaryOp::GreaterThanEqual => push_str(out, "GreaterThanEqual"),
            BinaryOp::Equal => push_str(out, "Equal"),
            BinaryOp::NotEqual => push_str(out, "NotEqual"),
            BinaryOp::Max => push_str(out, "Max"),
            BinaryOp::Min => push_str(out, "Min"),
        }
    }
}

} // verus!
