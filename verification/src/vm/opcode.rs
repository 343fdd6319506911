//! The instructions of the virtual machine, and how they are disassembled.
use std::collections::VecDeque;

use vstd::prelude::*;

use crate::compiler::Fields;
use crate::stdlib::NativeFunction;
use crate::text::{decimal, push_decimal, push_str, push_usize};
use crate::vm::operator::{BinaryOp, UnaryOp};
use crate::vm::value::{repr, LiteralType, Value};

verus! {

#[derive(Eq, PartialEq, Debug, Clone, Copy)]
pub enum Opcode {
    Noop,
    /// The parameter is an offset value, based on the IP *after* the instruction is executed. So an instruction:
    ///
    /// `005: Jump(-2)`
    ///
    /// will jump to 005 + 1 (since we finish executing this instruction) - 2 = 004
    ///
    /// `Jump(-1)` is a no-op.
    JumpIfFalse(i32),
    JumpIfFalsePop(i32),
    JumpIfTrue(i32),
    JumpIfTruePop(i32),
    Jump(i32),
    Return,
    Pop,
    PopN(u32),
    Dup,
    Swap,
    PushLocal(u32),
    StoreLocal(u32),
    PushGlobal(u32),
    StoreGlobal(u32),
    PushUpValue(u32),
    StoreUpValue(u32),
    StoreArray,
    /// Increments the count of currently declared global variables. This is checked on every `CheckGlobalCount` to verify that no global is referenced before it is initialized.
    IncGlobalCount,
    /// Create a closure from a function (with no upvalues yet)
    Closure,
    /// Take a closure, and add the respective local or upvalue to the closure
    CloseLocal(u32),
    CloseUpValue(u32),
    /// Lifts an UpValue from a stack slot (offset by the frame pointer) to the heap.
    /// Takes a local index of an upvalue to lift.
    LiftUpValue(u32),
    /// Converts the top of the stack to an iterable.
    InitIterable,
    /// Expects the top of the stack to contain an iterable. Tests if this has reached the end of the iterable.
    /// If yes, it will push `false`, and do nothing else.
    /// If no, it will push the next value in the iterable, followed by `true`.
    TestIterable,
    /// Pushes constant values `Nil`, `True` and `False`
    Nil,
    True,
    False,
    /// Pushes a constant from the constants table, by index.
    Constant(u32),
    NativeFunction(NativeFunction),
    /// Begins a literal of a given literal sequence type, with a size hint.
    LiteralBegin(LiteralType, u32),
    /// Pops `u32` entries from the stack and inserts them, in order, to the top of the literal stack.
    LiteralAcc(u32),
    /// Pops the top of the stack, and unrolls it and inserts each element, in order, to the top of the literal stack.
    LiteralUnroll,
    /// Pops the top of the literal stack, and pushes it as a value onto the stack.
    LiteralEnd,
    /// Checks that the top of the stack is an iterable with length > the provided value
    CheckLengthGreaterThan(u32),
    /// Checks that the top of the stack is an iterable with length = the provided value
    CheckLengthEqualTo(u32),
    /// Function evaluation (either with `()` or with `.`). The parameter is the number of arguments to the function.
    OpFuncEval(u32),
    OpFuncEvalUnrolled(u32),
    /// Unrolls an iterable on the stack. The argument is if this unroll is the first one seen in the current function invocation.
    OpUnroll(bool),
    /// Takes a stack of `[index, list, ...]`, pops the top two elements, and pushes `list[index]`
    OpIndex,
    /// Takes a stack of `[index, list, ...]`, and pushes `list[index]` (does not pop any values)
    OpIndexPeek,
    OpSlice,
    OpSliceWithStep,
    GetField(u32),
    GetFieldPeek(u32),
    GetFieldFunction(u32),
    SetField(u32),
    Unary(UnaryOp),
    Binary(BinaryOp),
    /// Creates a `slice` object, which is used to perform slice operations
    Slice,
    SliceWithStep,
    Exit,
    Yield,
    AssertFailed,
}

impl Opcode {
    /// The instruction as its variant is written, with its operands.
    pub open spec fn debug(self) -> Seq<char> {
        match self {
            Opcode::Noop => "Noop"@,
            Opcode::JumpIfFalse(x) => "JumpIfFalse("@ + decimal(x as int) + ")"@,
            Opcode::JumpIfFalsePop(x) => "JumpIfFalsePop("@ + decimal(x as int) + ")"@,
            Opcode::JumpIfTrue(x) => "JumpIfTrue("@ + decimal(x as int) + ")"@,
            Opcode::JumpIfTruePop(x) => "JumpIfTruePop("@ + decimal(x as int) + ")"@,
            Opcode::Jump(x) => "Jump("@ + decimal(x as int) + ")"@,
            Opcode::Return => "Return"@,
            Opcode::Pop => "Pop"@,
            Opcode::PopN(x) => "PopN("@ + decimal(x as int) + ")"@,
            Opcode::Dup => "Dup"@,
            Opcode::Swap => "Swap"@,
            Opcode::PushLocal(x) => "PushLocal("@ + decimal(x as int) + ")"@,
            Opcode::StoreLocal(x) => "StoreLocal("@ + decimal(x as int) + ")"@,
            Opcode::PushGlobal(x) => "PushGlobal("@ + decimal(x as int) + ")"@,
            Opcode::StoreGlobal(x) => "StoreGlobal("@ + decimal(x as int) + ")"@,
            Opcode::PushUpValue(x) => "PushUpValue("@ + decimal(x as int) + ")"@,
            Opcode::StoreUpValue(x) => "StoreUpValue("@ + decimal(x as int) + ")"@,
            Opcode::StoreArray => "StoreArray"@,
            Opcode::IncGlobalCount => "IncGlobalCount"@,
            Opcode::Closure => "Closure"@,
            Opcode::CloseLocal(x) => "CloseLocal("@ + decimal(x as int) + ")"@,
            Opcode::CloseUpValue(x) => "CloseUpValue("@ + decimal(x as int) + ")"@,
            Opcode::LiftUpValue(x) => "LiftUpValue("@ + decimal(x as int) + ")"@,
            Opcode::InitIterable => "InitIterable"@,
            Opcode::TestIterable => "TestIterable"@,
            Opcode::Nil => "Nil"@,
            Opcode::True => "True"@,
            Opcode::False => "False"@,
            Opcode::Constant(x) => "Constant("@ + decimal(x as int) + ")"@,
            Opcode::NativeFunction(f) => "NativeFunction("@ + f.name() + ")"@,
            Opcode::LiteralBegin(t, x) => "LiteralBegin("@ + t.name() + ", "@ + decimal(x as int) + ")"@,
            Opcode::LiteralAcc(x) => "LiteralAcc("@ + decimal(x as int) + ")"@,
            Opcode::LiteralUnroll => "LiteralUnroll"@,
            Opcode::LiteralEnd => "LiteralEnd"@,
            Opcode::CheckLengthGreaterThan(x) => "CheckLengthGreaterThan("@ + decimal(x as int) + ")"@,
            Opcode::CheckLengthEqualTo(x) => "CheckLengthEqualTo("@ + decimal(x as int) + ")"@,
            Opcode::OpFuncEval(x) => "OpFuncEval("@ + decimal(x as int) + ")"@,
            Opcode::OpFuncEvalUnrolled(x) => "OpFuncEvalUnrolled("@ + decimal(x as int) + ")"@,
            Opcode::OpUnroll(b) => "OpUnroll("@ + (if b { "true"@ } else { "false"@ }) + ")"@,
            Opcode::OpIndex => "OpIndex"@,
            Opcode::OpIndexPeek => "OpIndexPeek"@,
            Opcode::OpSlice => "OpSlice"@,
            Opcode::OpSliceWithStep => "OpSliceWithStep"@,
            Opcode::GetField(x) => "GetField("@ + decimal(x as int) + ")"@,
            Opcode::GetFieldPeek(x) => "GetFieldPeek("@ + decimal(x as int) + ")"@,
            Opcode::GetFieldFunction(x) => "GetFieldFunction("@ + decimal(x as int) + ")"@,
            Opcode::SetField(x) => "SetField("@ + decimal(x as int) + ")"@,
            Opcode::Unary(f) => "Unary("@ + f.name() + ")"@,
            Opcode::Binary(f) => "Binary("@ + f.name() + ")"@,
            Opcode::Slice => "Slice"@,
            Opcode::SliceWithStep => "SliceWithStep"@,
            Opcode::Exit => "Exit"@,
            Opcode::Yield => "Yield"@,
            Opcode::AssertFailed => "AssertFailed"@,
        }
    }

    /// Appends the instruction, written as its variant with its operands, at the end of `out`.
    pub fn push_debug(&self, out: &mut String)
        ensures
            final(out)@ == old(out)@ + self.debug(),
    {
        let ghost start = out@;
        match self {
            Opcode::Noop => push_str(out, "Noop"),
            Opcode::JumpIfFalse(x) => {
                push_str(out, "JumpIfFalse(");
                push_decimal(out, *x as i64);
                push_str(out, ")");
            },
            Opcode::JumpIfFalsePop(x) => {
                push_str(out, "JumpIfFalsePop(");
                push_decimal(out, *x as i64);
                push_str(out, ")");
            },
            Opcode::JumpIfTrue(x) => {
                push_str(out, "JumpIfTrue(");
                push_decimal(out, *x as i64);
                push_str(out, ")");
            },
            Opcode::JumpIfTruePop(x) => {
                push_str(out, "JumpIfTruePop(");
                push_decimal(out, *x as i64);
                push_str(out, ")");
            },
            Opcode::Jump(x) => {
                push_str(out, "Jump(");
                push_decimal(out, *x as i64);
                push_str(out, ")");
            },
            Opcode::Return => push_str(out, "Return"),
            Opcode::Pop => push_str(out, "Pop"),
            Opcode::PopN(x) => {
                push_str(out, "PopN(");
                push_decimal(out, *x as i64);
                push_str(out, ")");
            },
            Opcode::Dup => push_str(out, "Dup"),
            Opcode::Swap => push_str(out, "Swap"),
            Opcode::PushLocal(x) => {
                push_str(out, "PushLocal(");
                push_decimal(out, *x as i64);
                push_str(out, ")");
            },
            Opcode::StoreLocal(x) => {
                push_str(out, "StoreLocal(");
                push_decimal(out, *x as i64);
                push_str(out, ")");
            },
            Opcode::PushGlobal(x) => {
                push_str(out, "PushGlobal(");
                push_decimal(out, *x as i64);
                push_str(out, ")");
            },
            Opcode::StoreGlobal(x) => {
                push_str(out, "StoreGlobal(");
                push_decimal(out, *x as i64);
                push_str(out, ")");
            },
            Opcode::PushUpValue(x) => {
                push_str(out, "PushUpValue(");
                push_decimal(out, *x as i64);
                push_str(out, ")");
            },
            Opcode::StoreUpValue(x) => {
                push_str(out, "StoreUpValue(");
                push_decimal(out, *x as i64);
                push_str(out, ")");
            },
            Opcode::StoreArray => push_str(out, "StoreArray"),
            Opcode::IncGlobalCount => push_str(out, "IncGlobalCount"),
            Opcode::Closure => push_str(out, "Closure"),
            Opcode::CloseLocal(x) => {
                push_str(out, "CloseLocal(");
                push_decimal(out, *x as i64);
                push_str(out, ")");
            },
            Opcode::CloseUpValue(x) => {
                push_str(out, "CloseUpValue(");
                push_decimal(out, *x as i64);
                push_str(out, ")");
            },
            Opcode::LiftUpValue(x) => {
                push_str(out, "LiftUpValue(");
                push_decimal(out, *x as i64);
                push_str(out, ")");
            },
            Opcode::InitIterable => push_str(out, "InitIterable"),
            Opcode::TestIterable => push_str(out, "TestIterable"),
            Opcode::Nil => push_str(out, "Nil"),
            Opcode::True => push_str(out, "True"),
            Opcode::False => push_str(out, "False"),
            Opcode::Constant(x) => {
                push_str(out, "Constant(");
                push_decimal(out, *x as i64);
                push_str(out, ")");
            },
            Opcode::NativeFunction(f) => {
                push_str(out, "NativeFunction(");
                f.push_name(out);
                push_str(out, ")");
            },
            Opcode::LiteralBegin(t, x) => {
                push_str(out, "LiteralBegin(");
                t.push_name(out);
                push_str(out, ", ");
                push_decimal(out, *x as i64);
                push_str(out, ")");
            },
            Opcode::LiteralAcc(x) => {
                push_str(out, "LiteralAcc(");
                push_decimal(out, *x as i64);
                push_str(out, ")");
            },
            Opcode::LiteralUnroll => push_str(out, "LiteralUnroll"),
            Opcode::LiteralEnd => push_str(out, "LiteralEnd"),
            Opcode::CheckLengthGreaterThan(x) => {
                push_str(out, "CheckLengthGreaterThan(");
                push_decimal(out, *x as i64);
                push_str(out, ")");
            },
            Opcode::CheckLengthEqualTo(x) => {
                push_str(out, "CheckLengthEqualTo(");
                push_decimal(out, *x as i64);
                push_str(out, ")");
            },
            Opcode::OpFuncEval(x) => {
                push_str(out, "OpFuncEval(");
                push_decimal(out, *x as i64);
                push_str(out, ")");
            },
            Opcode::OpFuncEvalUnrolled(x) => {
                push_str(out, "OpFuncEvalUnrolled(");
                push_decimal(out, *x as i64);
                push_str(out, ")");
            },
            Opcode::OpUnroll(b) => {
                push_str(out, "OpUnroll(");
                if *b { push_str(out, "true") } else { push_str(out, "false") }
                push_str(out, ")");
            },
            Opcode::OpIndex => push_str(out, "OpIndex"),
            Opcode::OpIndexPeek => push_str(out, "OpIndexPeek"),
            Opcode::OpSlice => push_str(out, "OpSlice"),
            Opcode::OpSliceWithStep => push_str(out, "OpSliceWithStep"),
            Opcode::GetField(x) => {
                push_str(out, "GetField(");
                push_decimal(out, *x as i64);
                push_str(out, ")");
            },
            Opcode::GetFieldPeek(x) => {
                push_str(out, "GetFieldPeek(");
                push_decimal(out, *x as i64);
                push_str(out, ")");
            },
            Opcode::GetFieldFunction(x) => {
                push_str(out, "GetFieldFunction(");
                push_decimal(out, *x as i64);
                push_str(out, ")");
            },
            Opcode::SetField(x) => {
                push_str(out, "SetField(");
                push_decimal(out, *x as i64);
                push_str(out, ")");
            },
            Opcode::Unary(f) => {
                push_str(out, "Unary(");
                f.push_name(out);
                push_str(out, ")");
            },
            Opcode::Binary(f) => {
                push_str(out, "Binary(");
                f.push_name(out);
                push_str(out, ")");
            },
            Opcode::Slice => push_str(out, "Slice"),
            Opcode::SliceWithStep => push_str(out, "SliceWithStep"),
            Opcode::Exit => push_str(out, "Exit"),
            Opcode::Yield => push_str(out, "Yield"),
            Opcode::AssertFailed => push_str(out, "AssertFailed"),
        }
        proof {
            assert(out@ =~= start + self.debug());
        }
    }
}


/// How a constant is shown in a disassembly.
pub open spec fn constant_text(c: Value) -> Seq<char> {
    match c {
        Value::Nil => "Nil"@,
        Value::Bool(b) => if b { "True"@ } else { "False"@ },
        Value::Function(f) => "Function("@ + f.signature() + " -> L["@ + decimal(f.head as int) + ", "@
            + decimal(f.tail as int) + "])"@,
        Value::StructType(t) => "StructType("@ + t.signature() + ")"@,
        Value::Int(_) => "Int("@ + repr(c) + ")"@,
        Value::Str(_) => "Str("@ + repr(c) + ")"@,
        Value::Complex(_) => "Complex("@ + repr(c) + ")"@,
        _ => seq![],
    }
}

/// The kinds of value that can stand in the constants table.
pub open spec fn is_constant_kind(c: Value) -> bool {
    c is Nil || c is Bool || c is Function || c is StructType || c is Int || c is Str || c is Complex
}

impl Opcode {
    /// Instructions that name a local or global variable, taken from the list of local names.
    pub open spec fn names_local(self) -> bool {
        self is PushGlobal || self is StoreGlobal || self is PushLocal || self is StoreLocal
    }

    /// A jump's name and offset.
    pub open spec fn jump(self) -> Option<(Seq<char>, i32)> {
        match self {
            Opcode::JumpIfFalse(o) => Some(("JumpIfFalse"@, o)),
            Opcode::JumpIfFalsePop(o) => Some(("JumpIfFalsePop"@, o)),
            Opcode::JumpIfTrue(o) => Some(("JumpIfTrue"@, o)),
            Opcode::JumpIfTruePop(o) => Some(("JumpIfTruePop"@, o)),
            Opcode::Jump(o) => Some(("Jump"@, o)),
            _ => None,
        }
    }

    /// What `disassembly` can show: constants that exist and are of a constant kind, fields
    /// that have names, and jumps whose target is an instruction index.
    pub open spec fn can_disassemble(self, ip: usize, fields: Seq<String>, constants: Seq<Value>) -> bool {
        &&& self matches Opcode::Constant(id) ==> id < constants.len() && is_constant_kind(constants[id as int])
        &&& (self matches Opcode::GetField(fid) ==> fid < fields.len())
        &&& (self matches Opcode::SetField(fid) ==> fid < fields.len())
        &&& (self matches Opcode::GetFieldFunction(fid) ==> fid < fields.len())
        &&& (self.jump() matches Some((_, o)) ==> o < i32::MAX && 0 <= ip + o + 1 <= i64::MAX)
    }

    /// The text of the disassembly of this instruction at `ip`, given the next local name if any.
    pub open spec fn disassembled(
        self,
        ip: usize,
        local: Option<String>,
        fields: Seq<String>,
        constants: Seq<Value>,
    ) -> Seq<char> {
        match self {
            Opcode::Constant(id) => constant_text(constants[id as int]),
            Opcode::CheckLengthEqualTo(len) => self.debug() + " -> "@ + decimal(len as int),
            Opcode::CheckLengthGreaterThan(len) => self.debug() + " -> "@ + decimal(len as int),
            Opcode::PushGlobal(_) | Opcode::StoreGlobal(_) | Opcode::PushLocal(_) | Opcode::StoreLocal(_) => {
                match local {
                    Some(l) => self.debug() + " -> "@ + l@,
                    None => self.debug(),
                }
            },
            Opcode::GetField(fid) => self.debug() + " -> "@ + fields[fid as int]@,
            Opcode::SetField(fid) => self.debug() + " -> "@ + fields[fid as int]@,
            Opcode::GetFieldFunction(fid) => self.debug() + " -> "@ + fields[fid as int]@,
            Opcode::JumpIfFalse(o) | Opcode::JumpIfFalsePop(o) | Opcode::JumpIfTrue(o)
            | Opcode::JumpIfTruePop(o) | Opcode::Jump(o) => self.jump().unwrap().0 + "("@ + decimal(ip + o + 1)
                + ")"@,
            Opcode::Binary(op) => op.name(),
            Opcode::Unary(op) => op.name(),
            Opcode::NativeFunction(f) => f.name(),
            Opcode::OpUnroll(_) => "Unroll"@,
            Opcode::OpFuncEval(n) => "Call("@ + decimal(n as int) + ")"@,
            Opcode::OpFuncEvalUnrolled(n) => "Call...("@ + decimal(n as int) + ")"@,
            _ => self.debug(),
        }
    }

    /// Appends how a constant is shown at the end of `out`.
    fn push_constant(out: &mut String, constant: &Value)
        requires
            is_constant_kind(*constant),
        ensures
            final(out)@ == old(out)@ + constant_text(*constant),
    {
        let ghost start = out@;
        match constant {
            Value::Nil => push_str(out, "Nil"),
            Value::Bool(it) => push_str(out, if *it { "True" } else { "False" }),
            Value::Function(it) => {
                push_str(out, "Function(");
                it.push_str(out);
                push_str(out, " -> L[");
                push_usize(out, it.head);
                push_str(out, ", ");
                push_usize(out, it.tail);
                push_str(out, "])");
            },
            Value::StructType(it) => {
                push_str(out, "StructType(");
                it.push_str(out);
                push_str(out, ")");
            },
            Value::Int(_) => {
                push_str(out, "Int(");
                constant.push_repr(out);
                push_str(out, ")");
            },
            Value::Str(_) => {
                push_str(out, "Str(");
                constant.push_repr(out);
                push_str(out, ")");
            },
            _ => {
                push_str(out, "Complex(");
                constant.push_repr(out);
                push_str(out, ")");
            },
        }
        proof {
            assert(out@ =~= start + constant_text(*constant));
        }
    }

    /// The disassembly of this instruction at `ip`. Instructions that name a variable take
    /// the next name from `locals`.
    pub fn disassembly(
        &self,
        ip: usize,
        locals: &mut VecDeque<String>,
        fields: &Fields,
        constants: &Vec<Value>,
    ) -> (r: String)
        requires
            self.can_disassemble(ip, fields.names@, constants@),
            ip <= i64::MAX,
        ensures
            r@ == self.disassembled(
                ip,
                if self.names_local() && old(locals)@.len() > 0 { Some(old(locals)@[0]) } else { None },
                fields.names@,
                constants@,
            ),
            final(locals)@ == if self.names_local() && old(locals)@.len() > 0 {
                old(locals)@.drop_first()
            } else {
                old(locals)@
            },
    {
        let mut out = String::new();
        match self {
            Opcode::Constant(id) => {
                let constant = &constants[*id as usize];
                Opcode::push_constant(&mut out, constant);
            },
            Opcode::CheckLengthEqualTo(len) | Opcode::CheckLengthGreaterThan(len) => {
                self.push_debug(&mut out);
                push_str(&mut out, " -> ");
                push_decimal(&mut out, *len as i64);
            },
            Opcode::PushGlobal(_) | Opcode::StoreGlobal(_) | Opcode::PushLocal(_) | Opcode::StoreLocal(_) => {
                match locals.pop_front() {
                    Some(local) => {
                        self.push_debug(&mut out);
                        push_str(&mut out, " -> ");
                        push_str(&mut out, local.as_str());
                    },
                    None => self.push_debug(&mut out),
                }
            },
            Opcode::GetField(fid) | Opcode::SetField(fid) | Opcode::GetFieldFunction(fid) => {
                self.push_debug(&mut out);
                push_str(&mut out, " -> ");
                let name = fields.get_field_name(*fid);
                push_str(&mut out, name.as_str());
            },
            Opcode::JumpIfFalse(offset) | Opcode::JumpIfFalsePop(offset) | Opcode::JumpIfTrue(offset)
            | Opcode::JumpIfTruePop(offset) | Opcode::Jump(offset) => {
                match self {
                    Opcode::JumpIfFalse(_) => push_str(&mut out, "JumpIfFalse"),
                    Opcode::JumpIfFalsePop(_) => push_str(&mut out, "JumpIfFalsePop"),
                    Opcode::JumpIfTrue(_) => push_str(&mut out, "JumpIfTrue"),
                    Opcode::JumpIfTruePop(_) => push_str(&mut out, "JumpIfTruePop"),
                    _ => push_str(&mut out, "Jump"),
                }
                push_str(&mut out, "(");
                let target: i64 = ip as i64 + (*offset + 1) as i64;
                push_decimal(&mut out, target);
                push_str(&mut out, ")");
            },
            Opcode::Binary(op) => op.push_name(&mut out),
            Opcode::Unary(op) => op.push_name(&mut out),
            Opcode::NativeFunction(op) => op.push_name(&mut out),
            Opcode::OpUnroll(_) => push_str(&mut out, "Unroll"),
            Opcode::OpFuncEval(n) => {
                push_str(&mut out, "Call(");
                push_decimal(&mut out, *n as i64);
                push_str(&mut out, ")");
            },
            Opcode::OpFuncEvalUnrolled(n) => {
                push_str(&mut out, "Call...(");
                push_decimal(&mut out, *n as i64);
                push_str(&mut out, ")");
            },
            _ => self.push_debug(&mut out),
        }
        proof {
            assert(out@ =~= self.disassembled(
                ip,
                if self.names_local() && old(locals)@.len() > 0 { Some(old(locals)@[0]) } else { None },
                fields.names@,
                constants@,
            ));
        }
        out
    }
}

} // verus!
