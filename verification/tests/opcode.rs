use std::collections::VecDeque;

use cordy::compiler::Fields;
use cordy::vm::opcode::Opcode;
use cordy::vm::operator::BinaryOp;
use cordy::vm::value::Value;

#[test] fn test_layout() { assert_eq!(8, std::mem::size_of::<Opcode>()); }

fn fields() -> Fields {
    Fields { names: vec![String::from("x"), String::from("y")] }
}

#[test]
fn disassembly_of_constants() {
    let constants = vec![Value::Int(5), Value::Str(String::from("a")), Value::Nil, Value::Bool(true)];
    let mut locals: VecDeque<String> = VecDeque::new();
    assert_eq!(Opcode::Constant(0).disassembly(0, &mut locals, &fields(), &constants), "Int(5)");
    assert_eq!(Opcode::Constant(1).disassembly(0, &mut locals, &fields(), &constants), "Str('a')");
    assert_eq!(Opcode::Constant(2).disassembly(0, &mut locals, &fields(), &constants), "Nil");
    assert_eq!(Opcode::Constant(3).disassembly(0, &mut locals, &fields(), &constants), "True");
}

#[test]
fn disassembly_of_jumps_is_absolute() {
    let constants: Vec<Value> = Vec::new();
    let mut locals: VecDeque<String> = VecDeque::new();
    assert_eq!(Opcode::Jump(3).disassembly(10, &mut locals, &fields(), &constants), "Jump(14)");
    assert_eq!(Opcode::JumpIfFalse(-2).disassembly(5, &mut locals, &fields(), &constants), "JumpIfFalse(4)");
}

#[test]
fn disassembly_names_locals_and_fields() {
    let constants: Vec<Value> = Vec::new();
    let mut locals: VecDeque<String> = VecDeque::new();
    locals.push_back(String::from("a"));
    assert_eq!(Opcode::PushLocal(0).disassembly(0, &mut locals, &fields(), &constants), "PushLocal(0) -> a");
    assert_eq!(locals.len(), 0);
    assert_eq!(Opcode::PushLocal(0).disassembly(0, &mut locals, &fields(), &constants), "PushLocal(0)");
    assert_eq!(Opcode::GetField(1).disassembly(0, &mut locals, &fields(), &constants), "GetField(1) -> y");
}

#[test]
fn disassembly_of_calls_and_operators() {
    let constants: Vec<Value> = Vec::new();
    let mut locals: VecDeque<String> = VecDeque::new();
    assert_eq!(Opcode::OpFuncEval(2).disassembly(0, &mut locals, &fields(), &constants), "Call(2)");
    assert_eq!(Opcode::OpFuncEvalUnrolled(1).disassembly(0, &mut locals, &fields(), &constants), "Call...(1)");
    assert_eq!(Opcode::Binary(BinaryOp::Add).disassembly(0, &mut locals, &fields(), &constants), "Add");
    assert_eq!(Opcode::OpUnroll(true).disassembly(0, &mut locals, &fields(), &constants), "Unroll");
    assert_eq!(Opcode::CheckLengthEqualTo(3).disassembly(0, &mut locals, &fields(), &constants), "CheckLengthEqualTo(3) -> 3");
    assert_eq!(Opcode::Pop.disassembly(0, &mut locals, &fields(), &constants), "Pop");
}
