use cordy::compiler::parser::expr::{Expr, ExprType, LValue, LValueReference};
use cordy::compiler::parser::Parser;
use cordy::reporting::Location;
use cordy::vm::opcode::Opcode;
use cordy::vm::operator::BinaryOp;
use cordy::vm::value::{LiteralType, Value};

fn at(start: usize) -> Location {
    Location { start, width: 1 }
}

fn num(i: i64) -> Box<Expr> {
    Box::new(Expr(at(0), ExprType::Int(i)))
}

#[test]
fn binary_emits_operands_then_operator() {
    let mut p = Parser::new(vec![]);
    p.emit_expr(Expr(at(4), ExprType::Binary(BinaryOp::Add, num(1), num(2))));
    assert_eq!(p.code, vec![Opcode::Constant(0), Opcode::Constant(1), Opcode::Binary(BinaryOp::Add)]);
    assert_eq!(p.locations.len(), 3);
    assert_eq!(p.locations[2], at(4));
    assert!(matches!(p.constants[1], Value::Int(2)));
}

#[test]
fn logical_and_jumps_past_its_right_side() {
    let mut p = Parser::new(vec![]);
    let rhs = Box::new(Expr(at(0), ExprType::Binary(BinaryOp::Mul, num(2), num(3))));
    p.emit_expr(Expr(at(0), ExprType::LogicalAnd(Box::new(Expr(at(0), ExprType::Bool(true))), rhs)));
    assert_eq!(p.code, vec![
        Opcode::True,
        Opcode::JumpIfFalse(4),
        Opcode::Pop,
        Opcode::Constant(0),
        Opcode::Constant(1),
        Opcode::Binary(BinaryOp::Mul),
    ]);
}

#[test]
fn if_then_else_jumps() {
    let mut p = Parser::new(vec![]);
    p.emit_expr(Expr(at(0), ExprType::IfThenElse(
        Box::new(Expr(at(0), ExprType::Bool(false))),
        Box::new(Expr(at(0), ExprType::Nil)),
        num(1),
    )));
    assert_eq!(p.code, vec![Opcode::False, Opcode::JumpIfFalsePop(2), Opcode::Nil, Opcode::Jump(1), Opcode::Constant(0)]);
}

#[test]
fn literal_gathers_and_unrolls() {
    let mut p = Parser::new(vec![]);
    let items = vec![
        Expr(at(0), ExprType::Nil),
        Expr(at(0), ExprType::Nil),
        Expr(at(7), ExprType::Unroll(Box::new(Expr(at(0), ExprType::LValue(LValueReference::Local(0)))), true)),
        Expr(at(0), ExprType::Bool(true)),
    ];
    p.emit_expr(Expr(at(9), ExprType::Literal(LiteralType::List, items)));
    assert_eq!(p.code, vec![
        Opcode::LiteralBegin(LiteralType::List, 4),
        Opcode::Nil,
        Opcode::Nil,
        Opcode::LiteralAcc(2),
        Opcode::PushLocal(0),
        Opcode::LiteralUnroll,
        Opcode::True,
        Opcode::LiteralAcc(1),
        Opcode::LiteralEnd,
    ]);
    assert_eq!(p.locations[5], at(7));
    assert_eq!(p.locations[8], at(9));
}

#[test]
fn calls_compose_and_closures() {
    let mut p = Parser::new(vec![]);
    p.emit_expr(Expr(at(0), ExprType::Eval(num(1), vec![Expr(at(0), ExprType::Nil)], false)));
    p.emit_expr(Expr(at(0), ExprType::Compose(num(2), num(3))));
    p.emit_expr(Expr(at(0), ExprType::Function(7, vec![Opcode::CloseLocal(1)])));
    assert_eq!(p.code, vec![
        Opcode::Constant(0),
        Opcode::Nil,
        Opcode::OpFuncEval(1),
        Opcode::Constant(1),
        Opcode::Constant(2),
        Opcode::Swap,
        Opcode::OpFuncEval(1),
        Opcode::Constant(7),
        Opcode::Closure,
        Opcode::CloseLocal(1),
    ]);
}

#[test]
fn array_op_assignment_with_dot_calls() {
    let mut p = Parser::new(vec![]);
    p.emit_expr(Expr(at(0), ExprType::ArrayOpAssignment(num(1), num(2), BinaryOp::NotEqual, num(3))));
    assert_eq!(p.code, vec![
        Opcode::Constant(0),
        Opcode::Constant(1),
        Opcode::OpIndexPeek,
        Opcode::Constant(2),
        Opcode::Swap,
        Opcode::OpFuncEval(1),
        Opcode::StoreArray,
    ]);
}

#[test]
fn pattern_assignment_takes_apart() {
    let mut p = Parser::new(vec![]);
    let pattern = LValue::Terms(vec![LValue::Named(LValueReference::Global(0)), LValue::Empty]);
    p.emit_expr(Expr(at(0), ExprType::PatternAssignment(pattern, Box::new(Expr(at(0), ExprType::Nil)))));
    assert_eq!(p.code, vec![
        Opcode::Nil,
        Opcode::CheckLengthEqualTo(2),
        Opcode::Dup,
        Opcode::Constant(0),
        Opcode::OpIndex,
        Opcode::StoreGlobal(0),
        Opcode::Pop,
        Opcode::Dup,
        Opcode::Constant(1),
        Opcode::OpIndex,
        Opcode::Pop,
    ]);
}

#[test]
fn assignment_stores() {
    let mut p = Parser::new(vec![]);
    p.emit_expr(Expr(at(0), ExprType::Assignment(LValueReference::UpValue(2), num(5))));
    assert_eq!(p.code, vec![Opcode::Constant(0), Opcode::StoreUpValue(2)]);
}
