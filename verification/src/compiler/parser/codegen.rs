//! Code generation: expression trees to opcodes, constants and source locations.
//!
//! `emit` states what emitting an expression appends: each operand's code in evaluation order,
//! then the operator's opcode at the expression's location. Short-circuiting operators and
//! conditionals reserve a jump, and fix its offset once the code it jumps over is emitted.
use vstd::prelude::*;

use crate::compiler::parser::expr::{Expr, ExprType, LValue, LValueReference};
use crate::compiler::parser::Parser;
use crate::reporting::Location;
use crate::vm::error::RuntimeError;
use crate::vm::opcode::Opcode;
use crate::vm::operator::BinaryOp;
use crate::vm::value::{C64, Value};

verus! {

/// What code generation has produced so far.
pub struct CState {
    pub code: Seq<Opcode>,
    /// The source location of each opcode.
    pub locations: Seq<Location>,
    pub constants: Seq<Value>,
    /// Errors found while compiling, with where they were found.
    pub runtime_errors: Seq<(Location, RuntimeError)>,
}

/// The location given to an opcode that stands for no source text of its own.
pub open spec fn unlocated() -> Location {
    Location { start: 0, width: 0 }
}

/// Appends `op`, at location `loc`.
pub open spec fn with_op(s: CState, op: Opcode, loc: Location) -> CState {
    CState { code: s.code.push(op), locations: s.locations.push(loc), ..s }
}

/// Declares `v` as the next constant, and appends the opcode that pushes it.
pub open spec fn with_constant(s: CState, v: Value) -> CState {
    with_op(
        CState { constants: s.constants.push(v), ..s },
        Opcode::Constant(s.constants.len() as u32),
        unlocated(),
    )
}

/// The kinds of jump whose offset is fixed after the code they jump over.
#[derive(Eq, PartialEq, Debug, Clone, Copy)]
pub enum JumpKind {
    IfFalse,
    IfFalsePop,
    IfTrue,
    Always,
}

pub open spec fn jump_op(kind: JumpKind, offset: i32) -> Opcode {
    match kind {
        JumpKind::IfFalse => Opcode::JumpIfFalse(offset),
        JumpKind::IfFalsePop => Opcode::JumpIfFalsePop(offset),
        JumpKind::IfTrue => Opcode::JumpIfTrue(offset),
        JumpKind::Always => Opcode::Jump(offset),
    }
}

/// Replaces the placeholder at `pos` by a jump to the end of the code so far.
pub open spec fn fixed(s: CState, pos: int, kind: JumpKind) -> CState {
    CState { code: s.code.update(pos, jump_op(kind, (s.code.len() - pos - 1) as i32)), ..s }
}

/// Appends a jump placeholder.
pub open spec fn reserved(s: CState) -> CState {
    with_op(s, Opcode::Noop, unlocated())
}

pub open spec fn load(s: CState, r: LValueReference, loc: Location) -> CState {
    match r {
        LValueReference::Local(i) => with_op(s, Opcode::PushLocal(i), loc),
        LValueReference::Global(i) => with_op(s, Opcode::PushGlobal(i), loc),
        LValueReference::UpValue(i) => with_op(s, Opcode::PushUpValue(i), loc),
    }
}

/// Stores the top of the stack, which stays there.
pub open spec fn store(s: CState, r: LValueReference) -> CState {
    match r {
        LValueReference::Local(i) => with_op(s, Opcode::StoreLocal(i), unlocated()),
        LValueReference::Global(i) => with_op(s, Opcode::StoreGlobal(i), unlocated()),
        LValueReference::UpValue(i) => with_op(s, Opcode::StoreUpValue(i), unlocated()),
    }
}

/// Makes a closure of the function on the stack when it captures variables.
pub open spec fn closure(s: CState, ops: Seq<Opcode>) -> CState {
    if ops.len() == 0 {
        s
    } else {
        CState {
            code: s.code.push(Opcode::Closure) + ops,
            locations: s.locations.push(unlocated()) + Seq::new(ops.len(), |i: int| unlocated()),
            ..s
        }
    }
}

/// Takes the value on top of the stack apart into `lv`, leaving the value on the stack.
pub open spec fn destructure(lv: LValue, s: CState) -> CState
    decreases lv, 0nat,
{
    match lv {
        LValue::Empty => s,
        LValue::Named(r) => store(s, r),
        LValue::Terms(ts) => destructure_terms(
            ts,
            0,
            with_op(s, Opcode::CheckLengthEqualTo(ts.len() as u32), unlocated()),
        ),
    }
}

/// Terms `i` and after: each takes its element of the value apart.
pub open spec fn destructure_terms(ts: Vec<LValue>, i: nat, s: CState) -> CState
    decreases ts, ts.len() - i,
{
    if i >= ts.len() {
        s
    } else {
        let s1 = with_op(s, Opcode::Dup, unlocated());
        let s2 = with_constant(s1, Value::Int(i as i64));
        let s3 = with_op(s2, Opcode::OpIndex, unlocated());
        let s4 = destructure(ts@[i as int], s3);
        destructure_terms(ts, i + 1, with_op(s4, Opcode::Pop, unlocated()))
    }
}

/// What emitting `e` appends.
pub open spec fn emit(e: Expr, s: CState) -> CState
    decreases e, 0nat,
{
    let loc = e.0;
    match e.1 {
        ExprType::Nil => with_op(s, Opcode::Nil, unlocated()),
        ExprType::Exit => with_op(s, Opcode::Exit, unlocated()),
        ExprType::Bool(b) => with_op(s, if b { Opcode::True } else { Opcode::False }, unlocated()),
        ExprType::Int(i) => with_constant(s, Value::Int(i)),
        ExprType::Complex(a, b) => with_constant(s, Value::Complex(C64 { re: a, im: b })),
        ExprType::Str(x) => with_constant(s, Value::Str(x)),
        ExprType::LValue(r) => load(s, r, loc),
        ExprType::NativeFunction(n) => with_op(s, Opcode::NativeFunction(n), unlocated()),
        ExprType::Function(id, closed) => closure(with_op(s, Opcode::Constant(id), unlocated()), closed@),
        ExprType::SliceLiteral(a1, a2, a3) => {
            let s2 = emit(*a2, emit(*a1, s));
            match *a3 {
                Some(x) => with_op(emit(x, s2), Opcode::SliceWithStep, loc),
                None => with_op(s2, Opcode::Slice, loc),
            }
        },
        ExprType::Unary(op, a) => with_op(emit(*a, s), Opcode::Unary(op), loc),
        ExprType::Binary(op, l, r) => with_op(emit(*r, emit(*l, s)), Opcode::Binary(op), loc),
        ExprType::Literal(op, args) => {
            let s1 = with_op(s, Opcode::LiteralBegin(op, args.len() as u32), unlocated());
            with_op(literal_args(args, 0, 0, s1), Opcode::LiteralEnd, loc)
        },
        ExprType::Unroll(a, first) => with_op(emit(*a, s), Opcode::OpUnroll(first), loc),
        ExprType::Eval(f, args, any_unroll) => {
            let n = args.len() as u32;
            let s1 = call_args(args, 0, emit(*f, s));
            with_op(s1, if any_unroll { Opcode::OpFuncEvalUnrolled(n) } else { Opcode::OpFuncEval(n) }, loc)
        },
        ExprType::Compose(a, f) => with_op(
            with_op(emit(*f, emit(*a, s)), Opcode::Swap, unlocated()),
            Opcode::OpFuncEval(1),
            loc,
        ),
        ExprType::LogicalAnd(l, r) => {
            let s1 = emit(*l, s);
            let s2 = with_op(reserved(s1), Opcode::Pop, unlocated());
            fixed(emit(*r, s2), s1.code.len() as int, JumpKind::IfFalse)
        },
        ExprType::LogicalOr(l, r) => {
            let s1 = emit(*l, s);
            let s2 = with_op(reserved(s1), Opcode::Pop, unlocated());
            fixed(emit(*r, s2), s1.code.len() as int, JumpKind::IfTrue)
        },
        ExprType::Index(a, i) => with_op(emit(*i, emit(*a, s)), Opcode::OpIndex, loc),
        ExprType::Slice(a, b, c) => with_op(emit(*c, emit(*b, emit(*a, s))), Opcode::OpSlice, loc),
        ExprType::SliceWithStep(a, b, c, d) => with_op(
            emit(*d, emit(*c, emit(*b, emit(*a, s)))),
            Opcode::OpSliceWithStep,
            loc,
        ),
        ExprType::IfThenElse(c, t, f) => {
            let s1 = emit(*c, s);
            let s3 = emit(*t, reserved(s1));
            let s5 = fixed(reserved(s3), s1.code.len() as int, JumpKind::IfFalsePop);
            fixed(emit(*f, s5), s3.code.len() as int, JumpKind::Always)
        },
        ExprType::GetField(l, fid) => with_op(emit(*l, s), Opcode::GetField(fid), loc),
        ExprType::SetField(l, fid, r) => with_op(emit(*r, emit(*l, s)), Opcode::SetField(fid), loc),
        ExprType::SwapField(l, fid, r, op) => {
            let s1 = with_op(emit(*l, s), Opcode::GetFieldPeek(fid), loc);
            with_op(with_op(emit(*r, s1), Opcode::Binary(op), loc), Opcode::SetField(fid), loc)
        },
        ExprType::GetFieldFunction(fid) => with_op(s, Opcode::GetFieldFunction(fid), loc),
        ExprType::Assignment(r, rhs) => store(emit(*rhs, s), r),
        ExprType::ArrayAssignment(a, i, r) => with_op(
            emit(*r, emit(*i, emit(*a, s))),
            Opcode::StoreArray,
            loc,
        ),
        ExprType::ArrayOpAssignment(a, i, op, r) => {
            let s1 = with_op(emit(*i, emit(*a, s)), Opcode::OpIndexPeek, loc);
            let s2 = emit(*r, s1);
            let s3 = if op == BinaryOp::NotEqual {
                with_op(with_op(s2, Opcode::Swap, unlocated()), Opcode::OpFuncEval(1), loc)
            } else {
                with_op(s2, Opcode::Binary(op), loc)
            };
            with_op(s3, Opcode::StoreArray, loc)
        },
        ExprType::PatternAssignment(lv, rhs) => destructure(lv, emit(*rhs, s)),
        ExprType::RuntimeError(err) => CState {
            runtime_errors: s.runtime_errors.push((loc, *err)),
            ..s
        },
    }
}

/// The elements of a collection literal from `i` on: consecutive elements are gathered by
/// one `LiteralAcc` (`acc` of them are pending), and each unrolled element by `LiteralUnroll`.
pub open spec fn literal_args(args: Vec<Expr>, i: nat, acc: nat, s: CState) -> CState
    decreases args, args.len() - i,
{
    if i >= args.len() {
        if acc > 0 {
            with_op(s, Opcode::LiteralAcc(acc as u32), unlocated())
        } else {
            s
        }
    } else {
        let a = args@[i as int];
        match a.1 {
            ExprType::Unroll(inner, _) => {
                let s1 = if acc > 0 {
                    with_op(s, Opcode::LiteralAcc(acc as u32), unlocated())
                } else {
                    s
                };
                literal_args(args, i + 1, 0, with_op(emit(*inner, s1), Opcode::LiteralUnroll, a.0))
            },
            _ => literal_args(args, i + 1, acc + 1, emit(a, s)),
        }
    }
}

/// The arguments of a call from `i` on, in order.
pub open spec fn call_args(args: Vec<Expr>, i: nat, s: CState) -> CState
    decreases args, args.len() - i,
{
    if i >= args.len() {
        s
    } else {
        call_args(args, i + 1, emit(args@[i as int], s))
    }
}

/// Every collection literal in `e` has at most `u32::MAX` elements.
pub open spec fn fits(e: Expr) -> bool
    decreases e, 0nat,
{
    match e.1 {
        ExprType::SliceLiteral(a1, a2, a3) => fits(*a1) && fits(*a2) && match *a3 {
            Some(x) => fits(x),
            None => true,
        },
        ExprType::Unary(_, a) => fits(*a),
        ExprType::Binary(_, l, r) => fits(*l) && fits(*r),
        ExprType::Literal(_, args) => args.len() <= u32::MAX && all_fit(args, 0),
        ExprType::Unroll(a, _) => fits(*a),
        ExprType::Eval(f, args, _) => fits(*f) && all_fit(args, 0),
        ExprType::Compose(a, f) => fits(*a) && fits(*f),
        ExprType::LogicalAnd(l, r) => fits(*l) && fits(*r),
        ExprType::LogicalOr(l, r) => fits(*l) && fits(*r),
        ExprType::Index(a, i) => fits(*a) && fits(*i),
        ExprType::Slice(a, b, c) => fits(*a) && fits(*b) && fits(*c),
        ExprType::SliceWithStep(a, b, c, d) => fits(*a) && fits(*b) && fits(*c) && fits(*d),
        ExprType::IfThenElse(c, t, f) => fits(*c) && fits(*t) && fits(*f),
        ExprType::GetField(l, _) => fits(*l),
        ExprType::SetField(l, _, r) => fits(*l) && fits(*r),
        ExprType::SwapField(l, _, r, _) => fits(*l) && fits(*r),
        ExprType::Assignment(_, rhs) => fits(*rhs),
        ExprType::ArrayAssignment(a, i, r) => fits(*a) && fits(*i) && fits(*r),
        ExprType::ArrayOpAssignment(a, i, _, r) => fits(*a) && fits(*i) && fits(*r),
        ExprType::PatternAssignment(_, rhs) => fits(*rhs),
        _ => true,
    }
}

pub open spec fn all_fit(args: Vec<Expr>, i: nat) -> bool
    decreases args, args.len() - i,
{
    i >= args.len() || (fits(args@[i as int]) && all_fit(args, i + 1))
}


/// From `a` to `b`, code generation only appended: what `a` holds is the start of what `b`
/// holds, and each opcode appended came with a location.
pub open spec fn extends(a: CState, b: CState) -> bool {
    &&& a.code.len() <= b.code.len()
    &&& b.locations.len() - a.locations.len() == b.code.len() - a.code.len()
    &&& a.constants.len() <= b.constants.len()
    &&& a.runtime_errors.len() <= b.runtime_errors.len()
    &&& forall|i: int| 0 <= i < a.code.len() ==> #[trigger] b.code[i] == a.code[i]
    &&& forall|i: int| 0 <= i < a.locations.len() ==> #[trigger] b.locations[i] == a.locations[i]
    &&& forall|i: int| 0 <= i < a.constants.len() ==> #[trigger] b.constants[i] == a.constants[i]
    &&& forall|i: int|
        0 <= i < a.runtime_errors.len() ==> #[trigger] b.runtime_errors[i] == a.runtime_errors[i]
}

proof fn lemma_destructure_grows(lv: LValue, s: CState)
    ensures
        extends(s, destructure(lv, s)),
    decreases lv, 0nat,
{
    if let LValue::Terms(ts) = lv {
        lemma_terms_grows(ts, 0, with_op(s, Opcode::CheckLengthEqualTo(ts.len() as u32), unlocated()));
    }
}

proof fn lemma_terms_grows(ts: Vec<LValue>, i: nat, s: CState)
    ensures
        extends(s, destructure_terms(ts, i, s)),
    decreases ts, ts.len() - i,
{
    if i < ts.len() {
        let s1 = with_op(s, Opcode::Dup, unlocated());
        let s2 = with_constant(s1, Value::Int(i as i64));
        let s3 = with_op(s2, Opcode::OpIndex, unlocated());
        let s4 = destructure(ts@[i as int], s3);
        lemma_destructure_grows(ts@[i as int], s3);
        lemma_terms_grows(ts, i + 1, with_op(s4, Opcode::Pop, unlocated()));
    }
}

proof fn lemma_emit_grows(e: Expr, s: CState)
    ensures
        extends(s, emit(e, s)),
    decreases e, 0nat,
{
    match e.1 {
        ExprType::SliceLiteral(a1, a2, a3) => {
            lemma_emit_grows(*a1, s);
            lemma_emit_grows(*a2, emit(*a1, s));
            if let Some(x) = *a3 {
                lemma_emit_grows(x, emit(*a2, emit(*a1, s)));
            }
        },
        ExprType::Unary(_, a) => lemma_emit_grows(*a, s),
        ExprType::Binary(_, l, r) => {
            lemma_emit_grows(*l, s);
            lemma_emit_grows(*r, emit(*l, s));
        },
        ExprType::Literal(op, args) => {
            lemma_literal_grows(args, 0, 0, with_op(s, Opcode::LiteralBegin(op, args.len() as u32), unlocated()));
        },
        ExprType::Unroll(a, _) => lemma_emit_grows(*a, s),
        ExprType::Eval(f, args, _) => {
            lemma_emit_grows(*f, s);
            lemma_call_grows(args, 0, emit(*f, s));
        },
        ExprType::Compose(a, f) => {
            lemma_emit_grows(*a, s);
            lemma_emit_grows(*f, emit(*a, s));
        },
        ExprType::LogicalAnd(l, r) => {
            lemma_emit_grows(*l, s);
            lemma_emit_grows(*r, with_op(reserved(emit(*l, s)), Opcode::Pop, unlocated()));
        },
        ExprType::LogicalOr(l, r) => {
            lemma_emit_grows(*l, s);
            lemma_emit_grows(*r, with_op(reserved(emit(*l, s)), Opcode::Pop, unlocated()));
        },
        ExprType::Index(a, i) => {
            lemma_emit_grows(*a, s);
            lemma_emit_grows(*i, emit(*a, s));
        },
        ExprType::Slice(a, b, c) => {
            lemma_emit_grows(*a, s);
            lemma_emit_grows(*b, emit(*a, s));
            lemma_emit_grows(*c, emit(*b, emit(*a, s)));
        },
        ExprType::SliceWithStep(a, b, c, d) => {
            lemma_emit_grows(*a, s);
            lemma_emit_grows(*b, emit(*a, s));
            lemma_emit_grows(*c, emit(*b, emit(*a, s)));
            lemma_emit_grows(*d, emit(*c, emit(*b, emit(*a, s))));
        },
        ExprType::IfThenElse(c, t, f) => {
            let s1 = emit(*c, s);
            let s3 = emit(*t, reserved(s1));
            let s5 = fixed(reserved(s3), s1.code.len() as int, JumpKind::IfFalsePop);
            lemma_emit_grows(*c, s);
            lemma_emit_grows(*t, reserved(s1));
            lemma_emit_grows(*f, s5);
        },
        ExprType::GetField(l, _) => lemma_emit_grows(*l, s),
        ExprType::SetField(l, _, r) => {
            lemma_emit_grows(*l, s);
            lemma_emit_grows(*r, emit(*l, s));
        },
        ExprType::SwapField(l, fid, r, _) => {
            lemma_emit_grows(*l, s);
            lemma_emit_grows(*r, with_op(emit(*l, s), Opcode::GetFieldPeek(fid), e.0));
        },
        ExprType::Assignment(_, rhs) => lemma_emit_grows(*rhs, s),
        ExprType::ArrayAssignment(a, i, r) => {
            lemma_emit_grows(*a, s);
            lemma_emit_grows(*i, emit(*a, s));
            lemma_emit_grows(*r, emit(*i, emit(*a, s)));
        },
        ExprType::ArrayOpAssignment(a, i, _, r) => {
            lemma_emit_grows(*a, s);
            lemma_emit_grows(*i, emit(*a, s));
            lemma_emit_grows(*r, with_op(emit(*i, emit(*a, s)), Opcode::OpIndexPeek, e.0));
        },
        ExprType::PatternAssignment(lv, rhs) => {
            lemma_emit_grows(*rhs, s);
            lemma_destructure_grows(lv, emit(*rhs, s));
        },
        _ => {},
    }
}

proof fn lemma_literal_grows(args: Vec<Expr>, i: nat, acc: nat, s: CState)
    ensures
        extends(s, literal_args(args, i, acc, s)),
    decreases args, args.len() - i,
{
    if i < args.len() {
        let a = args@[i as int];
        match a.1 {
            ExprType::Unroll(inner, _) => {
                let s1 = if acc > 0 {
                    with_op(s, Opcode::LiteralAcc(acc as u32), unlocated())
                } else {
                    s
                };
                lemma_emit_grows(*inner, s1);
                lemma_literal_grows(args, i + 1, 0, with_op(emit(*inner, s1), Opcode::LiteralUnroll, a.0));
            },
            _ => {
                lemma_emit_grows(a, s);
                lemma_literal_grows(args, i + 1, acc + 1, emit(a, s));
            },
        }
    }
}

proof fn lemma_call_grows(args: Vec<Expr>, i: nat, s: CState)
    ensures
        extends(s, call_args(args, i, s)),
    decreases args, args.len() - i,
{
    if i < args.len() {
        lemma_emit_grows(args@[i as int], s);
        lemma_call_grows(args, i + 1, emit(args@[i as int], s));
    }
}



/// Emitting an expression only appends: the code, locations, constants and recorded errors
/// that were there before are left as they were, and every opcode appended comes with a
/// location.
pub proof fn law_emit_appends(e: Expr, s: CState)
    ensures
        extends(s, emit(e, s)),
{
    lemma_emit_grows(e, s);
}

/// The code that emitting `e` at `s` adds after the code of `s`.
pub open spec fn added(e: Expr, s: CState) -> Seq<Opcode> {
    emit(e, s).code.subrange(s.code.len() as int, emit(e, s).code.len() as int)
}

proof fn lemma_added(e: Expr, s: CState)
    ensures
        emit(e, s).code == s.code + added(e, s),
{
    lemma_emit_grows(e, s);
    assert(emit(e, s).code =~= s.code + added(e, s));
}

/// Operands are emitted in source order: the code of an index, a binary operation, a
/// composition, a field store, a slice or an element store is the code of its first operand,
/// then that of each next operand (emitted where the one before ended), then its operator.
pub proof fn law_operands_in_source_order(loc: Location, op: BinaryOp, fid: u32, a: Expr, b: Expr, c: Expr, s: CState)
    ensures
        emit(Expr(loc, ExprType::Index(Box::new(a), Box::new(b))), s).code
            == s.code + added(a, s) + added(b, emit(a, s)) + seq![Opcode::OpIndex],
        emit(Expr(loc, ExprType::Binary(op, Box::new(a), Box::new(b))), s).code
            == s.code + added(a, s) + added(b, emit(a, s)) + seq![Opcode::Binary(op)],
        emit(Expr(loc, ExprType::Compose(Box::new(a), Box::new(b))), s).code
            == s.code + added(a, s) + added(b, emit(a, s)) + seq![Opcode::Swap, Opcode::OpFuncEval(1)],
        emit(Expr(loc, ExprType::SetField(Box::new(a), fid, Box::new(b))), s).code
            == s.code + added(a, s) + added(b, emit(a, s)) + seq![Opcode::SetField(fid)],
        emit(Expr(loc, ExprType::Slice(Box::new(a), Box::new(b), Box::new(c))), s).code
            == s.code + added(a, s) + added(b, emit(a, s)) + added(c, emit(b, emit(a, s))) + seq![Opcode::OpSlice],
        emit(Expr(loc, ExprType::ArrayAssignment(Box::new(a), Box::new(b), Box::new(c))), s).code
            == s.code + added(a, s) + added(b, emit(a, s)) + added(c, emit(b, emit(a, s))) + seq![Opcode::StoreArray],
{
    let sa = emit(a, s);
    let sb = emit(b, sa);
    let sc = emit(c, sb);
    lemma_added(a, s);
    lemma_added(b, sa);
    lemma_added(c, sb);
    assert(sb.code.push(Opcode::OpIndex) =~= s.code + added(a, s) + added(b, sa) + seq![Opcode::OpIndex]);
    assert(sb.code.push(Opcode::Binary(op)) =~= s.code + added(a, s) + added(b, sa) + seq![Opcode::Binary(op)]);
    assert(sb.code.push(Opcode::Swap).push(Opcode::OpFuncEval(1)) =~= s.code + added(a, s) + added(b, sa)
        + seq![Opcode::Swap, Opcode::OpFuncEval(1)]);
    assert(sb.code.push(Opcode::SetField(fid)) =~= s.code + added(a, s) + added(b, sa) + seq![Opcode::SetField(fid)]);
    assert(sc.code.push(Opcode::OpSlice) =~= s.code + added(a, s) + added(b, sa) + added(c, sb) + seq![Opcode::OpSlice]);
    assert(sc.code.push(Opcode::StoreArray) =~= s.code + added(a, s) + added(b, sa) + added(c, sb)
        + seq![Opcode::StoreArray]);
}

/// Taking a value apart into a pattern only appends, in the same way.
pub proof fn law_destructure_appends(lv: LValue, s: CState)
    ensures
        extends(s, destructure(lv, s)),
{
    lemma_destructure_grows(lv, s);
}


/// A jump at `pos` whose target is `target`: the instruction after the jump, moved by its
/// offset.
pub open spec fn jumps_to(code: Seq<Opcode>, pos: int, target: int) -> bool {
    0 <= pos < code.len() && match code[pos] {
        Opcode::JumpIfFalse(o) | Opcode::JumpIfFalsePop(o) | Opcode::JumpIfTrue(o) | Opcode::Jump(o) => pos
            + 1 + o == target,
        _ => false,
    }
}

/// `and` and `or` jump from right after their left side to the end of their right side; `if`
/// jumps from right after its condition to its `else` branch, and from the end of its `then`
/// branch to the end of the `else` branch.
pub proof fn law_jumps_land_after(loc: Location, et: ExprType, s: CState)
    requires
        emit(Expr(loc, et), s).code.len() <= i32::MAX,
    ensures
        match et {
            ExprType::LogicalAnd(l, r) => jumps_to(
                emit(Expr(loc, et), s).code,
                emit(*l, s).code.len() as int,
                emit(Expr(loc, et), s).code.len() as int,
            ),
            ExprType::LogicalOr(l, r) => jumps_to(
                emit(Expr(loc, et), s).code,
                emit(*l, s).code.len() as int,
                emit(Expr(loc, et), s).code.len() as int,
            ),
            ExprType::IfThenElse(c, t, f) => {
                let s1 = emit(*c, s);
                let s3 = emit(*t, reserved(s1));
                jumps_to(emit(Expr(loc, et), s).code, s1.code.len() as int, s3.code.len() + 1int)
                    && jumps_to(
                    emit(Expr(loc, et), s).code,
                    s3.code.len() as int,
                    emit(Expr(loc, et), s).code.len() as int,
                )
            },
            _ => true,
        },
{
    let e = Expr(loc, et);
    match et {
        ExprType::LogicalAnd(l, r) => {
            let s1 = emit(*l, s);
            let s2 = with_op(reserved(s1), Opcode::Pop, unlocated());
            lemma_emit_grows(*r, s2);
        },
        ExprType::LogicalOr(l, r) => {
            let s1 = emit(*l, s);
            let s2 = with_op(reserved(s1), Opcode::Pop, unlocated());
            lemma_emit_grows(*r, s2);
        },
        ExprType::IfThenElse(c, t, f) => {
            let s1 = emit(*c, s);
            let s3 = emit(*t, reserved(s1));
            let s5 = fixed(reserved(s3), s1.code.len() as int, JumpKind::IfFalsePop);
            lemma_emit_grows(*t, reserved(s1));
            lemma_emit_grows(*f, s5);
            assert(emit(*f, s5).code[s1.code.len() as int] == s5.code[s1.code.len() as int]);
        },
        _ => {},
    }
}

impl Parser {
    /// What code generation has produced so far.
    pub open spec fn cstate(&self) -> CState {
        CState {
            code: self.code@,
            locations: self.locations@,
            constants: self.constants@,
            runtime_errors: self.runtime_errors@,
        }
    }

    /// Nothing but code generation changed from `old` to `new`.
    pub open spec fn same_parse(old: &Parser, new: &Parser) -> bool {
        &&& new@ == old@
        &&& new.input@ == old.input@
    }

    fn push_op(&mut self, op: Opcode)
        ensures
            final(self).cstate() == with_op(old(self).cstate(), op, unlocated()),
            Parser::same_parse(old(self), final(self)),
    {
        self.code.push(op);
        self.locations.push(Location { start: 0, width: 0 });
    }

    fn push_op_with(&mut self, op: Opcode, loc: Location)
        ensures
            final(self).cstate() == with_op(old(self).cstate(), op, loc),
            Parser::same_parse(old(self), final(self)),
    {
        self.code.push(op);
        self.locations.push(loc);
    }

    /// Declares `value` as a constant, and pushes it.
    fn push_constant(&mut self, value: Value)
        requires
            old(self).constants@.len() < u32::MAX,
        ensures
            final(self).cstate() == with_constant(old(self).cstate(), value),
            Parser::same_parse(old(self), final(self)),
    {
        let id = self.constants.len() as u32;
        self.constants.push(value);
        self.push_op(Opcode::Constant(id));
    }

    /// Appends a placeholder for a jump, and returns its index.
    fn reserve(&mut self) -> (pos: usize)
        ensures
            final(self).cstate() == reserved(old(self).cstate()),
            pos == old(self).code@.len(),
            Parser::same_parse(old(self), final(self)),
    {
        let pos = self.code.len();
        self.push_op(Opcode::Noop);
        pos
    }

    /// Turns the placeholder at `pos` into a jump to the next opcode to be emitted.
    fn fix_jump(&mut self, pos: usize, kind: JumpKind)
        requires
            pos < old(self).code@.len() <= i32::MAX,
        ensures
            final(self).cstate() == fixed(old(self).cstate(), pos as int, kind),
            Parser::same_parse(old(self), final(self)),
    {
        let offset = (self.code.len() - pos - 1) as i32;
        let op = match kind {
            JumpKind::IfFalse => Opcode::JumpIfFalse(offset),
            JumpKind::IfFalsePop => Opcode::JumpIfFalsePop(offset),
            JumpKind::IfTrue => Opcode::JumpIfTrue(offset),
            JumpKind::Always => Opcode::Jump(offset),
        };
        self.code.set(pos, op);
    }

    fn push_load_lvalue(&mut self, loc: Location, r: LValueReference)
        ensures
            final(self).cstate() == load(old(self).cstate(), r, loc),
            Parser::same_parse(old(self), final(self)),
    {
        match r {
            LValueReference::Local(i) => self.push_op_with(Opcode::PushLocal(i), loc),
            LValueReference::Global(i) => self.push_op_with(Opcode::PushGlobal(i), loc),
            LValueReference::UpValue(i) => self.push_op_with(Opcode::PushUpValue(i), loc),
        }
    }

    fn push_store_lvalue(&mut self, r: LValueReference)
        ensures
            final(self).cstate() == store(old(self).cstate(), r),
            Parser::same_parse(old(self), final(self)),
    {
        match r {
            LValueReference::Local(i) => self.push_op(Opcode::StoreLocal(i)),
            LValueReference::Global(i) => self.push_op(Opcode::StoreGlobal(i)),
            LValueReference::UpValue(i) => self.push_op(Opcode::StoreUpValue(i)),
        }
    }

    /// Records an error found while compiling, at `loc`.
    fn runtime_error(&mut self, loc: Location, error: Box<RuntimeError>)
        ensures
            final(self).cstate() == (CState {
                runtime_errors: old(self).cstate().runtime_errors.push((loc, *error)),
                ..old(self).cstate()
            }),
            Parser::same_parse(old(self), final(self)),
    {
        self.runtime_errors.push((loc, *error));
    }

    /// Emits `Closure` and the opcodes that capture the closed-over variables, if there are any.
    pub fn emit_closure_and_closed_locals(&mut self, closed_locals: Vec<Opcode>)
        ensures
            final(self).cstate() == closure(old(self).cstate(), closed_locals@),
            Parser::same_parse(old(self), final(self)),
    {
        if closed_locals.len() > 0 {
            self.push_op(Opcode::Closure);
            let ghost s1 = self.cstate();
            let mut k: usize = 0;
            while k < closed_locals.len()
                invariant
                    k <= closed_locals.len(),
                    Parser::same_parse(old(self), self),
                    self.cstate() == (CState {
                        code: s1.code + closed_locals@.subrange(0, k as int),
                        locations: s1.locations + Seq::new(k as nat, |i: int| unlocated()),
                        ..s1
                    }),
                decreases closed_locals.len() - k,
            {
                self.push_op(closed_locals[k]);
                k = k + 1;
                proof {
                    assert(self.code@ =~= s1.code + closed_locals@.subrange(0, k as int));
                    assert(self.locations@ =~= s1.locations + Seq::new(k as nat, |i: int| unlocated()));
                }
            }
            proof {
                assert(closed_locals@.subrange(0, k as int) =~= closed_locals@);
            }
        }
    }
}


impl LValue {
    /// Takes the value on top of the stack apart into this pattern, leaving the value there.
    #[verifier::loop_isolation(false)]
    pub fn emit_destructuring(self, parser: &mut Parser)
        requires
            destructure(self, old(parser).cstate()).constants.len() <= u32::MAX,
        ensures
            final(parser).cstate() == destructure(self, old(parser).cstate()),
            Parser::same_parse(old(parser), final(parser)),
        decreases self,
    {
        let ghost lv = self;
        let ghost target = destructure(self, parser.cstate());
        match self {
            LValue::Empty => {},
            LValue::Named(r) => parser.push_store_lvalue(r),
            LValue::Terms(ts) => {
                let ghost all = ts;
                parser.push_op(Opcode::CheckLengthEqualTo(ts.len() as u32));
                let mut rest = ts;
                let mut k: usize = 0;
                while rest.len() > 0
                    invariant
                        lv == LValue::Terms(all),
                        k + rest.len() == all.len(),
                        rest@ == all@.subrange(k as int, all.len() as int),
                        destructure_terms(all, k as nat, parser.cstate()) == target,
                        target.constants.len() <= u32::MAX,
                        Parser::same_parse(old(parser), parser),
                    decreases rest.len(),
                {
                    let term = rest.remove(0);
                    proof {
                        assert(term == all@[k as int]);
                        assert(decreases_to!(lv => lv->Terms_0));
                        assert(decreases_to!(all => all@));
                        assert(decreases_to!(all@ => all@[k as int]));
                        assert(decreases_to!(lv => term));
                        let s1 = with_op(parser.cstate(), Opcode::Dup, unlocated());
                        let s2 = with_constant(s1, Value::Int(k as i64));
                        let s3 = with_op(s2, Opcode::OpIndex, unlocated());
                        let s4 = destructure(term, s3);
                        lemma_destructure_grows(term, s3);
                        lemma_terms_grows(all, (k + 1) as nat, with_op(s4, Opcode::Pop, unlocated()));
                    }
                    parser.push_op(Opcode::Dup);
                    parser.push_constant(Value::Int(k as i64));
                    parser.push_op(Opcode::OpIndex);
                    term.emit_destructuring(parser);
                    parser.push_op(Opcode::Pop);
                    k = k + 1;
                    proof {
                        assert(rest@ =~= all@.subrange(k as int, all.len() as int));
                    }
                }
            },
        }
    }
}


impl Parser {
    /// Emits the code of `expr`: see `emit`.
    #[verifier::loop_isolation(false)]
    #[verifier::spinoff_prover]
    #[verifier::rlimit(60)]
    pub fn emit_expr(&mut self, expr: Expr)
        requires
            fits(expr),
            emit(expr, old(self).cstate()).code.len() <= i32::MAX,
            emit(expr, old(self).cstate()).constants.len() <= u32::MAX,
        ensures
            final(self).cstate() == emit(expr, old(self).cstate()),
            Parser::same_parse(old(self), final(self)),
        decreases expr,
    {
        let ghost e = expr;
        let ghost s0 = self.cstate();
        let ghost target = emit(expr, s0);
        let Expr(loc, et) = expr;
        match et {
            ExprType::Nil => self.push_op(Opcode::Nil),
            ExprType::Exit => self.push_op(Opcode::Exit),
            ExprType::Bool(b) => {
                if b {
                    self.push_op(Opcode::True)
                } else {
                    self.push_op(Opcode::False)
                }
            },
            ExprType::Int(i) => self.push_constant(Value::Int(i)),
            ExprType::Complex(a, b) => self.push_constant(Value::Complex(C64::new(a, b))),
            ExprType::Str(x) => self.push_constant(Value::Str(x)),
            ExprType::LValue(r) => self.push_load_lvalue(loc, r),
            ExprType::NativeFunction(n) => self.push_op(Opcode::NativeFunction(n)),
            ExprType::Function(id, closed) => {
                self.push_op(Opcode::Constant(id));
                self.emit_closure_and_closed_locals(closed);
            },
            ExprType::SliceLiteral(a1, a2, a3) => {
                proof {
                    lemma_emit_grows(*a2, emit(*a1, s0));
                    if *a3 is Some {
                        lemma_emit_grows((*a3)->Some_0, emit(*a2, emit(*a1, s0)));
                    }
                }
                self.emit_expr(*a1);
                self.emit_expr(*a2);
                match *a3 {
                    Some(x) => {
                        self.emit_expr(x);
                        self.push_op_with(Opcode::SliceWithStep, loc);
                    },
                    None => self.push_op_with(Opcode::Slice, loc),
                }
            },
            ExprType::Unary(op, a) => {
                self.emit_expr(*a);
                self.push_op_with(Opcode::Unary(op), loc);
            },
            ExprType::Binary(op, l, r) => {
                proof {
                    lemma_emit_grows(*r, emit(*l, s0));
                }
                self.emit_expr(*l);
                self.emit_expr(*r);
                self.push_op_with(Opcode::Binary(op), loc);
            },
            ExprType::Literal(op, args) => {
                let ghost all = args;
                let ghost s1 = with_op(s0, Opcode::LiteralBegin(op, args.len() as u32), unlocated());
                self.push_op(Opcode::LiteralBegin(op, args.len() as u32));
                let mut rest = args;
                let mut acc: u32 = 0;
                let mut k: usize = 0;
                while rest.len() > 0
                    invariant
                        e == Expr(loc, ExprType::Literal(op, all)),
                        all.len() <= u32::MAX,
                        k + rest.len() == all.len(),
                        acc <= k,
                        rest@ == all@.subrange(k as int, all.len() as int),
                        all_fit(all, k as nat),
                        literal_args(all, k as nat, acc as nat, self.cstate()) == literal_args(all, 0, 0, s1),
                        Parser::same_parse(old(self), self),
                    decreases rest.len(),
                {
                    let a = rest.remove(0);
                    proof {
                        assert(a == all@[k as int]);
                        assert(decreases_to!(e => e.1));
                        assert(decreases_to!(e.1 => e.1->Literal_1));
                        assert(decreases_to!(all => all@));
                        assert(decreases_to!(all@ => all@[k as int]));
                        assert(decreases_to!(e => a));
                    }
                    let ghost cur = self.cstate();
                    let Expr(aloc, aet) = a;
                    match aet {
                        ExprType::Unroll(inner, first) => {
                            proof {
                                assert(fits(a));
                                assert(fits(*inner));
                                assert(decreases_to!(a => a.1));
                                assert(decreases_to!(a.1 => a.1->Unroll_0));
                                let s1a = if acc > 0 {
                                    with_op(cur, Opcode::LiteralAcc(acc as u32), unlocated())
                                } else {
                                    cur
                                };
                                lemma_literal_grows(all, (k + 1) as nat, 0, with_op(emit(*inner, s1a), Opcode::LiteralUnroll, aloc));
                            }
                            if acc > 0 {
                                self.push_op(Opcode::LiteralAcc(acc));
                                acc = 0;
                            }
                            self.emit_expr(*inner);
                            self.push_op_with(Opcode::LiteralUnroll, aloc);
                        },
                        aet => {
                            let a2 = Expr(aloc, aet);
                            proof {
                                assert(a2 == all@[k as int]);
                                lemma_literal_grows(all, (k + 1) as nat, (acc + 1) as nat, emit(a2, cur));
                            }
                            self.emit_expr(a2);
                            acc = acc + 1;
                        },
                    }
                    k = k + 1;
                    proof {
                        assert(rest@ =~= all@.subrange(k as int, all.len() as int));
                    }
                }
                if acc > 0 {
                    self.push_op(Opcode::LiteralAcc(acc));
                }
                self.push_op_with(Opcode::LiteralEnd, loc);
            },
            ExprType::Unroll(a, first) => {
                self.emit_expr(*a);
                self.push_op_with(Opcode::OpUnroll(first), loc);
            },
            ExprType::Eval(f, args, any_unroll) => {
                let nargs = args.len() as u32;
                let ghost all = args;
                proof {
                    lemma_call_grows(all, 0, emit(*f, s0));
                }
                self.emit_expr(*f);
                let ghost s1 = self.cstate();
                let mut rest = args;
                let mut k: usize = 0;
                while rest.len() > 0
                    invariant
                        e == Expr(loc, ExprType::Eval(f, all, any_unroll)),
                        k + rest.len() == all.len(),
                        rest@ == all@.subrange(k as int, all.len() as int),
                        all_fit(all, k as nat),
                        call_args(all, k as nat, self.cstate()) == call_args(all, 0, s1),
                        Parser::same_parse(old(self), self),
                    decreases rest.len(),
                {
                    let a = rest.remove(0);
                    proof {
                        assert(a == all@[k as int]);
                        assert(decreases_to!(e => e.1));
                        assert(decreases_to!(e.1 => e.1->Eval_1));
                        assert(decreases_to!(all => all@));
                        assert(decreases_to!(all@ => all@[k as int]));
                        assert(decreases_to!(e => a));
                        lemma_call_grows(all, (k + 1) as nat, emit(a, self.cstate()));
                    }
                    self.emit_expr(a);
                    k = k + 1;
                    proof {
                        assert(rest@ =~= all@.subrange(k as int, all.len() as int));
                    }
                }
                if any_unroll {
                    self.push_op_with(Opcode::OpFuncEvalUnrolled(nargs), loc);
                } else {
                    self.push_op_with(Opcode::OpFuncEval(nargs), loc);
                }
            },
            ExprType::Compose(a, f) => {
                proof {
                    lemma_emit_grows(*f, emit(*a, s0));
                }
                self.emit_expr(*a);
                self.emit_expr(*f);
                self.push_op(Opcode::Swap);
                self.push_op_with(Opcode::OpFuncEval(1), loc);
            },
            ExprType::LogicalAnd(l, r) => {
                proof {
                    lemma_emit_grows(*r, with_op(reserved(emit(*l, s0)), Opcode::Pop, unlocated()));
                }
                self.emit_expr(*l);
                let jump_if_false = self.reserve();
                self.push_op(Opcode::Pop);
                self.emit_expr(*r);
                self.fix_jump(jump_if_false, JumpKind::IfFalse);
            },
            ExprType::LogicalOr(l, r) => {
                proof {
                    lemma_emit_grows(*r, with_op(reserved(emit(*l, s0)), Opcode::Pop, unlocated()));
                }
                self.emit_expr(*l);
                let jump_if_true = self.reserve();
                self.push_op(Opcode::Pop);
                self.emit_expr(*r);
                self.fix_jump(jump_if_true, JumpKind::IfTrue);
            },
            ExprType::Index(a, i) => {
                proof {
                    lemma_emit_grows(*i, emit(*a, s0));
                }
                self.emit_expr(*a);
                self.emit_expr(*i);
                self.push_op_with(Opcode::OpIndex, loc);
            },
            ExprType::Slice(a, b, c) => {
                proof {
                    lemma_emit_grows(*b, emit(*a, s0));
                    lemma_emit_grows(*c, emit(*b, emit(*a, s0)));
                }
                self.emit_expr(*a);
                self.emit_expr(*b);
                self.emit_expr(*c);
                self.push_op_with(Opcode::OpSlice, loc);
            },
            ExprType::SliceWithStep(a, b, c, d) => {
                proof {
                    lemma_emit_grows(*b, emit(*a, s0));
                    lemma_emit_grows(*c, emit(*b, emit(*a, s0)));
                    lemma_emit_grows(*d, emit(*c, emit(*b, emit(*a, s0))));
                }
                self.emit_expr(*a);
                self.emit_expr(*b);
                self.emit_expr(*c);
                self.emit_expr(*d);
                self.push_op_with(Opcode::OpSliceWithStep, loc);
            },
            ExprType::IfThenElse(c, t, f) => {
                proof {
                    let s1 = emit(*c, s0);
                    let s3 = emit(*t, reserved(s1));
                    let s5 = fixed(reserved(s3), s1.code.len() as int, JumpKind::IfFalsePop);
                    lemma_emit_grows(*t, reserved(s1));
                    lemma_emit_grows(*f, s5);
                }
                self.emit_expr(*c);
                let jump_if_false_pop = self.reserve();
                self.emit_expr(*t);
                let jump = self.reserve();
                self.fix_jump(jump_if_false_pop, JumpKind::IfFalsePop);
                self.emit_expr(*f);
                self.fix_jump(jump, JumpKind::Always);
            },
            ExprType::GetField(l, fid) => {
                self.emit_expr(*l);
                self.push_op_with(Opcode::GetField(fid), loc);
            },
            ExprType::SetField(l, fid, r) => {
                proof {
                    lemma_emit_grows(*r, emit(*l, s0));
                }
                self.emit_expr(*l);
                self.emit_expr(*r);
                self.push_op_with(Opcode::SetField(fid), loc);
            },
            ExprType::SwapField(l, fid, r, op) => {
                proof {
                    lemma_emit_grows(*r, with_op(emit(*l, s0), Opcode::GetFieldPeek(fid), loc));
                }
                self.emit_expr(*l);
                self.push_op_with(Opcode::GetFieldPeek(fid), loc);
                self.emit_expr(*r);
                self.push_op_with(Opcode::Binary(op), loc);
                self.push_op_with(Opcode::SetField(fid), loc);
            },
            ExprType::GetFieldFunction(fid) => self.push_op_with(Opcode::GetFieldFunction(fid), loc),
            ExprType::Assignment(r, rhs) => {
                self.emit_expr(*rhs);
                self.push_store_lvalue(r);
            },
            ExprType::ArrayAssignment(a, i, r) => {
                proof {
                    lemma_emit_grows(*i, emit(*a, s0));
                    lemma_emit_grows(*r, emit(*i, emit(*a, s0)));
                }
                self.emit_expr(*a);
                self.emit_expr(*i);
                self.emit_expr(*r);
                self.push_op_with(Opcode::StoreArray, loc);
            },
            ExprType::ArrayOpAssignment(a, i, op, r) => {
                proof {
                    lemma_emit_grows(*i, emit(*a, s0));
                    lemma_emit_grows(*r, with_op(emit(*i, emit(*a, s0)), Opcode::OpIndexPeek, loc));
                }
                self.emit_expr(*a);
                self.emit_expr(*i);
                self.push_op_with(Opcode::OpIndexPeek, loc);
                self.emit_expr(*r);
                match op {
                    BinaryOp::NotEqual => {
                        self.push_op(Opcode::Swap);
                        self.push_op_with(Opcode::OpFuncEval(1), loc);
                    },
                    op => self.push_op_with(Opcode::Binary(op), loc),
                }
                self.push_op_with(Opcode::StoreArray, loc);
            },
            ExprType::PatternAssignment(lvalue, rhs) => {
                proof {
                    lemma_destructure_grows(lvalue, emit(*rhs, s0));
                }
                self.emit_expr(*rhs);
                lvalue.emit_destructuring(self);
            },
            ExprType::RuntimeError(err) => self.runtime_error(loc, err),
        }
    }
}

} // verus!
