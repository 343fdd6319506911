//! The parser as a state machine over a fixed token sequence: each function of the
//! executable parser is stated here as a function from state to state.
//!
//! The state records how far the input has been read, what was emitted, the errors
//! recorded, the line number, whether the parser is recovering from an error, and
//! whether the parser has stopped for good (`halted`): the grammar has no way on for
//! the inputs that lead there (a `let` statement, which is never consumed, an
//! argument list of more than 255 arguments, or a `[` after an expression). `parse`
//! is not for those inputs; `try_parse` tells them apart.
use vstd::prelude::*;

use crate::compiler::parser::{ParserError, ParserErrorType, ParserToken};
use crate::compiler::scanner::ScanToken;

verus! {

pub struct PState {
    pub pos: nat,
    pub output: Seq<ParserToken>,
    pub errors: Seq<ParserError>,
    pub lineno: nat,
    pub error: bool,
    pub halted: bool,
}

/// The state before anything was read.
pub open spec fn initial() -> PState {
    PState { pos: 0, output: seq![], errors: seq![], lineno: 0, error: false, halted: false }
}

/// How many tokens are left to read.
pub open spec fn rem(toks: Seq<ScanToken>, s: PState) -> nat {
    if s.pos <= toks.len() { (toks.len() - s.pos) as nat } else { 0 }
}

pub open spec fn halt(s: PState) -> PState {
    PState { halted: true, ..s }
}

// ===== Parser core ===== //

/// Reads past new lines, emitting a `NewLine` and counting a line for each.
pub open spec fn skip_new_line(toks: Seq<ScanToken>, s: PState) -> PState
    decreases toks.len() - s.pos,
{
    if s.pos < toks.len() && toks[s.pos as int] == ScanToken::NewLine {
        skip_new_line(
            toks,
            PState {
                pos: s.pos + 1,
                lineno: s.lineno + 1,
                output: s.output.push(ParserToken::NewLine),
                ..s
            },
        )
    } else {
        s
    }
}

/// The next token past new lines, or none when recovering from an error.
pub open spec fn peek(toks: Seq<ScanToken>, s: PState) -> (PState, Option<ScanToken>) {
    if s.error {
        (s, None)
    } else {
        let s1 = skip_new_line(toks, s);
        (s1, if s1.pos < toks.len() { Some(toks[s1.pos as int]) } else { None })
    }
}

/// Reads the next token past new lines; reads nothing when recovering from an error.
pub open spec fn advance(toks: Seq<ScanToken>, s: PState) -> (PState, Option<ScanToken>) {
    if s.error {
        (s, None)
    } else {
        let s1 = skip_new_line(toks, s);
        if s1.pos < toks.len() {
            (PState { pos: s1.pos + 1, ..s1 }, Some(toks[s1.pos as int]))
        } else {
            (s1, None)
        }
    }
}

pub open spec fn push(s: PState, t: ParserToken) -> PState {
    PState { output: s.output.push(t), ..s }
}

/// Records an error unless one is being recovered from, and enters error recovery.
pub open spec fn push_err(s: PState, e: ParserErrorType) -> PState {
    if s.error {
        s
    } else {
        PState {
            errors: s.errors.push(ParserError { error: e, lineno: s.lineno as usize }),
            error: true,
            ..s
        }
    }
}

/// Whether the token `p` that is next is `t`.
pub open spec fn is_next(p: Option<ScanToken>, t: ScanToken) -> bool {
    match p {
        Some(x) => x.same_token(t),
        None => false,
    }
}

/// Reads `t` if it is next.
pub open spec fn accept(toks: Seq<ScanToken>, s: PState, t: ScanToken) -> (PState, bool) {
    let (s1, p) = peek(toks, s);
    if is_next(p, t) {
        (advance(toks, s1).0, true)
    } else {
        (s1, false)
    }
}

/// Reads `t`, or records that it was expected.
pub open spec fn expect(toks: Seq<ScanToken>, s: PState, t: ScanToken) -> PState {
    let s0 = skip_new_line(toks, s);
    let (s1, p) = peek(toks, s0);
    match p {
        Some(x) => if x.same_token(t) {
            PState { pos: s1.pos + 1, ..s1 }
        } else {
            push_err(s1, ParserErrorType::Expecting(t, x))
        },
        None => push_err(s1, ParserErrorType::UnexpectedEoFExpecting(t)),
    }
}

/// Discards tokens up to and including the next `t`, leaving error recovery when it is found.
pub open spec fn resync_loop(toks: Seq<ScanToken>, s: PState, t: ScanToken) -> PState
    decreases toks.len() - s.pos,
{
    let s0 = skip_new_line(toks, s);
    if s0.pos < toks.len() && s.pos <= s0.pos {
        if toks[s0.pos as int].same_token(t) {
            PState { error: false, pos: s0.pos + 1, ..s0 }
        } else {
            resync_loop(toks, PState { pos: s0.pos + 1, ..s0 }, t)
        }
    } else {
        s0
    }
}

/// Reads `t` if it is next; otherwise resynchronizes on it.
pub open spec fn expect_resync(toks: Seq<ScanToken>, s: PState, t: ScanToken) -> PState {
    let s0 = skip_new_line(toks, s);
    let (s1, p) = peek(toks, s0);
    if is_next(p, t) {
        advance(toks, s1).0
    } else {
        resync_loop(toks, s1, t)
    }
}

// ===== Operators ===== //

/// The binary operator that token `t` stands for at precedence `level` (3 binds tightest).
pub open spec fn op_at(level: nat, t: ScanToken) -> Option<ParserToken> {
    if level == 3 {
        match t {
            ScanToken::Mul => Some(ParserToken::OpMul),
            ScanToken::Div => Some(ParserToken::OpDiv),
            ScanToken::Mod => Some(ParserToken::OpMod),
            _ => None,
        }
    } else if level == 4 {
        match t {
            ScanToken::Plus => Some(ParserToken::OpAdd),
            ScanToken::Minus => Some(ParserToken::OpSub),
            _ => None,
        }
    } else if level == 5 {
        match t {
            ScanToken::LeftShift => Some(ParserToken::OpLeftShift),
            ScanToken::RightShift => Some(ParserToken::OpRightShift),
            _ => None,
        }
    } else if level == 6 {
        match t {
            ScanToken::LessThan => Some(ParserToken::OpLessThan),
            ScanToken::LessThanEquals => Some(ParserToken::OpLessThanEqual),
            ScanToken::GreaterThan => Some(ParserToken::OpGreaterThan),
            ScanToken::GreaterThanEquals => Some(ParserToken::OpGreaterThanEqual),
            ScanToken::DoubleEquals => Some(ParserToken::OpEqual),
            ScanToken::NotEquals => Some(ParserToken::OpNotEqual),
            _ => None,
        }
    } else if level == 7 {
        match t {
            ScanToken::BitwiseAnd => Some(ParserToken::OpBitwiseAnd),
            ScanToken::BitwiseOr => Some(ParserToken::OpBitwiseOr),
            ScanToken::BitwiseXor => Some(ParserToken::OpBitwiseXor),
            _ => None,
        }
    } else if level == 8 {
        match t {
            ScanToken::Dot => Some(ParserToken::OpFuncCompose),
            _ => None,
        }
    } else if level == 9 {
        match t {
            ScanToken::LogicalAnd => Some(ParserToken::OpLogicalAnd),
            ScanToken::LogicalOr => Some(ParserToken::OpLogicalOr),
            _ => None,
        }
    } else {
        None
    }
}

/// The prefix operator that token `t` stands for.
pub open spec fn prefix_op(t: ScanToken) -> Option<ParserToken> {
    match t {
        ScanToken::Minus => Some(ParserToken::UnarySub),
        ScanToken::BitwiseNot => Some(ParserToken::UnaryBitwiseNot),
        ScanToken::LogicalNot => Some(ParserToken::UnaryLogicalNot),
        _ => None,
    }
}

/// The operator that an assignment token such as `+=` applies.
pub open spec fn assign_op(t: ScanToken) -> Option<ParserToken> {
    match t {
        ScanToken::PlusEquals => Some(ParserToken::OpAdd),
        ScanToken::MinusEquals => Some(ParserToken::OpSub),
        ScanToken::MulEquals => Some(ParserToken::OpMul),
        ScanToken::DivEquals => Some(ParserToken::OpDiv),
        ScanToken::AndEquals => Some(ParserToken::OpBitwiseAnd),
        ScanToken::OrEquals => Some(ParserToken::OpBitwiseOr),
        ScanToken::XorEquals => Some(ParserToken::OpBitwiseXor),
        ScanToken::LeftShiftEquals => Some(ParserToken::OpLeftShift),
        ScanToken::RightShiftEquals => Some(ParserToken::OpRightShift),
        ScanToken::ModEquals => Some(ParserToken::OpMod),
        ScanToken::PowEquals => Some(ParserToken::OpPow),
        _ => None,
    }
}

// ===== Facts about the parser core ===== //

pub proof fn lemma_skip_new_line(toks: Seq<ScanToken>, s: PState)
    ensures
        ({
            let r = skip_new_line(toks, s);
            &&& s.pos <= r.pos
            &&& s.pos <= toks.len() ==> r.pos <= toks.len()
            &&& r.pos < toks.len() ==> toks[r.pos as int] != ScanToken::NewLine
            &&& r.lineno == s.lineno + (r.pos - s.pos)
            &&& r.output.len() == s.output.len() + (r.pos - s.pos)
            &&& r.output.subrange(0, s.output.len() as int) == s.output
            &&& forall|k: int| s.output.len() <= k < r.output.len() ==> #[trigger] r.output[k] == ParserToken::NewLine
            &&& forall|k: int| s.pos <= k < r.pos ==> #[trigger] toks[k] == ScanToken::NewLine
            &&& r.errors == s.errors
            &&& r.error == s.error
            &&& r.halted == s.halted
        }),
    decreases toks.len() - s.pos,
{
    if s.pos < toks.len() && toks[s.pos as int] == ScanToken::NewLine {
        let s1 = PState {
            pos: s.pos + 1,
            lineno: s.lineno + 1,
            output: s.output.push(ParserToken::NewLine),
            ..s
        };
        lemma_skip_new_line(toks, s1);
        let r = skip_new_line(toks, s1);
        assert(r.output.subrange(0, s.output.len() as int) =~= s.output) by {
            assert(r.output.subrange(0, s1.output.len() as int) == s1.output);
            assert(r.output.subrange(0, s.output.len() as int) =~= s1.output.subrange(0, s.output.len() as int));
        }
        assert(r.output[s.output.len() as int] == r.output.subrange(0, s1.output.len() as int)[s.output.len() as int]);
    } else {
        assert(s.output.subrange(0, s.output.len() as int) =~= s.output);
    }
}

/// Skipping new lines twice is skipping them once.
pub proof fn lemma_skip_new_line_idem(toks: Seq<ScanToken>, s: PState)
    ensures
        skip_new_line(toks, skip_new_line(toks, s)) == skip_new_line(toks, s),
{
    lemma_skip_new_line(toks, s);
}

pub proof fn lemma_peek(toks: Seq<ScanToken>, s: PState)
    ensures
        ({
            let (r, p) = peek(toks, s);
            &&& s.pos <= r.pos
            &&& s.pos <= toks.len() ==> r.pos <= toks.len()
            &&& p is Some ==> r.pos < toks.len() && !s.error && p == Some(toks[r.pos as int])
            &&& p is Some ==> p != Some(ScanToken::NewLine)
            &&& !s.error && r.pos < toks.len() ==> p is Some
            &&& r.errors == s.errors
            &&& r.error == s.error
            &&& r.halted == s.halted
            &&& r.lineno >= s.lineno
            &&& r.lineno - s.lineno == r.pos - s.pos
        }),
{
    lemma_skip_new_line(toks, s);
}

pub proof fn lemma_advance(toks: Seq<ScanToken>, s: PState)
    ensures
        ({
            let (r, p) = advance(toks, s);
            &&& s.pos <= r.pos
            &&& s.pos <= toks.len() ==> r.pos <= toks.len()
            &&& p is Some ==> s.pos < r.pos && !s.error
            &&& p == peek(toks, s).1
            &&& p is Some ==> r == PState { pos: peek(toks, s).0.pos + 1, ..peek(toks, s).0 }
            &&& p is None ==> r == peek(toks, s).0
            &&& r.errors == s.errors
            &&& r.error == s.error
            &&& r.halted == s.halted
        }),
{
    lemma_skip_new_line(toks, s);
}

pub proof fn lemma_expect(toks: Seq<ScanToken>, s: PState, t: ScanToken)
    ensures
        ({
            let r = expect(toks, s, t);
            &&& s.pos <= r.pos
            &&& s.pos <= toks.len() ==> r.pos <= toks.len()
            &&& !r.error ==> s.pos < r.pos
            &&& s.error ==> r.error
            &&& r.halted == s.halted
        }),
{
    lemma_skip_new_line(toks, s);
    lemma_peek(toks, skip_new_line(toks, s));
}

pub proof fn lemma_resync_loop(toks: Seq<ScanToken>, s: PState, t: ScanToken)
    ensures
        ({
            let r = resync_loop(toks, s, t);
            &&& s.pos <= r.pos
            &&& s.pos <= toks.len() ==> r.pos <= toks.len()
            &&& r.halted == s.halted
        }),
    decreases toks.len() - s.pos,
{
    let s0 = skip_new_line(toks, s);
    lemma_skip_new_line(toks, s);
    if s0.pos < toks.len() && s.pos <= s0.pos {
        if toks[s0.pos as int] != t {
            lemma_resync_loop(toks, PState { pos: s0.pos + 1, ..s0 }, t);
        }
    }
}

pub proof fn lemma_expect_resync(toks: Seq<ScanToken>, s: PState, t: ScanToken)
    ensures
        ({
            let r = expect_resync(toks, s, t);
            &&& s.pos <= r.pos
            &&& s.pos <= toks.len() ==> r.pos <= toks.len()
            &&& r.halted == s.halted
        }),
{
    let s0 = skip_new_line(toks, s);
    lemma_skip_new_line(toks, s);
    lemma_peek(toks, s0);
    lemma_advance(toks, peek(toks, s0).0);
    lemma_resync_loop(toks, peek(toks, s0).0, t);
}

pub proof fn lemma_accept(toks: Seq<ScanToken>, s: PState, t: ScanToken)
    ensures
        ({
            let (r, b) = accept(toks, s, t);
            &&& s.pos <= r.pos
            &&& s.pos <= toks.len() ==> r.pos <= toks.len()
            &&& b ==> s.pos < r.pos
            &&& r.error == s.error
            &&& r.errors == s.errors
            &&& r.halted == s.halted
        }),
{
    lemma_peek(toks, s);
    lemma_advance(toks, peek(toks, s).0);
}

pub proof fn lemma_rem(toks: Seq<ScanToken>, s: PState, r: PState)
    requires
        s.pos <= r.pos,
    ensures
        rem(toks, r) <= rem(toks, s),
        s.pos < r.pos && s.pos < toks.len() ==> rem(toks, r) < rem(toks, s),
{
}

// ===== Expressions ===== //

/// Prefix operators read before an expression terminal, in the order read.
pub open spec fn prefix_ops(toks: Seq<ScanToken>, s: PState) -> (PState, Seq<ParserToken>)
    decreases rem(toks, s),
{
    let (s1, p) = peek(toks, s);
    match p {
        Some(t) => match prefix_op(t) {
            Some(op) => {
                let s2 = advance(toks, s1).0;
                proof {
                    lemma_peek(toks, s);
                    lemma_advance(toks, s1);
                    lemma_rem(toks, s, s2);
                }
                let (s3, ops) = prefix_ops(toks, s2);
                (s3, seq![op] + ops)
            },
            None => (s1, seq![]),
        },
        None => (s1, seq![]),
    }
}

pub proof fn lemma_prefix_ops(toks: Seq<ScanToken>, s: PState)
    ensures
        ({
            let (r, ops) = prefix_ops(toks, s);
            &&& s.pos <= r.pos
            &&& s.pos <= toks.len() ==> r.pos <= toks.len()
            &&& r.error == s.error
            &&& r.errors == s.errors
            &&& r.halted == s.halted
        }),
    decreases rem(toks, s),
{
    let (s1, p) = peek(toks, s);
    lemma_peek(toks, s);
    if let Some(t) = p {
        if let Some(op) = prefix_op(t) {
            let s2 = advance(toks, s1).0;
            lemma_advance(toks, s1);
            lemma_rem(toks, s, s2);
            lemma_prefix_ops(toks, s2);
        }
    }
}

/// Emits prefix operators, the last one read first.
pub open spec fn push_rev(s: PState, ops: Seq<ParserToken>) -> PState {
    PState { output: s.output + ops.reverse(), ..s }
}

/// An expression terminal: a literal, a name, or a parenthesized expression.
pub open spec fn expr_terminal(toks: Seq<ScanToken>, s: PState) -> PState
    decreases rem(toks, s), 1nat, 0nat,
{
    if s.halted {
        s
    } else {
        let (s1, p) = peek(toks, s);
        match p {
            Some(ScanToken::KeywordNil) => push(advance(toks, s1).0, ParserToken::Nil),
            Some(ScanToken::KeywordTrue) => push(advance(toks, s1).0, ParserToken::True),
            Some(ScanToken::KeywordFalse) => push(advance(toks, s1).0, ParserToken::False),
            Some(ScanToken::Int(i)) => push(advance(toks, s1).0, ParserToken::Int(i)),
            Some(ScanToken::Identifier(n)) => push(advance(toks, s1).0, ParserToken::Identifier(n)),
            Some(ScanToken::StringLiteral(x)) => push(advance(toks, s1).0, ParserToken::Str(x)),
            Some(ScanToken::OpenParen) => {
                let s2 = advance(toks, s1).0;
                proof {
                    lemma_peek(toks, s);
                    lemma_advance(toks, s1);
                    lemma_rem(toks, s, s2);
                }
                let s3 = expr(toks, s2, 9);
                expect(toks, s3, ScanToken::CloseParen)
            },
            Some(e) => push_err(push(s1, ParserToken::Nil), ParserErrorType::ExpectedExpressionTerminal(e)),
            None => push_err(push(s1, ParserToken::Nil), ParserErrorType::UnexpectedEoF),
        }
    }
}

/// A unary expression: prefix operators, a terminal, then calls.
pub open spec fn expr_unary(toks: Seq<ScanToken>, s: PState) -> PState
    decreases rem(toks, s), 2nat, 2nat,
{
    if s.halted {
        s
    } else {
        let (s1, ops) = prefix_ops(toks, s);
        proof {
            lemma_prefix_ops(toks, s);
            lemma_rem(toks, s, s1);
        }
        let s2 = expr_terminal(toks, s1);
        let s3 = if rem(toks, s2) <= rem(toks, s) { suffix(toks, s2) } else { s2 };
        push_rev(s3, ops)
    }
}

/// Calls following a terminal: `(`, arguments separated by `,`, then `)`.
pub open spec fn suffix(toks: Seq<ScanToken>, s: PState) -> PState
    decreases rem(toks, s), 2nat, 1nat,
{
    if s.halted {
        s
    } else {
        let (s1, p) = peek(toks, s);
        if p == Some(ScanToken::OpenParen) {
            let s2 = advance(toks, s1).0;
            let (s3, p2) = peek(toks, s2);
            proof {
                lemma_peek(toks, s);
                lemma_advance(toks, s1);
                lemma_peek(toks, s2);
                lemma_rem(toks, s, s2);
                lemma_rem(toks, s2, s3);
            }
            let (s4, count) = match p2 {
                Some(ScanToken::CloseParen) => (advance(toks, s3).0, 0nat),
                Some(_) => {
                    let s5 = expr(toks, s3, 9);
                    if rem(toks, s5) <= rem(toks, s) {
                        let (s6, c) = args(toks, s5, 1);
                        let (s7, p3) = peek(toks, s6);
                        let s8 = match p3 {
                            Some(ScanToken::CloseParen) => advance(toks, s7).0,
                            Some(x) => push_err(s7, ParserErrorType::ExpectedCommaOrEndOfArguments(x)),
                            None => push_err(s7, ParserErrorType::UnexpectedEoF),
                        };
                        (s8, c)
                    } else {
                        (s5, 1nat)
                    }
                },
                None => (push_err(s3, ParserErrorType::UnexpectedEoF), 0nat),
            };
            if s4.halted {
                s4
            } else {
                let s9 = push(s4, ParserToken::OpFuncEval(count as u8));
                if rem(toks, s9) < rem(toks, s) { suffix(toks, s9) } else { s9 }
            }
        } else if p == Some(ScanToken::OpenSquareBracket) {
            halt(s1)
        } else {
            s1
        }
    }
}

/// The arguments after the first: `,` and an expression, each counted; more than 255 halts.
pub open spec fn args(toks: Seq<ScanToken>, s: PState, count: nat) -> (PState, nat)
    decreases rem(toks, s), 2nat, 0nat,
{
    if s.halted {
        (s, count)
    } else {
        let (s1, p) = peek(toks, s);
        if p == Some(ScanToken::Comma) {
            let s2 = advance(toks, s1).0;
            proof {
                lemma_peek(toks, s);
                lemma_advance(toks, s1);
                lemma_rem(toks, s, s2);
            }
            let s3 = expr(toks, s2, 9);
            if count >= 255 {
                (halt(s3), count)
            } else if rem(toks, s3) < rem(toks, s) {
                args(toks, s3, count + 1)
            } else {
                (s3, count + 1)
            }
        } else {
            (s1, count)
        }
    }
}

/// A binary expression at precedence `level`: level 2 is a unary expression, and each level
/// above reads operands of the level below, joined left to right by its operators.
pub open spec fn expr(toks: Seq<ScanToken>, s: PState, level: nat) -> PState
    decreases rem(toks, s), if level < 2 { 2nat } else { level }, 3nat,
{
    if s.halted {
        s
    } else if level <= 2 {
        expr_unary(toks, s)
    } else {
        let s1 = expr(toks, s, (level - 1) as nat);
        if rem(toks, s1) <= rem(toks, s) { binop_loop(toks, s1, level) } else { s1 }
    }
}

/// Operators of `level` and their right operands, after a left operand.
pub open spec fn binop_loop(toks: Seq<ScanToken>, s: PState, level: nat) -> PState
    decreases rem(toks, s), level, 1nat,
{
    if s.halted {
        s
    } else {
        let (s1, p) = peek(toks, s);
        let op = match p {
            Some(t) => op_at(level, t),
            None => None,
        };
        match op {
            Some(op) => {
                let s2 = advance(toks, s1).0;
                proof {
                    lemma_peek(toks, s);
                    lemma_advance(toks, s1);
                    lemma_rem(toks, s, s2);
                }
                let s3 = expr(toks, s2, (level - 1) as nat);
                let s4 = push(s3, op);
                if rem(toks, s4) < rem(toks, s) { binop_loop(toks, s4, level) } else { s4 }
            },
            None => s1,
        }
    }
}


/// Reading never moves backwards, and never past the end of the input.
pub open spec fn advances(toks: Seq<ScanToken>, s: PState, r: PState) -> bool {
    &&& s.pos <= r.pos
    &&& s.pos <= toks.len() ==> r.pos <= toks.len()
}

pub proof fn lemma_expr_terminal_advances(toks: Seq<ScanToken>, s: PState)
    ensures
        advances(toks, s, expr_terminal(toks, s)),
    decreases rem(toks, s), 1nat, 0nat,
{
    if !s.halted {
        let (s1, p) = peek(toks, s);
        lemma_peek(toks, s);
        lemma_advance(toks, s1);
        match p {
            Some(ScanToken::OpenParen) => {
                let s2 = advance(toks, s1).0;
                lemma_rem(toks, s, s2);
                lemma_expr_advances(toks, s2, 9);
                lemma_expect(toks, expr(toks, s2, 9), ScanToken::CloseParen);
            },
            _ => {},
        }
    }
}

pub proof fn lemma_expr_unary_advances(toks: Seq<ScanToken>, s: PState)
    ensures
        advances(toks, s, expr_unary(toks, s)),
    decreases rem(toks, s), 2nat, 2nat,
{
    if !s.halted {
        let (s1, ops) = prefix_ops(toks, s);
        lemma_prefix_ops(toks, s);
        lemma_rem(toks, s, s1);
        lemma_expr_terminal_advances(toks, s1);
        let s2 = expr_terminal(toks, s1);
        if rem(toks, s2) <= rem(toks, s) {
            lemma_suffix_advances(toks, s2);
        }
    }
}

pub proof fn lemma_suffix_advances(toks: Seq<ScanToken>, s: PState)
    ensures
        advances(toks, s, suffix(toks, s)),
    decreases rem(toks, s), 2nat, 1nat,
{
    if !s.halted {
        let (s1, p) = peek(toks, s);
        lemma_peek(toks, s);
        if p == Some(ScanToken::OpenParen) {
            let s2 = advance(toks, s1).0;
            let (s3, p2) = peek(toks, s2);
            lemma_advance(toks, s1);
            lemma_peek(toks, s2);
            lemma_rem(toks, s, s2);
            lemma_rem(toks, s2, s3);
            let (s4, count) = match p2 {
                Some(ScanToken::CloseParen) => {
                    lemma_advance(toks, s3);
                    (advance(toks, s3).0, 0nat)
                },
                Some(_) => {
                    let s5 = expr(toks, s3, 9);
                    lemma_expr_advances(toks, s3, 9);
                    if rem(toks, s5) <= rem(toks, s) {
                        let (s6, c) = args(toks, s5, 1);
                        lemma_args_advances(toks, s5, 1);
                        let (s7, p3) = peek(toks, s6);
                        lemma_peek(toks, s6);
                        lemma_advance(toks, s7);
                        let s8 = match p3 {
                            Some(ScanToken::CloseParen) => advance(toks, s7).0,
                            Some(x) => push_err(s7, ParserErrorType::ExpectedCommaOrEndOfArguments(x)),
                            None => push_err(s7, ParserErrorType::UnexpectedEoF),
                        };
                        (s8, c)
                    } else {
                        (s5, 1nat)
                    }
                },
                None => (push_err(s3, ParserErrorType::UnexpectedEoF), 0nat),
            };
            if !s4.halted {
                let s9 = push(s4, ParserToken::OpFuncEval(count as u8));
                if rem(toks, s9) < rem(toks, s) {
                    lemma_suffix_advances(toks, s9);
                }
            }
        }
    }
}

pub proof fn lemma_args_advances(toks: Seq<ScanToken>, s: PState, count: nat)
    ensures
        advances(toks, s, args(toks, s, count).0),
        count <= args(toks, s, count).1,
    decreases rem(toks, s), 2nat, 0nat,
{
    if !s.halted {
        let (s1, p) = peek(toks, s);
        lemma_peek(toks, s);
        if p == Some(ScanToken::Comma) {
            let s2 = advance(toks, s1).0;
            lemma_advance(toks, s1);
            lemma_rem(toks, s, s2);
            let s3 = expr(toks, s2, 9);
            lemma_expr_advances(toks, s2, 9);
            if count < 255 && rem(toks, s3) < rem(toks, s) {
                lemma_args_advances(toks, s3, count + 1);
            }
        }
    }
}

pub proof fn lemma_expr_advances(toks: Seq<ScanToken>, s: PState, level: nat)
    ensures
        advances(toks, s, expr(toks, s, level)),
    decreases rem(toks, s), if level < 2 { 2nat } else { level }, 3nat,
{
    if !s.halted {
        if level <= 2 {
            lemma_expr_unary_advances(toks, s);
        } else {
            let s1 = expr(toks, s, (level - 1) as nat);
            lemma_expr_advances(toks, s, (level - 1) as nat);
            if rem(toks, s1) <= rem(toks, s) {
                lemma_binop_loop_advances(toks, s1, level);
            }
        }
    }
}

pub proof fn lemma_binop_loop_advances(toks: Seq<ScanToken>, s: PState, level: nat)
    ensures
        advances(toks, s, binop_loop(toks, s, level)),
    decreases rem(toks, s), level, 1nat,
{
    if !s.halted {
        let (s1, p) = peek(toks, s);
        lemma_peek(toks, s);
        let op = match p {
            Some(t) => op_at(level, t),
            None => None,
        };
        if let Some(op) = op {
            let s2 = advance(toks, s1).0;
            lemma_advance(toks, s1);
            lemma_rem(toks, s, s2);
            let s3 = expr(toks, s2, (level - 1) as nat);
            lemma_expr_advances(toks, s2, (level - 1) as nat);
            let s4 = push(s3, op);
            if rem(toks, s4) < rem(toks, s) {
                lemma_binop_loop_advances(toks, s4, level);
            }
        }
    }
}

// ===== Statements ===== //

/// `let`: a pattern (not read yet), then optionally `=` and an expression.
pub open spec fn let_statement(toks: Seq<ScanToken>, s: PState) -> PState {
    let (s1, b) = accept(toks, s, ScanToken::Equals);
    if b { expr(toks, s1, 9) } else { s1 }
}

/// An assignment `name = expr`, or `name op= expr` which reads `name` again.
/// A name followed by neither is read and dropped.
pub open spec fn assignment(toks: Seq<ScanToken>, s: PState) -> PState {
    let (s1, t) = advance(toks, s);
    let name = match t {
        Some(ScanToken::Identifier(n)) => n,
        _ => arbitrary(),
    };
    let (s2, p) = peek(toks, s1);
    if p == Some(ScanToken::Equals) {
        let s3 = push(s2, ParserToken::Identifier(name));
        let s4 = advance(toks, s3).0;
        push(expr(toks, s4, 9), ParserToken::StoreValue)
    } else {
        let op = match p {
            Some(x) => assign_op(x),
            None => None,
        };
        match op {
            Some(op) => {
                let s3 = push(push(s2, ParserToken::Identifier(name)), ParserToken::Dupe);
                let s4 = advance(toks, s3).0;
                push(push(expr(toks, s4, 9), op), ParserToken::StoreValue)
            },
            None => s2,
        }
    }
}

/// `{`, statements, then `}` (the point at which error recovery resynchronizes).
pub open spec fn block_statement(toks: Seq<ScanToken>, s: PState) -> PState
    decreases rem(toks, s), 1nat,
{
    if s.halted {
        s
    } else {
        let s1 = expect(toks, s, ScanToken::OpenBrace);
        let s2 = if s1.error {
            s1
        } else if rem(toks, s1) < rem(toks, s) {
            statements(toks, s1)
        } else {
            s1
        };
        if s2.halted { s2 } else { expect_resync(toks, s2, ScanToken::CloseBrace) }
    }
}

/// A function: an optional `(` (parameters are not read yet), then a block.
pub open spec fn function(toks: Seq<ScanToken>, s: PState) -> PState
    decreases rem(toks, s), 2nat,
{
    if s.halted {
        s
    } else {
        let (s1, _) = accept(toks, s, ScanToken::OpenParen);
        proof {
            lemma_accept(toks, s, ScanToken::OpenParen);
            lemma_rem(toks, s, s1);
        }
        block_statement(toks, s1)
    }
}

/// Blocks after `elif`.
pub open spec fn elif_loop(toks: Seq<ScanToken>, s: PState) -> PState
    decreases rem(toks, s), 1nat,
{
    if s.halted {
        s
    } else {
        let (s1, b) = accept(toks, s, ScanToken::KeywordElif);
        proof {
            lemma_accept(toks, s, ScanToken::KeywordElif);
            lemma_rem(toks, s, s1);
        }
        if b {
            let s2 = block_statement(toks, s1);
            if rem(toks, s2) < rem(toks, s) { elif_loop(toks, s2) } else { s2 }
        } else {
            s1
        }
    }
}

/// `if`: a condition, a block, `elif` blocks, and an optional `else` block.
pub open spec fn if_statement(toks: Seq<ScanToken>, s: PState) -> PState
    decreases rem(toks, s), 2nat,
{
    if s.halted {
        s
    } else {
        let s1 = expr(toks, s, 9);
        proof {
            lemma_expr_advances(toks, s, 9);
            lemma_rem(toks, s, s1);
        }
        let s2 = block_statement(toks, s1);
        if rem(toks, s2) <= rem(toks, s) {
            let s3 = elif_loop(toks, s2);
            if rem(toks, s3) <= rem(toks, s) {
                let (s4, b) = accept(toks, s3, ScanToken::KeywordElse);
                proof {
                    lemma_accept(toks, s3, ScanToken::KeywordElse);
                    lemma_rem(toks, s3, s4);
                }
                if b { block_statement(toks, s4) } else { s4 }
            } else {
                s3
            }
        } else {
            s2
        }
    }
}

/// `for`: a pattern (not read yet), `in`, an expression, then a block.
pub open spec fn for_statement(toks: Seq<ScanToken>, s: PState) -> PState
    decreases rem(toks, s), 2nat,
{
    if s.halted {
        s
    } else {
        let s1 = expect(toks, s, ScanToken::KeywordIn);
        let s2 = expr(toks, s1, 9);
        proof {
            lemma_expect(toks, s, ScanToken::KeywordIn);
            lemma_expr_advances(toks, s1, 9);
            lemma_rem(toks, s, s2);
        }
        block_statement(toks, s2)
    }
}

/// Statements, for as long as one can start. A statement that reads nothing and
/// records no error would be read again forever: the parser halts there.
pub open spec fn statements(toks: Seq<ScanToken>, s: PState) -> PState
    decreases rem(toks, s), 4nat,
{
    if s.halted {
        s
    } else {
        let (s1, p) = peek(toks, s);
        proof {
            lemma_peek(toks, s);
            lemma_rem(toks, s, s1);
        }
        match p {
            Some(t) => {
                if statement_start(t) {
                    let s2 = match t {
                        ScanToken::KeywordFn => function(toks, s1),
                        ScanToken::KeywordLet => let_statement(toks, s1),
                        ScanToken::KeywordIf => if_statement(toks, s1),
                        ScanToken::KeywordLoop => block_statement(toks, s1),
                        ScanToken::KeywordFor => for_statement(toks, s1),
                        ScanToken::Identifier(_) => assignment(toks, s1),
                        _ => block_statement(toks, s1),
                    };
                    if rem(toks, s2) < rem(toks, s1) {
                        statements(toks, s2)
                    } else if s2.error || s2.halted {
                        s2
                    } else {
                        halt(s2)
                    }
                } else {
                    s1
                }
            },
            None => s1,
        }
    }
}

/// The tokens that begin a statement.
pub open spec fn statement_start(t: ScanToken) -> bool {
    ||| t == ScanToken::KeywordFn
    ||| t == ScanToken::KeywordLet
    ||| t == ScanToken::KeywordIf
    ||| t == ScanToken::KeywordLoop
    ||| t == ScanToken::KeywordFor
    ||| t is Identifier
    ||| t == ScanToken::OpenBrace
}

/// The whole input, read as statements.
pub open spec fn parse_all(toks: Seq<ScanToken>) -> PState {
    statements(toks, initial())
}

} // verus!

verus! {

/// Once halted, the parser stays halted: every step leaves a halted state halted.
pub proof fn lemma_halting(toks: Seq<ScanToken>)
    ensures
        forall|s: PState| #[trigger] skip_new_line(toks, s).halted == s.halted,
        forall|s: PState| #[trigger] peek(toks, s).0.halted == s.halted,
        forall|s: PState| #[trigger] advance(toks, s).0.halted == s.halted,
        forall|s: PState, t: ScanToken| #[trigger] expect(toks, s, t).halted == s.halted,
        forall|s: PState, t: ScanToken| #[trigger] expect_resync(toks, s, t).halted == s.halted,
        forall|s: PState, t: ScanToken| #[trigger] accept(toks, s, t).0.halted == s.halted,
        forall|s: PState| #[trigger] prefix_ops(toks, s).0.halted == s.halted,
        forall|s: PState| s.halted ==> #[trigger] expr_terminal(toks, s) == s,
        forall|s: PState| s.halted ==> #[trigger] expr_unary(toks, s) == s,
        forall|s: PState| s.halted ==> #[trigger] suffix(toks, s) == s,
        forall|s: PState, c: nat| s.halted ==> #[trigger] args(toks, s, c) == (s, c),
        forall|s: PState, l: nat| s.halted ==> #[trigger] expr(toks, s, l) == s,
        forall|s: PState, l: nat| s.halted ==> #[trigger] binop_loop(toks, s, l) == s,
        forall|s: PState| s.halted ==> #[trigger] block_statement(toks, s) == s,
        forall|s: PState| s.halted ==> #[trigger] function(toks, s) == s,
        forall|s: PState| s.halted ==> #[trigger] elif_loop(toks, s) == s,
        forall|s: PState| s.halted ==> #[trigger] if_statement(toks, s) == s,
        forall|s: PState| s.halted ==> #[trigger] for_statement(toks, s) == s,
        forall|s: PState| s.halted ==> #[trigger] statements(toks, s) == s,
        forall|s: PState| s.halted ==> #[trigger] let_statement(toks, s).halted,
        forall|s: PState| s.halted ==> #[trigger] assignment(toks, s).halted,
{
    assert forall|s: PState| #[trigger] skip_new_line(toks, s).halted == s.halted by {
        lemma_skip_new_line(toks, s);
    }
    assert forall|s: PState, t: ScanToken| #[trigger] expect_resync(toks, s, t).halted == s.halted by {
        lemma_expect_resync(toks, s, t);
    }
    assert forall|s: PState| #[trigger] prefix_ops(toks, s).0.halted == s.halted by {
        lemma_prefix_ops(toks, s);
    }
    assert forall|s: PState| s.halted implies #[trigger] let_statement(toks, s).halted by {
        let (s1, b) = accept(toks, s, ScanToken::Equals);
        assert(s1.halted);
        assert(expr(toks, s1, 9) == s1);
    }
    assert forall|s: PState| s.halted implies #[trigger] assignment(toks, s).halted by {
        let (s1, t) = advance(toks, s);
        let (s2, p) = peek(toks, s1);
        assert(s2.halted);
        let s3 = push(s2, ParserToken::Identifier(arbitrary()));
        assert(forall|x: PState| x.halted ==> #[trigger] expr(toks, x, 9) == x);
    }
}

} // verus!
