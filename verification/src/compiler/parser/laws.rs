//! What holds of every run of the parser: it reads forward, only appends to its output and
//! to its errors, counts lines as it reads new lines, records errors in the order of their
//! lines, and while recovering from an error records no other error.
use vstd::prelude::*;

use crate::compiler::parser::grammar::{
    accept, advance, args, binop_loop, expect, expect_resync, expr, expr_terminal, expr_unary,
    lemma_advance, lemma_peek, lemma_prefix_ops, lemma_rem, lemma_skip_new_line, op_at, peek,
    prefix_op, prefix_ops, push, push_err, push_rev, rem, resync_loop, skip_new_line, suffix, PState,
    assign_op, assignment, block_statement, elif_loop, for_statement, function, halt, if_statement,
    let_statement, lemma_accept, lemma_expect, lemma_expr_advances, statement_start, statements,
    initial, parse_all,
};
use crate::compiler::parser::{ParserError, ParserErrorType, ParserToken};
use crate::compiler::scanner::ScanToken;

verus! {

/// How many new lines there are among `toks[a..b]`.
pub open spec fn newlines(toks: Seq<ScanToken>, a: int, b: int) -> nat
    decreases b - a,
{
    if b <= a {
        0
    } else {
        newlines(toks, a, b - 1) + if toks[b - 1] == ScanToken::NewLine { 1nat } else { 0nat }
    }
}

/// From `s` to `r` the parser read forward within the input, counted the new lines it read,
/// and only appended to its output and to its errors, each error with the line it was
/// recorded on (where line numbers fit in a `usize`).
pub open spec fn grows(toks: Seq<ScanToken>, s: PState, r: PState) -> bool {
    &&& s.pos <= r.pos
    &&& s.pos <= toks.len() ==> r.pos <= toks.len()
    &&& r.lineno == s.lineno + newlines(toks, s.pos as int, r.pos as int)
    &&& s.output.len() <= r.output.len()
    &&& r.output.subrange(0, s.output.len() as int) == s.output
    &&& s.errors.len() <= r.errors.len()
    &&& r.errors.subrange(0, s.errors.len() as int) == s.errors
    &&& r.lineno <= usize::MAX ==> new_errors_in_line_order(s, r)
}

/// The errors recorded from `s` to `r` carry the lines on which they were recorded: in order,
/// from the line of `s` to the line of `r`.
pub open spec fn new_errors_in_line_order(s: PState, r: PState) -> bool {
    &&& forall|k: int| s.errors.len() <= k < r.errors.len() ==> s.lineno <= #[trigger] r.errors[k].lineno <= r.lineno
    &&& forall|i: int, j: int|
        s.errors.len() <= i < j < r.errors.len() ==> #[trigger] r.errors[i].lineno <= #[trigger] r.errors[j].lineno
}

/// `grows`, and besides: at most one error was recorded, only when not recovering from an
/// error, and recovery, once entered, was not left.
pub open spec fn expr_step(toks: Seq<ScanToken>, s: PState, r: PState) -> bool {
    &&& grows(toks, s, r)
    &&& r.errors.len() <= s.errors.len() + 1
    &&& s.error ==> r.error && r.errors == s.errors
    &&& r.errors.len() > s.errors.len() ==> r.error
}

proof fn lemma_newlines_split(toks: Seq<ScanToken>, a: int, b: int, c: int)
    requires
        a <= b <= c,
    ensures
        newlines(toks, a, c) == newlines(toks, a, b) + newlines(toks, b, c),
    decreases c - b,
{
    if b < c {
        lemma_newlines_split(toks, a, b, c - 1);
    }
}

proof fn lemma_newlines_all(toks: Seq<ScanToken>, a: int, b: int)
    requires
        a <= b,
        forall|k: int| a <= k < b ==> #[trigger] toks[k] == ScanToken::NewLine,
    ensures
        newlines(toks, a, b) == b - a,
    decreases b - a,
{
    if a < b {
        lemma_newlines_all(toks, a, b - 1);
    }
}

proof fn lemma_newlines_one(toks: Seq<ScanToken>, a: int)
    requires
        0 <= a < toks.len(),
        toks[a] != ScanToken::NewLine,
    ensures
        newlines(toks, a, a + 1) == 0,
{
    assert(newlines(toks, a, a) == 0);
}

proof fn lemma_step_refl(toks: Seq<ScanToken>, s: PState)
    ensures
        expr_step(toks, s, s),
{
    assert(s.output.subrange(0, s.output.len() as int) =~= s.output);
    assert(s.errors.subrange(0, s.errors.len() as int) =~= s.errors);
}

proof fn lemma_grows_trans(toks: Seq<ScanToken>, a: PState, b: PState, c: PState)
    requires
        grows(toks, a, b),
        grows(toks, b, c),
    ensures
        grows(toks, a, c),
{
    lemma_newlines_split(toks, a.pos as int, b.pos as int, c.pos as int);
    assert(c.output.subrange(0, a.output.len() as int) =~= b.output.subrange(0, b.output.len() as int).subrange(0, a.output.len() as int));
    assert(c.output.subrange(0, a.output.len() as int) =~= c.output.subrange(0, b.output.len() as int).subrange(0, a.output.len() as int));
    assert(c.errors.subrange(0, a.errors.len() as int) =~= c.errors.subrange(0, b.errors.len() as int).subrange(0, a.errors.len() as int));
    if c.lineno <= usize::MAX {
        assert forall|k: int| 0 <= k < b.errors.len() implies #[trigger] c.errors[k] == b.errors[k] by {
            assert(c.errors.subrange(0, b.errors.len() as int)[k] == c.errors[k]);
        }
        assert forall|k: int| a.errors.len() <= k < c.errors.len() implies a.lineno <= #[trigger] c.errors[k].lineno <= c.lineno by {
            if k < b.errors.len() {
                assert(c.errors[k] == b.errors[k]);
            }
        }
        assert forall|i: int, j: int| a.errors.len() <= i < j < c.errors.len() implies #[trigger] c.errors[i].lineno <= #[trigger] c.errors[j].lineno by {
            if j < b.errors.len() {
                assert(c.errors[i] == b.errors[i]);
                assert(c.errors[j] == b.errors[j]);
            } else if i < b.errors.len() {
                assert(c.errors[i] == b.errors[i]);
                assert(b.errors[i].lineno <= b.lineno);
                assert(b.lineno <= c.errors[j].lineno);
            }
        }
    }
}

proof fn lemma_step_trans(toks: Seq<ScanToken>, a: PState, b: PState, c: PState)
    requires
        expr_step(toks, a, b),
        expr_step(toks, b, c),
    ensures
        expr_step(toks, a, c),
{
    lemma_grows_trans(toks, a, b, c);
}

proof fn lemma_skip_step(toks: Seq<ScanToken>, s: PState)
    ensures
        expr_step(toks, s, skip_new_line(toks, s)),
{
    let r = skip_new_line(toks, s);
    lemma_skip_new_line(toks, s);
    lemma_newlines_all(toks, s.pos as int, r.pos as int);
    assert(r.errors.subrange(0, s.errors.len() as int) =~= s.errors);
}

proof fn lemma_peek_step(toks: Seq<ScanToken>, s: PState)
    ensures
        expr_step(toks, s, peek(toks, s).0),
{
    lemma_step_refl(toks, s);
    lemma_skip_step(toks, s);
}

proof fn lemma_push_step(toks: Seq<ScanToken>, s: PState, t: ParserToken)
    ensures
        expr_step(toks, s, push(s, t)),
{
    lemma_step_refl(toks, s);
    assert(push(s, t).output.subrange(0, s.output.len() as int) =~= s.output);
}

proof fn lemma_push_err_step(toks: Seq<ScanToken>, s: PState, e: ParserErrorType)
    ensures
        expr_step(toks, s, push_err(s, e)),
{
    lemma_step_refl(toks, s);
    assert(push_err(s, e).errors.subrange(0, s.errors.len() as int) =~= s.errors);
}

proof fn lemma_advance_step(toks: Seq<ScanToken>, s: PState)
    ensures
        expr_step(toks, s, advance(toks, s).0),
{
    lemma_step_refl(toks, s);
    lemma_skip_step(toks, s);
    lemma_skip_new_line(toks, s);
    let s1 = skip_new_line(toks, s);
    if !s.error && s1.pos < toks.len() {
        let r = advance(toks, s).0;
        lemma_newlines_one(toks, s1.pos as int);
        assert(r == PState { pos: s1.pos + 1, ..s1 });
        assert(r.output.subrange(0, s1.output.len() as int) =~= s1.output);
        assert(r.errors.subrange(0, s1.errors.len() as int) =~= s1.errors);
        assert(grows(toks, s1, r));
        lemma_grows_trans(toks, s, s1, r);
    }
}

proof fn lemma_accept_step(toks: Seq<ScanToken>, s: PState, t: ScanToken)
    ensures
        expr_step(toks, s, accept(toks, s, t).0),
{
    lemma_peek_step(toks, s);
    let s1 = peek(toks, s).0;
    lemma_advance_step(toks, s1);
    lemma_step_trans(toks, s, s1, advance(toks, s1).0);
}

proof fn lemma_expect_step(toks: Seq<ScanToken>, s: PState, t: ScanToken)
    ensures
        expr_step(toks, s, expect(toks, s, t)),
{
    let s0 = skip_new_line(toks, s);
    lemma_skip_step(toks, s);
    lemma_peek_step(toks, s0);
    lemma_peek(toks, s0);
    let (s1, p) = peek(toks, s0);
    lemma_step_trans(toks, s, s0, s1);
    match p {
        Some(x) => {
            if x == t {
                let r = PState { pos: s1.pos + 1, ..s1 };
                lemma_newlines_one(toks, s1.pos as int);
                lemma_step_refl(toks, s1);
                assert(expr_step(toks, s1, r));
                lemma_step_trans(toks, s, s1, r);
            } else {
                lemma_push_err_step(toks, s1, ParserErrorType::Expecting(t, x));
                lemma_step_trans(toks, s, s1, push_err(s1, ParserErrorType::Expecting(t, x)));
            }
        },
        None => {
            lemma_push_err_step(toks, s1, ParserErrorType::UnexpectedEoFExpecting(t));
            lemma_step_trans(toks, s, s1, push_err(s1, ParserErrorType::UnexpectedEoFExpecting(t)));
        },
    }
}

proof fn lemma_resync_loop_grows(toks: Seq<ScanToken>, s: PState, t: ScanToken)
    ensures
        grows(toks, s, resync_loop(toks, s, t)),
    decreases toks.len() - s.pos,
{
    let s0 = skip_new_line(toks, s);
    lemma_skip_step(toks, s);
    lemma_skip_new_line(toks, s);
    if s0.pos < toks.len() && s.pos <= s0.pos {
        lemma_newlines_one(toks, s0.pos as int);
        let s1 = PState { pos: s0.pos + 1, ..s0 };
        lemma_step_refl(toks, s0);
        assert(grows(toks, s0, s1));
        let s2 = PState { error: false, ..s1 };
        assert(grows(toks, s0, s2));
        if toks[s0.pos as int] == t {
            lemma_grows_trans(toks, s, s0, s2);
        } else {
            lemma_resync_loop_grows(toks, s1, t);
            lemma_grows_trans(toks, s, s0, s1);
            lemma_grows_trans(toks, s, s1, resync_loop(toks, s1, t));
        }
    }
}

proof fn lemma_expect_resync_grows(toks: Seq<ScanToken>, s: PState, t: ScanToken)
    ensures
        grows(toks, s, expect_resync(toks, s, t)),
{
    let s0 = skip_new_line(toks, s);
    lemma_skip_step(toks, s);
    lemma_peek_step(toks, s0);
    let (s1, p) = peek(toks, s0);
    lemma_grows_trans(toks, s, s0, s1);
    if p == Some(t) {
        lemma_advance_step(toks, s1);
        lemma_grows_trans(toks, s, s1, advance(toks, s1).0);
    } else {
        lemma_resync_loop_grows(toks, s1, t);
        lemma_grows_trans(toks, s, s1, resync_loop(toks, s1, t));
    }
}


proof fn lemma_prefix_ops_step(toks: Seq<ScanToken>, s: PState)
    ensures
        expr_step(toks, s, prefix_ops(toks, s).0),
    decreases rem(toks, s),
{
    let (s1, p) = peek(toks, s);
    lemma_peek(toks, s);
    lemma_peek_step(toks, s);
    if let Some(t) = p {
        if let Some(op) = prefix_op(t) {
            let s2 = advance(toks, s1).0;
            lemma_advance(toks, s1);
            lemma_advance_step(toks, s1);
            lemma_rem(toks, s, s2);
            lemma_prefix_ops_step(toks, s2);
            lemma_step_trans(toks, s, s1, s2);
            lemma_step_trans(toks, s, s2, prefix_ops(toks, s2).0);
        }
    }
}

proof fn lemma_push_rev_step(toks: Seq<ScanToken>, s: PState, ops: Seq<ParserToken>)
    ensures
        expr_step(toks, s, push_rev(s, ops)),
{
    lemma_step_refl(toks, s);
    assert(push_rev(s, ops).output.subrange(0, s.output.len() as int) =~= s.output);
}

/// A literal pushed after reading its token.
proof fn lemma_read_push_step(toks: Seq<ScanToken>, s: PState, t: ParserToken)
    ensures
        expr_step(toks, s, push(advance(toks, s).0, t)),
{
    lemma_advance_step(toks, s);
    lemma_push_step(toks, advance(toks, s).0, t);
    lemma_step_trans(toks, s, advance(toks, s).0, push(advance(toks, s).0, t));
}

pub proof fn lemma_expr_terminal_step(toks: Seq<ScanToken>, s: PState)
    ensures
        expr_step(toks, s, expr_terminal(toks, s)),
    decreases rem(toks, s), 1nat, 0nat,
{
    lemma_step_refl(toks, s);
    if !s.halted {
        let (s1, p) = peek(toks, s);
        lemma_peek(toks, s);
        lemma_peek_step(toks, s);
        match p {
            Some(ScanToken::KeywordNil) => lemma_read_push_step(toks, s1, ParserToken::Nil),
            Some(ScanToken::KeywordTrue) => lemma_read_push_step(toks, s1, ParserToken::True),
            Some(ScanToken::KeywordFalse) => lemma_read_push_step(toks, s1, ParserToken::False),
            Some(ScanToken::Int(i)) => lemma_read_push_step(toks, s1, ParserToken::Int(i)),
            Some(ScanToken::Identifier(n)) => lemma_read_push_step(toks, s1, ParserToken::Identifier(n)),
            Some(ScanToken::StringLiteral(x)) => lemma_read_push_step(toks, s1, ParserToken::Str(x)),
            Some(ScanToken::OpenParen) => {
                let s2 = advance(toks, s1).0;
                lemma_advance(toks, s1);
                lemma_advance_step(toks, s1);
                lemma_rem(toks, s, s2);
                let s3 = expr(toks, s2, 9);
                lemma_expr_step(toks, s2, 9);
                lemma_expect_step(toks, s3, ScanToken::CloseParen);
                lemma_step_trans(toks, s1, s2, s3);
                lemma_step_trans(toks, s1, s3, expect(toks, s3, ScanToken::CloseParen));
            },
            Some(e) => {
                lemma_push_step(toks, s1, ParserToken::Nil);
                lemma_push_err_step(toks, push(s1, ParserToken::Nil), ParserErrorType::ExpectedExpressionTerminal(e));
                lemma_step_trans(toks, s1, push(s1, ParserToken::Nil), expr_terminal(toks, s));
            },
            None => {
                lemma_push_step(toks, s1, ParserToken::Nil);
                lemma_push_err_step(toks, push(s1, ParserToken::Nil), ParserErrorType::UnexpectedEoF);
                lemma_step_trans(toks, s1, push(s1, ParserToken::Nil), expr_terminal(toks, s));
            },
        }
        lemma_step_trans(toks, s, s1, expr_terminal(toks, s));
    }
}

pub proof fn lemma_expr_unary_step(toks: Seq<ScanToken>, s: PState)
    ensures
        expr_step(toks, s, expr_unary(toks, s)),
    decreases rem(toks, s), 2nat, 2nat,
{
    lemma_step_refl(toks, s);
    if !s.halted {
        let (s1, ops) = prefix_ops(toks, s);
        lemma_prefix_ops(toks, s);
        lemma_prefix_ops_step(toks, s);
        lemma_rem(toks, s, s1);
        let s2 = expr_terminal(toks, s1);
        lemma_expr_terminal_step(toks, s1);
        lemma_step_trans(toks, s, s1, s2);
        let s3 = if rem(toks, s2) <= rem(toks, s) { suffix(toks, s2) } else { s2 };
        if rem(toks, s2) <= rem(toks, s) {
            lemma_suffix_step(toks, s2);
            lemma_step_trans(toks, s, s2, s3);
        }
        lemma_push_rev_step(toks, s3, ops);
        lemma_step_trans(toks, s, s3, push_rev(s3, ops));
    }
}

pub proof fn lemma_suffix_step(toks: Seq<ScanToken>, s: PState)
    ensures
        expr_step(toks, s, suffix(toks, s)),
    decreases rem(toks, s), 2nat, 1nat,
{
    lemma_step_refl(toks, s);
    if !s.halted {
        let (s1, p) = peek(toks, s);
        lemma_peek(toks, s);
        lemma_peek_step(toks, s);
        if p == Some(ScanToken::OpenParen) {
            let s2 = advance(toks, s1).0;
            let (s3, p2) = peek(toks, s2);
            lemma_advance(toks, s1);
            lemma_advance_step(toks, s1);
            lemma_peek(toks, s2);
            lemma_peek_step(toks, s2);
            lemma_rem(toks, s, s2);
            lemma_rem(toks, s2, s3);
            lemma_step_trans(toks, s, s1, s2);
            lemma_step_trans(toks, s, s2, s3);
            let (s4, count) = match p2 {
                Some(ScanToken::CloseParen) => {
                    lemma_advance(toks, s3);
                    lemma_advance_step(toks, s3);
                    lemma_step_trans(toks, s, s3, advance(toks, s3).0);
                    (advance(toks, s3).0, 0nat)
                },
                Some(_) => {
                    let s5 = expr(toks, s3, 9);
                    lemma_expr_step(toks, s3, 9);
                    lemma_step_trans(toks, s, s3, s5);
                    if rem(toks, s5) <= rem(toks, s) {
                        let (s6, c) = args(toks, s5, 1);
                        lemma_args_step(toks, s5, 1);
                        lemma_step_trans(toks, s, s5, s6);
                        let (s7, p3) = peek(toks, s6);
                        lemma_peek(toks, s6);
                        lemma_peek_step(toks, s6);
                        lemma_step_trans(toks, s, s6, s7);
                        let s8 = match p3 {
                            Some(ScanToken::CloseParen) => {
                                lemma_advance_step(toks, s7);
                                advance(toks, s7).0
                            },
                            Some(x) => {
                                lemma_push_err_step(toks, s7, ParserErrorType::ExpectedCommaOrEndOfArguments(x));
                                push_err(s7, ParserErrorType::ExpectedCommaOrEndOfArguments(x))
                            },
                            None => {
                                lemma_push_err_step(toks, s7, ParserErrorType::UnexpectedEoF);
                                push_err(s7, ParserErrorType::UnexpectedEoF)
                            },
                        };
                        lemma_step_trans(toks, s, s7, s8);
                        (s8, c)
                    } else {
                        (s5, 1nat)
                    }
                },
                None => {
                    lemma_push_err_step(toks, s3, ParserErrorType::UnexpectedEoF);
                    lemma_step_trans(toks, s, s3, push_err(s3, ParserErrorType::UnexpectedEoF));
                    (push_err(s3, ParserErrorType::UnexpectedEoF), 0nat)
                },
            };
            if !s4.halted {
                let s9 = push(s4, ParserToken::OpFuncEval(count as u8));
                lemma_push_step(toks, s4, ParserToken::OpFuncEval(count as u8));
                lemma_step_trans(toks, s, s4, s9);
                if rem(toks, s9) < rem(toks, s) {
                    lemma_suffix_step(toks, s9);
                    lemma_step_trans(toks, s, s9, suffix(toks, s9));
                }
            }
        } else if p == Some(ScanToken::OpenSquareBracket) {
            assert(expr_step(toks, s, s1));
        }
    }
}

pub proof fn lemma_args_step(toks: Seq<ScanToken>, s: PState, count: nat)
    ensures
        expr_step(toks, s, args(toks, s, count).0),
    decreases rem(toks, s), 2nat, 0nat,
{
    lemma_step_refl(toks, s);
    if !s.halted {
        let (s1, p) = peek(toks, s);
        lemma_peek(toks, s);
        lemma_peek_step(toks, s);
        if p == Some(ScanToken::Comma) {
            let s2 = advance(toks, s1).0;
            lemma_advance(toks, s1);
            lemma_advance_step(toks, s1);
            lemma_rem(toks, s, s2);
            let s3 = expr(toks, s2, 9);
            lemma_expr_step(toks, s2, 9);
            lemma_step_trans(toks, s, s1, s2);
            lemma_step_trans(toks, s, s2, s3);
            if count < 255 && rem(toks, s3) < rem(toks, s) {
                lemma_args_step(toks, s3, count + 1);
                lemma_step_trans(toks, s, s3, args(toks, s3, count + 1).0);
            }
        }
    }
}

pub proof fn lemma_expr_step(toks: Seq<ScanToken>, s: PState, level: nat)
    ensures
        expr_step(toks, s, expr(toks, s, level)),
    decreases rem(toks, s), if level < 2 { 2nat } else { level }, 3nat,
{
    lemma_step_refl(toks, s);
    if !s.halted {
        if level <= 2 {
            lemma_expr_unary_step(toks, s);
        } else {
            let s1 = expr(toks, s, (level - 1) as nat);
            lemma_expr_step(toks, s, (level - 1) as nat);
            if rem(toks, s1) <= rem(toks, s) {
                lemma_binop_loop_step(toks, s1, level);
                lemma_step_trans(toks, s, s1, binop_loop(toks, s1, level));
            }
        }
    }
}

pub proof fn lemma_binop_loop_step(toks: Seq<ScanToken>, s: PState, level: nat)
    ensures
        expr_step(toks, s, binop_loop(toks, s, level)),
    decreases rem(toks, s), level, 1nat,
{
    lemma_step_refl(toks, s);
    if !s.halted {
        let (s1, p) = peek(toks, s);
        lemma_peek(toks, s);
        lemma_peek_step(toks, s);
        let op = match p {
            Some(t) => op_at(level, t),
            None => None,
        };
        if let Some(op) = op {
            let s2 = advance(toks, s1).0;
            lemma_advance(toks, s1);
            lemma_advance_step(toks, s1);
            lemma_rem(toks, s, s2);
            let s3 = expr(toks, s2, (level - 1) as nat);
            lemma_expr_step(toks, s2, (level - 1) as nat);
            let s4 = push(s3, op);
            lemma_push_step(toks, s3, op);
            lemma_step_trans(toks, s, s1, s2);
            lemma_step_trans(toks, s, s2, s3);
            lemma_step_trans(toks, s, s3, s4);
            if rem(toks, s4) < rem(toks, s) {
                lemma_binop_loop_step(toks, s4, level);
                lemma_step_trans(toks, s, s4, binop_loop(toks, s4, level));
            }
        }
    }
}


pub proof fn lemma_let_grows(toks: Seq<ScanToken>, s: PState)
    ensures
        grows(toks, s, let_statement(toks, s)),
{
    let (s1, b) = accept(toks, s, ScanToken::Equals);
    lemma_accept_step(toks, s, ScanToken::Equals);
    if b {
        lemma_expr_step(toks, s1, 9);
        lemma_grows_trans(toks, s, s1, expr(toks, s1, 9));
    }
}

pub proof fn lemma_assignment_grows(toks: Seq<ScanToken>, s: PState)
    ensures
        grows(toks, s, assignment(toks, s)),
{
    let (s1, t) = advance(toks, s);
    lemma_advance_step(toks, s);
    let name = match t {
        Some(ScanToken::Identifier(n)) => n,
        _ => arbitrary(),
    };
    let (s2, p) = peek(toks, s1);
    lemma_peek_step(toks, s1);
    lemma_step_trans(toks, s, s1, s2);
    if p == Some(ScanToken::Equals) {
        let s3 = push(s2, ParserToken::Identifier(name));
        let s4 = advance(toks, s3).0;
        let s5 = expr(toks, s4, 9);
        lemma_push_step(toks, s2, ParserToken::Identifier(name));
        lemma_advance_step(toks, s3);
        lemma_expr_step(toks, s4, 9);
        lemma_push_step(toks, s5, ParserToken::StoreValue);
        lemma_grows_trans(toks, s, s2, s3);
        lemma_grows_trans(toks, s, s3, s4);
        lemma_grows_trans(toks, s, s4, s5);
        lemma_grows_trans(toks, s, s5, push(s5, ParserToken::StoreValue));
    } else {
        let op = match p {
            Some(x) => assign_op(x),
            None => None,
        };
        if let Some(op) = op {
            let s3a = push(s2, ParserToken::Identifier(name));
            let s3 = push(s3a, ParserToken::Dupe);
            let s4 = advance(toks, s3).0;
            let s5 = expr(toks, s4, 9);
            let s6 = push(s5, op);
            lemma_push_step(toks, s2, ParserToken::Identifier(name));
            lemma_push_step(toks, s3a, ParserToken::Dupe);
            lemma_advance_step(toks, s3);
            lemma_expr_step(toks, s4, 9);
            lemma_push_step(toks, s5, op);
            lemma_push_step(toks, s6, ParserToken::StoreValue);
            lemma_grows_trans(toks, s, s2, s3a);
            lemma_grows_trans(toks, s, s3a, s3);
            lemma_grows_trans(toks, s, s3, s4);
            lemma_grows_trans(toks, s, s4, s5);
            lemma_grows_trans(toks, s, s5, s6);
            lemma_grows_trans(toks, s, s6, push(s6, ParserToken::StoreValue));
        }
    }
}

pub proof fn lemma_block_grows(toks: Seq<ScanToken>, s: PState)
    ensures
        grows(toks, s, block_statement(toks, s)),
    decreases rem(toks, s), 1nat,
{
    lemma_step_refl(toks, s);
    if !s.halted {
        let s1 = expect(toks, s, ScanToken::OpenBrace);
        lemma_expect(toks, s, ScanToken::OpenBrace);
        lemma_expect_step(toks, s, ScanToken::OpenBrace);
        let s2 = if s1.error {
            s1
        } else if rem(toks, s1) < rem(toks, s) {
            statements(toks, s1)
        } else {
            s1
        };
        if !s1.error && rem(toks, s1) < rem(toks, s) {
            lemma_statements_grows(toks, s1);
        } else {
            lemma_step_refl(toks, s1);
        }
        lemma_grows_trans(toks, s, s1, s2);
        if !s2.halted {
            lemma_expect_resync_grows(toks, s2, ScanToken::CloseBrace);
            lemma_grows_trans(toks, s, s2, expect_resync(toks, s2, ScanToken::CloseBrace));
        }
    }
}

pub proof fn lemma_function_grows(toks: Seq<ScanToken>, s: PState)
    ensures
        grows(toks, s, function(toks, s)),
    decreases rem(toks, s), 2nat,
{
    lemma_step_refl(toks, s);
    if !s.halted {
        let (s1, _) = accept(toks, s, ScanToken::OpenParen);
        lemma_accept(toks, s, ScanToken::OpenParen);
        lemma_accept_step(toks, s, ScanToken::OpenParen);
        lemma_rem(toks, s, s1);
        lemma_block_grows(toks, s1);
        lemma_grows_trans(toks, s, s1, block_statement(toks, s1));
    }
}

pub proof fn lemma_elif_grows(toks: Seq<ScanToken>, s: PState)
    ensures
        grows(toks, s, elif_loop(toks, s)),
    decreases rem(toks, s), 1nat,
{
    lemma_step_refl(toks, s);
    if !s.halted {
        let (s1, b) = accept(toks, s, ScanToken::KeywordElif);
        lemma_accept(toks, s, ScanToken::KeywordElif);
        lemma_accept_step(toks, s, ScanToken::KeywordElif);
        lemma_rem(toks, s, s1);
        if b {
            let s2 = block_statement(toks, s1);
            lemma_block_grows(toks, s1);
            lemma_grows_trans(toks, s, s1, s2);
            if rem(toks, s2) < rem(toks, s) {
                lemma_elif_grows(toks, s2);
                lemma_grows_trans(toks, s, s2, elif_loop(toks, s2));
            }
        }
    }
}

pub proof fn lemma_if_grows(toks: Seq<ScanToken>, s: PState)
    ensures
        grows(toks, s, if_statement(toks, s)),
    decreases rem(toks, s), 2nat,
{
    lemma_step_refl(toks, s);
    if !s.halted {
        let s1 = expr(toks, s, 9);
        lemma_expr_advances(toks, s, 9);
        lemma_expr_step(toks, s, 9);
        lemma_rem(toks, s, s1);
        let s2 = block_statement(toks, s1);
        lemma_block_grows(toks, s1);
        lemma_grows_trans(toks, s, s1, s2);
        if rem(toks, s2) <= rem(toks, s) {
            let s3 = elif_loop(toks, s2);
            lemma_elif_grows(toks, s2);
            lemma_grows_trans(toks, s, s2, s3);
            if rem(toks, s3) <= rem(toks, s) {
                let (s4, b) = accept(toks, s3, ScanToken::KeywordElse);
                lemma_accept(toks, s3, ScanToken::KeywordElse);
                lemma_accept_step(toks, s3, ScanToken::KeywordElse);
                lemma_rem(toks, s3, s4);
                lemma_grows_trans(toks, s, s3, s4);
                if b {
                    lemma_block_grows(toks, s4);
                    lemma_grows_trans(toks, s, s4, block_statement(toks, s4));
                }
            }
        }
    }
}

pub proof fn lemma_for_grows(toks: Seq<ScanToken>, s: PState)
    ensures
        grows(toks, s, for_statement(toks, s)),
    decreases rem(toks, s), 2nat,
{
    lemma_step_refl(toks, s);
    if !s.halted {
        let s1 = expect(toks, s, ScanToken::KeywordIn);
        let s2 = expr(toks, s1, 9);
        lemma_expect(toks, s, ScanToken::KeywordIn);
        lemma_expect_step(toks, s, ScanToken::KeywordIn);
        lemma_expr_advances(toks, s1, 9);
        lemma_expr_step(toks, s1, 9);
        lemma_rem(toks, s, s2);
        lemma_grows_trans(toks, s, s1, s2);
        lemma_block_grows(toks, s2);
        lemma_grows_trans(toks, s, s2, block_statement(toks, s2));
    }
}

pub proof fn lemma_statements_grows(toks: Seq<ScanToken>, s: PState)
    ensures
        grows(toks, s, statements(toks, s)),
    decreases rem(toks, s), 4nat,
{
    lemma_step_refl(toks, s);
    if !s.halted {
        let (s1, p) = peek(toks, s);
        lemma_peek(toks, s);
        lemma_peek_step(toks, s);
        lemma_rem(toks, s, s1);
        if let Some(t) = p {
            if statement_start(t) {
                let s2 = match t {
                    ScanToken::KeywordFn => function(toks, s1),
                    ScanToken::KeywordLet => let_statement(toks, s1),
                    ScanToken::KeywordIf => if_statement(toks, s1),
                    ScanToken::KeywordLoop => block_statement(toks, s1),
                    ScanToken::KeywordFor => for_statement(toks, s1),
                    ScanToken::Identifier(_) => assignment(toks, s1),
                    _ => block_statement(toks, s1),
                };
                match t {
                    ScanToken::KeywordFn => lemma_function_grows(toks, s1),
                    ScanToken::KeywordLet => lemma_let_grows(toks, s1),
                    ScanToken::KeywordIf => lemma_if_grows(toks, s1),
                    ScanToken::KeywordLoop => lemma_block_grows(toks, s1),
                    ScanToken::KeywordFor => lemma_for_grows(toks, s1),
                    ScanToken::Identifier(_) => lemma_assignment_grows(toks, s1),
                    _ => lemma_block_grows(toks, s1),
                }
                lemma_grows_trans(toks, s, s1, s2);
                if rem(toks, s2) < rem(toks, s1) {
                    lemma_statements_grows(toks, s2);
                    lemma_grows_trans(toks, s, s2, statements(toks, s2));
                } else if !(s2.error || s2.halted) {
                    assert(grows(toks, s2, halt(s2))) by {
                        lemma_step_refl(toks, s2);
                    }
                    lemma_grows_trans(toks, s, s2, halt(s2));
                }
            }
        }
    }
}


/// Parsing an expression reads forward and never past the end of the input, counts one line
/// for each new line it reads, only appends to the output and to the errors, records at most
/// one error and none while already recovering from an error, and is recovering from an error
/// when it ends if it recorded one.
pub proof fn law_expression_step(toks: Seq<ScanToken>, s: PState)
    ensures
        expr_step(toks, s, expr(toks, s, 9)),
{
    lemma_expr_step(toks, s, 9);
}

/// Parsing statements reads forward and never past the end of the input, counts one line for
/// each new line it reads, and only appends to the output and to the errors, recording each
/// error with its line, in order.
pub proof fn law_statements_grow(toks: Seq<ScanToken>, s: PState)
    ensures
        grows(toks, s, statements(toks, s)),
{
    lemma_statements_grows(toks, s);
}

/// After parsing the whole input, the line number is the number of new lines read.
pub proof fn law_parse_counts_lines(toks: Seq<ScanToken>)
    ensures
        parse_all(toks).pos <= toks.len(),
        parse_all(toks).lineno == newlines(toks, 0, parse_all(toks).pos as int),
{
    lemma_statements_grows(toks, initial());
}


proof fn lemma_newlines_bound(toks: Seq<ScanToken>, a: int, b: int)
    requires
        a <= b,
    ensures
        newlines(toks, a, b) <= b - a,
    decreases b - a,
{
    if a < b {
        lemma_newlines_bound(toks, a, b - 1);
    }
}

/// The errors of a whole parse come in the order of their lines, each on a line no later than
/// the last one read.
pub proof fn law_errors_in_line_order(toks: Seq<ScanToken>)
    requires
        toks.len() <= usize::MAX,
    ensures
        forall|i: int, j: int|
            0 <= i < j < parse_all(toks).errors.len() ==> #[trigger] parse_all(toks).errors[i].lineno
                <= #[trigger] parse_all(toks).errors[j].lineno,
        forall|k: int|
            0 <= k < parse_all(toks).errors.len() ==> #[trigger] parse_all(toks).errors[k].lineno
                <= parse_all(toks).lineno,
{
    lemma_statements_grows(toks, initial());
    lemma_newlines_bound(toks, 0, parse_all(toks).pos as int);
}

/// The operator token that a compound assignment token is written with: `-=` is `-`
/// followed by `=`, and so on.
pub open spec fn compound_base(t: ScanToken) -> Option<ScanToken> {
    match t {
        ScanToken::PlusEquals => Some(ScanToken::Plus),
        ScanToken::MinusEquals => Some(ScanToken::Minus),
        ScanToken::MulEquals => Some(ScanToken::Mul),
        ScanToken::DivEquals => Some(ScanToken::Div),
        ScanToken::AndEquals => Some(ScanToken::BitwiseAnd),
        ScanToken::OrEquals => Some(ScanToken::BitwiseOr),
        ScanToken::XorEquals => Some(ScanToken::BitwiseXor),
        ScanToken::LeftShiftEquals => Some(ScanToken::LeftShift),
        ScanToken::RightShiftEquals => Some(ScanToken::RightShift),
        ScanToken::ModEquals => Some(ScanToken::Mod),
        ScanToken::PowEquals => Some(ScanToken::Pow),
        _ => None,
    }
}

/// The operator that token `b` stands for between two operands, at whichever precedence
/// level reads it.
pub open spec fn binary_of(b: ScanToken) -> Option<ParserToken> {
    if op_at(3, b) is Some {
        op_at(3, b)
    } else if op_at(4, b) is Some {
        op_at(4, b)
    } else if op_at(5, b) is Some {
        op_at(5, b)
    } else if op_at(6, b) is Some {
        op_at(6, b)
    } else if op_at(7, b) is Some {
        op_at(7, b)
    } else if op_at(8, b) is Some {
        op_at(8, b)
    } else {
        op_at(9, b)
    }
}

/// A compound assignment applies the operator its symbol names: `a op= e` applies what `op`
/// stands for between two operands (`**=` applies the power operator, which no binary
/// expression reads yet). No other token is a compound assignment.
pub proof fn law_compound_assignment_op(t: ScanToken)
    ensures
        compound_base(t) is None ==> assign_op(t) is None,
        compound_base(t) matches Some(b) ==> (b != ScanToken::Pow ==> (binary_of(b) is Some && assign_op(t) == binary_of(b))),
        t == ScanToken::PowEquals ==> assign_op(t) == Some(ParserToken::OpPow),
{
}

/// `name op= e` loads `name`, duplicates it, reads `e`, applies the operator `op` stands for
/// and stores the result: it emits `name`, `Dupe`, the expression, the operator and
/// `StoreValue`, in that order.
pub proof fn law_compound_assignment(toks: Seq<ScanToken>, s: PState, name: String, t: ScanToken, b: ScanToken)
    requires
        !s.error,
        s.pos + 1 < toks.len(),
        toks[s.pos as int] == ScanToken::Identifier(name),
        toks[s.pos + 1int] == t,
        compound_base(t) == Some(b),
        b != ScanToken::Pow,
    ensures
        ({
            let s2 = PState {
                pos: s.pos + 2,
                output: s.output.push(ParserToken::Identifier(name)).push(ParserToken::Dupe),
                ..s
            };
            let e = expr(toks, s2, 9);
            &&& binary_of(b) is Some
            &&& assignment(toks, s) == push(push(e, binary_of(b).unwrap()), ParserToken::StoreValue)
        }),
{
    assert(skip_new_line(toks, s) == s);
    let s1 = PState { pos: s.pos + 1, ..s };
    assert(advance(toks, s) == (s1, Some(ScanToken::Identifier(name))));
    assert(skip_new_line(toks, s1) == s1);
    let s3 = push(push(s1, ParserToken::Identifier(name)), ParserToken::Dupe);
    assert(skip_new_line(toks, s3) == s3);
}

} // verus!
