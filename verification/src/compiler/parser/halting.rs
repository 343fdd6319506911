//! Where the parser has no way on: only at a `let` statement, at a `[` after an expression,
//! or in a call of more than 255 arguments (which takes at least 255 commas).
use vstd::prelude::*;

use crate::compiler::parser::grammar::{
    advance, args, binop_loop, expr, expr_terminal, expr_unary, lemma_advance,
    lemma_args_advances, lemma_expr_advances, lemma_expr_terminal_advances, lemma_halting,
    lemma_peek, lemma_prefix_ops, lemma_rem, op_at, peek, prefix_ops, push, push_err, push_rev, rem, suffix,
    PState,
};
use crate::compiler::parser::grammar::{
    accept, assignment, block_statement, elif_loop, expect, expect_resync, for_statement, function,
    if_statement, initial, lemma_accept, lemma_expect, lemma_expect_resync, lemma_resync_loop,
    lemma_skip_new_line, let_statement, parse_all, resync_loop, skip_new_line, statement_start,
    statements,
};
use crate::compiler::parser::laws::{
    lemma_assignment_grows, lemma_binop_loop_step, lemma_block_grows, lemma_elif_grows,
    lemma_expr_step, lemma_for_grows, lemma_function_grows, lemma_if_grows, lemma_let_grows,
    lemma_statements_grows, lemma_suffix_step,
};
use crate::compiler::parser::{ParserErrorType, ParserToken};
use crate::compiler::scanner::ScanToken;

verus! {

/// How many commas there are in `toks` from `a` on.
pub open spec fn commas(toks: Seq<ScanToken>, a: int) -> nat
    decreases toks.len() - a,
{
    if 0 <= a < toks.len() {
        commas(toks, a + 1) + if toks[a] == ScanToken::Comma { 1nat } else { 0nat }
    } else {
        0
    }
}

/// The input holds a `let` or a `[`.
pub open spec fn has_stop(toks: Seq<ScanToken>) -> bool {
    exists|i: int| 0 <= i < toks.len() && (#[trigger] toks[i] == ScanToken::KeywordLet || toks[i] == ScanToken::OpenSquareBracket)
}

/// Where going from `s` to `r` stopped the parser for good, the input holds a `let` or a `[`,
/// or at least `k` commas from where `s` reads on.
pub open spec fn stop_reason(toks: Seq<ScanToken>, s: PState, r: PState, k: int) -> bool {
    !s.halted && r.halted ==> has_stop(toks) || commas(toks, s.pos as int) >= k
}

proof fn lemma_commas_mono(toks: Seq<ScanToken>, a: int, b: int)
    requires
        0 <= a <= b,
    ensures
        commas(toks, a) >= commas(toks, b),
    decreases b - a,
{
    if a < b {
        lemma_commas_mono(toks, a + 1, b);
    }
}

pub proof fn lemma_expr_terminal_stops(toks: Seq<ScanToken>, s: PState)
    ensures
        stop_reason(toks, s, expr_terminal(toks, s), 255),
    decreases rem(toks, s), 1nat, 0nat,
{
    lemma_halting(toks);
    if !s.halted {
        let (s1, p) = peek(toks, s);
        lemma_peek(toks, s);
        if p == Some(ScanToken::OpenParen) {
            let s2 = advance(toks, s1).0;
            lemma_advance(toks, s1);
            lemma_rem(toks, s, s2);
            lemma_expr_stops(toks, s2, 9);
            lemma_commas_mono(toks, s.pos as int, s2.pos as int);
        }
    }
}

pub proof fn lemma_expr_unary_stops(toks: Seq<ScanToken>, s: PState)
    ensures
        stop_reason(toks, s, expr_unary(toks, s), 255),
    decreases rem(toks, s), 2nat, 2nat,
{
    lemma_halting(toks);
    if !s.halted {
        let (s1, ops) = prefix_ops(toks, s);
        lemma_prefix_ops(toks, s);
        lemma_rem(toks, s, s1);
        lemma_expr_terminal_stops(toks, s1);
        lemma_expr_terminal_advances(toks, s1);
        let s2 = expr_terminal(toks, s1);
        lemma_commas_mono(toks, s.pos as int, s1.pos as int);
        lemma_commas_mono(toks, s.pos as int, s2.pos as int);
        if rem(toks, s2) <= rem(toks, s) {
            lemma_suffix_stops(toks, s2);
        }
    }
}

pub proof fn lemma_suffix_stops(toks: Seq<ScanToken>, s: PState)
    ensures
        stop_reason(toks, s, suffix(toks, s), 255),
    decreases rem(toks, s), 2nat, 1nat,
{
    lemma_halting(toks);
    if !s.halted {
        let (s1, p) = peek(toks, s);
        lemma_peek(toks, s);
        if p == Some(ScanToken::OpenParen) {
            let s2 = advance(toks, s1).0;
            let (s3, p2) = peek(toks, s2);
            lemma_advance(toks, s1);
            lemma_peek(toks, s2);
            lemma_rem(toks, s, s2);
            lemma_rem(toks, s2, s3);
            lemma_commas_mono(toks, s.pos as int, s3.pos as int);
            let (s4, count) = match p2 {
                Some(ScanToken::CloseParen) => {
                    lemma_advance(toks, s3);
                    (advance(toks, s3).0, 0nat)
                },
                Some(_) => {
                    let s5 = expr(toks, s3, 9);
                    lemma_expr_stops(toks, s3, 9);
                    lemma_expr_advances(toks, s3, 9);
                    lemma_commas_mono(toks, s.pos as int, s5.pos as int);
                    if rem(toks, s5) <= rem(toks, s) {
                        let (s6, c) = args(toks, s5, 1);
                        lemma_args_stops(toks, s5, 1);
                        lemma_args_advances(toks, s5, 1);
                        let (s7, p3) = peek(toks, s6);
                        lemma_peek(toks, s6);
                        lemma_advance(toks, s7);
                        let s8 = match p3 {
                            Some(ScanToken::CloseParen) => advance(toks, s7).0,
                            Some(x) => push_err(s7, ParserErrorType::ExpectedCommaOrEndOfArguments(x)),
                            None => push_err(s7, ParserErrorType::UnexpectedEoF),
                        };
                        (s8, c)
                    } else {
                        (s5, 1nat)
                    }
                },
                None => (push_err(s3, ParserErrorType::UnexpectedEoF), 0nat),
            };
            assert(stop_reason(toks, s, s4, 255));
            assert(s3.pos <= s4.pos);
            if !s4.halted {
                let s9 = push(s4, ParserToken::OpFuncEval(count as u8));
                lemma_commas_mono(toks, s.pos as int, s9.pos as int);
                if rem(toks, s9) < rem(toks, s) {
                    lemma_suffix_stops(toks, s9);
                }
            }
        } else if p == Some(ScanToken::OpenSquareBracket) {
            assert(toks[s1.pos as int] == ScanToken::OpenSquareBracket);
        }
    }
}

pub proof fn lemma_args_stops(toks: Seq<ScanToken>, s: PState, count: nat)
    ensures
        stop_reason(toks, s, args(toks, s, count).0, 256 - count),
    decreases rem(toks, s), 2nat, 0nat,
{
    lemma_halting(toks);
    if !s.halted {
        let (s1, p) = peek(toks, s);
        lemma_peek(toks, s);
        if p == Some(ScanToken::Comma) {
            let s2 = advance(toks, s1).0;
            lemma_advance(toks, s1);
            lemma_rem(toks, s, s2);
            let s3 = expr(toks, s2, 9);
            lemma_expr_stops(toks, s2, 9);
            lemma_expr_advances(toks, s2, 9);
            lemma_commas_mono(toks, s.pos as int, s1.pos as int);
            lemma_commas_mono(toks, s2.pos as int, s3.pos as int);
            assert(commas(toks, s1.pos as int) == commas(toks, s2.pos as int) + 1);
            if count < 255 && rem(toks, s3) < rem(toks, s) {
                lemma_args_stops(toks, s3, count + 1);
            }
        }
    }
}

pub proof fn lemma_expr_stops(toks: Seq<ScanToken>, s: PState, level: nat)
    ensures
        stop_reason(toks, s, expr(toks, s, level), 255),
    decreases rem(toks, s), if level < 2 { 2nat } else { level }, 3nat,
{
    lemma_halting(toks);
    if !s.halted {
        if level <= 2 {
            lemma_expr_unary_stops(toks, s);
        } else {
            let s1 = expr(toks, s, (level - 1) as nat);
            lemma_expr_stops(toks, s, (level - 1) as nat);
            lemma_expr_advances(toks, s, (level - 1) as nat);
            lemma_commas_mono(toks, s.pos as int, s1.pos as int);
            if rem(toks, s1) <= rem(toks, s) {
                lemma_binop_loop_stops(toks, s1, level);
            }
        }
    }
}

pub proof fn lemma_binop_loop_stops(toks: Seq<ScanToken>, s: PState, level: nat)
    ensures
        stop_reason(toks, s, binop_loop(toks, s, level), 255),
    decreases rem(toks, s), level, 1nat,
{
    lemma_halting(toks);
    if !s.halted {
        let (s1, p) = peek(toks, s);
        lemma_peek(toks, s);
        let op = match p {
            Some(t) => op_at(level, t),
            None => None,
        };
        if let Some(op) = op {
            let s2 = advance(toks, s1).0;
            lemma_advance(toks, s1);
            lemma_rem(toks, s, s2);
            let s3 = expr(toks, s2, (level - 1) as nat);
            lemma_expr_stops(toks, s2, (level - 1) as nat);
            lemma_expr_advances(toks, s2, (level - 1) as nat);
            lemma_commas_mono(toks, s.pos as int, s2.pos as int);
            lemma_commas_mono(toks, s.pos as int, s3.pos as int);
            let s4 = push(s3, op);
            if rem(toks, s4) < rem(toks, s) {
                lemma_binop_loop_stops(toks, s4, level);
            }
        }
    }
}

// ===== Statements that read nothing ===== //

/// From `a` to `b` the parser read forward, and unless it read something it kept recovering
/// from an error and kept stopped, where `a` was.
pub open spec fn holds_err(a: PState, b: PState) -> bool {
    &&& a.pos <= b.pos
    &&& a.pos < b.pos || ((a.error ==> b.error) && (a.halted ==> b.halted))
}

/// From `s` the parser read something, or it is recovering from an error, or it stopped.
pub open spec fn moved(s: PState, r: PState) -> bool {
    r.pos > s.pos || r.error || r.halted
}

proof fn lemma_moved_step(s: PState, m: PState, r: PState)
    requires
        s.pos <= m.pos,
        moved(s, m),
        holds_err(m, r),
    ensures
        moved(s, r),
        s.pos <= r.pos,
{
}

proof fn lemma_expect_holds(toks: Seq<ScanToken>, a: PState, t: ScanToken)
    ensures
        holds_err(a, expect(toks, a, t)),
{
    lemma_expect(toks, a, t);
}

proof fn lemma_accept_holds(toks: Seq<ScanToken>, a: PState, t: ScanToken)
    ensures
        holds_err(a, accept(toks, a, t).0),
{
    lemma_accept(toks, a, t);
}

proof fn lemma_resync_moves(toks: Seq<ScanToken>, s: PState, t: ScanToken)
    ensures
        resync_loop(toks, s, t).pos > s.pos || resync_loop(toks, s, t).error == s.error,
{
    let s0 = skip_new_line(toks, s);
    lemma_skip_new_line(toks, s);
    if s0.pos < toks.len() && s.pos <= s0.pos && !toks[s0.pos as int].same_token(t) {
        lemma_resync_loop(toks, PState { pos: s0.pos + 1, ..s0 }, t);
    }
}

proof fn lemma_expect_resync_holds(toks: Seq<ScanToken>, a: PState, t: ScanToken)
    ensures
        holds_err(a, expect_resync(toks, a, t)),
{
    lemma_expect_resync(toks, a, t);
    let s0 = skip_new_line(toks, a);
    lemma_skip_new_line(toks, a);
    lemma_resync_moves(toks, peek(toks, s0).0, t);
}

proof fn lemma_expr_holds(toks: Seq<ScanToken>, a: PState, level: nat)
    ensures
        holds_err(a, expr(toks, a, level)),
{
    lemma_halting(toks);
    lemma_expr_step(toks, a, level);
}

proof fn lemma_block_holds(toks: Seq<ScanToken>, a: PState)
    ensures
        holds_err(a, block_statement(toks, a)),
{
    lemma_halting(toks);
    lemma_block_grows(toks, a);
    if !a.halted && a.error {
        let e = expect(toks, a, ScanToken::OpenBrace);
        lemma_expect(toks, a, ScanToken::OpenBrace);
        lemma_expect_resync_holds(toks, e, ScanToken::CloseBrace);
    }
}

proof fn lemma_elif_holds(toks: Seq<ScanToken>, a: PState)
    ensures
        holds_err(a, elif_loop(toks, a)),
{
    lemma_halting(toks);
    lemma_elif_grows(toks, a);
}

/// Where the next token is `x` and `x` is not `t`, `expect` records an error and reads nothing.
proof fn lemma_expect_fails(toks: Seq<ScanToken>, s: PState, t: ScanToken)
    requires
        !s.error,
        s.pos < toks.len(),
        toks[s.pos as int] != ScanToken::NewLine,
        !toks[s.pos as int].same_token(t),
    ensures
        expect(toks, s, t).error,
        expect(toks, s, t).pos == s.pos,
        expect(toks, s, t).halted == s.halted,
{
    assert(skip_new_line(toks, s) == s);
}

/// At `if`, an expression records an error.
proof fn lemma_expr_fails(toks: Seq<ScanToken>, s: PState, level: nat)
    requires
        !s.error,
        !s.halted,
        s.pos < toks.len(),
        toks[s.pos as int] == ScanToken::KeywordIf,
    ensures
        expr(toks, s, level).error,
    decreases level,
{
    lemma_halting(toks);
    assert(skip_new_line(toks, s) == s);
    if level <= 2 {
        assert(prefix_ops(toks, s) == (s, Seq::<ParserToken>::empty()));
        let s2 = expr_terminal(toks, s);
        assert(s2.error);
        lemma_suffix_step(toks, s2);
        let s3 = if rem(toks, s2) <= rem(toks, s) { suffix(toks, s2) } else { s2 };
        assert(s3.error);
        assert(expr_unary(toks, s) == push_rev(s3, Seq::<ParserToken>::empty()));
        assert(expr(toks, s, level) == expr_unary(toks, s));
    } else {
        lemma_expr_fails(toks, s, (level - 1) as nat);
        let s1 = expr(toks, s, (level - 1) as nat);
        lemma_binop_loop_step(toks, s1, level);
        assert(expr(toks, s, level) == if rem(toks, s1) <= rem(toks, s) { binop_loop(toks, s1, level) } else { s1 });
    }
}

/// At a token other than `{`, a block records an error or reads something.
proof fn lemma_block_other(toks: Seq<ScanToken>, s: PState)
    requires
        !s.error,
        !s.halted,
        s.pos < toks.len(),
        toks[s.pos as int] != ScanToken::NewLine,
        toks[s.pos as int] != ScanToken::OpenBrace,
    ensures
        moved(s, block_statement(toks, s)),
        s.pos <= block_statement(toks, s).pos,
{
    let e = expect(toks, s, ScanToken::OpenBrace);
    lemma_expect_fails(toks, s, ScanToken::OpenBrace);
    lemma_expect_resync_holds(toks, e, ScanToken::CloseBrace);
}

/// The statement that starts with `x`, read from `s`.
pub open spec fn statement_at(toks: Seq<ScanToken>, s: PState, x: ScanToken) -> PState {
    match x {
        ScanToken::KeywordFn => function(toks, s),
        ScanToken::KeywordLet => let_statement(toks, s),
        ScanToken::KeywordIf => if_statement(toks, s),
        ScanToken::KeywordLoop => block_statement(toks, s),
        ScanToken::KeywordFor => for_statement(toks, s),
        ScanToken::Identifier(_) => assignment(toks, s),
        _ => block_statement(toks, s),
    }
}

/// Every statement but `let` reads something or records an error.
proof fn lemma_statement_moves(toks: Seq<ScanToken>, s: PState, x: ScanToken)
    requires
        !s.error,
        !s.halted,
        s.pos < toks.len(),
        toks[s.pos as int] == x,
        statement_start(x),
        x != ScanToken::KeywordLet,
    ensures
        moved(s, statement_at(toks, s, x)),
{
    lemma_halting(toks);
    assert(skip_new_line(toks, s) == s);
    match x {
        ScanToken::KeywordFn => {
            assert(accept(toks, s, ScanToken::OpenParen).0 == s);
            lemma_block_other(toks, s);
        },
        ScanToken::KeywordLoop => lemma_block_other(toks, s),
        ScanToken::KeywordFor => {
            let e = expect(toks, s, ScanToken::KeywordIn);
            lemma_expect_fails(toks, s, ScanToken::KeywordIn);
            let m = expr(toks, e, 9);
            lemma_expr_holds(toks, e, 9);
            lemma_moved_step(s, e, m);
            lemma_block_holds(toks, m);
            lemma_moved_step(s, m, block_statement(toks, m));
        },
        ScanToken::KeywordIf => {
            let m = expr(toks, s, 9);
            lemma_expr_fails(toks, s, 9);
            lemma_expr_advances(toks, s, 9);
            let b = block_statement(toks, m);
            lemma_block_holds(toks, m);
            lemma_moved_step(s, m, b);
            let e = elif_loop(toks, b);
            lemma_elif_holds(toks, b);
            lemma_moved_step(s, b, e);
            let (a, bb) = accept(toks, e, ScanToken::KeywordElse);
            lemma_accept_holds(toks, e, ScanToken::KeywordElse);
            lemma_moved_step(s, e, a);
            lemma_block_holds(toks, a);
            lemma_moved_step(s, a, block_statement(toks, a));
        },
        ScanToken::Identifier(_) => {
            let (a1, t) = advance(toks, s);
            lemma_advance(toks, s);
            let (a2, p) = peek(toks, a1);
            lemma_peek(toks, a1);
            let name = match t {
                Some(ScanToken::Identifier(n)) => n,
                _ => arbitrary(),
            };
            if p == Some(ScanToken::Equals) {
                let a3 = push(a2, ParserToken::Identifier(name));
                lemma_advance(toks, a3);
                lemma_expr_advances(toks, advance(toks, a3).0, 9);
            } else {
                let a3 = push(push(a2, ParserToken::Identifier(name)), ParserToken::Dupe);
                lemma_advance(toks, a3);
                lemma_expr_advances(toks, advance(toks, a3).0, 9);
            }
        },
        _ => {
            let e = expect(toks, s, ScanToken::OpenBrace);
            lemma_expect(toks, s, ScanToken::OpenBrace);
            assert(e.pos == s.pos + 1);
            lemma_statements_grows(toks, e);
            let s2 = if e.error { e } else { statements(toks, e) };
            lemma_expect_resync(toks, s2, ScanToken::CloseBrace);
        },
    }
}

// ===== Statements that stop the parser ===== //

proof fn lemma_let_stops(toks: Seq<ScanToken>, s: PState)
    ensures
        stop_reason(toks, s, let_statement(toks, s), 255),
{
    lemma_halting(toks);
    let s1 = accept(toks, s, ScanToken::Equals).0;
    lemma_accept(toks, s, ScanToken::Equals);
    lemma_expr_stops(toks, s1, 9);
    lemma_commas_mono(toks, s.pos as int, s1.pos as int);
}

proof fn lemma_assignment_stops(toks: Seq<ScanToken>, s: PState)
    ensures
        stop_reason(toks, s, assignment(toks, s), 255),
{
    lemma_halting(toks);
    let (s1, t) = advance(toks, s);
    lemma_advance(toks, s);
    let (s2, p) = peek(toks, s1);
    lemma_peek(toks, s1);
    let name = match t {
        Some(ScanToken::Identifier(n)) => n,
        _ => arbitrary(),
    };
    let s3 = push(s2, ParserToken::Identifier(name));
    let s3b = push(s3, ParserToken::Dupe);
    lemma_advance(toks, s3);
    lemma_advance(toks, s3b);
    lemma_expr_stops(toks, advance(toks, s3).0, 9);
    lemma_expr_stops(toks, advance(toks, s3b).0, 9);
    lemma_commas_mono(toks, s.pos as int, advance(toks, s3).0.pos as int);
    lemma_commas_mono(toks, s.pos as int, advance(toks, s3b).0.pos as int);
}

pub proof fn lemma_block_stops(toks: Seq<ScanToken>, s: PState)
    ensures
        stop_reason(toks, s, block_statement(toks, s), 255),
    decreases rem(toks, s), 1nat,
{
    lemma_halting(toks);
    if !s.halted {
        let s1 = expect(toks, s, ScanToken::OpenBrace);
        lemma_expect(toks, s, ScanToken::OpenBrace);
        lemma_commas_mono(toks, s.pos as int, s1.pos as int);
        if !s1.error && rem(toks, s1) < rem(toks, s) {
            lemma_statements_stops(toks, s1);
        }
    }
}

pub proof fn lemma_function_stops(toks: Seq<ScanToken>, s: PState)
    ensures
        stop_reason(toks, s, function(toks, s), 255),
    decreases rem(toks, s), 2nat,
{
    lemma_halting(toks);
    if !s.halted {
        let s1 = accept(toks, s, ScanToken::OpenParen).0;
        lemma_accept(toks, s, ScanToken::OpenParen);
        lemma_rem(toks, s, s1);
        lemma_block_stops(toks, s1);
        lemma_commas_mono(toks, s.pos as int, s1.pos as int);
    }
}

pub proof fn lemma_elif_stops(toks: Seq<ScanToken>, s: PState)
    ensures
        stop_reason(toks, s, elif_loop(toks, s), 255),
    decreases rem(toks, s), 1nat,
{
    lemma_halting(toks);
    if !s.halted {
        let (s1, b) = accept(toks, s, ScanToken::KeywordElif);
        lemma_accept(toks, s, ScanToken::KeywordElif);
        lemma_rem(toks, s, s1);
        lemma_commas_mono(toks, s.pos as int, s1.pos as int);
        if b {
            let s2 = block_statement(toks, s1);
            lemma_block_stops(toks, s1);
            lemma_block_grows(toks, s1);
            lemma_commas_mono(toks, s.pos as int, s2.pos as int);
            if rem(toks, s2) < rem(toks, s) {
                lemma_elif_stops(toks, s2);
            }
        }
    }
}

pub proof fn lemma_if_stops(toks: Seq<ScanToken>, s: PState)
    ensures
        stop_reason(toks, s, if_statement(toks, s), 255),
    decreases rem(toks, s), 2nat,
{
    lemma_halting(toks);
    if !s.halted {
        let s1 = expr(toks, s, 9);
        lemma_expr_stops(toks, s, 9);
        lemma_expr_advances(toks, s, 9);
        lemma_rem(toks, s, s1);
        lemma_commas_mono(toks, s.pos as int, s1.pos as int);
        let s2 = block_statement(toks, s1);
        lemma_block_stops(toks, s1);
        lemma_block_grows(toks, s1);
        lemma_commas_mono(toks, s.pos as int, s2.pos as int);
        if rem(toks, s2) <= rem(toks, s) {
            let s3 = elif_loop(toks, s2);
            lemma_elif_stops(toks, s2);
            lemma_elif_grows(toks, s2);
            lemma_commas_mono(toks, s.pos as int, s3.pos as int);
            if rem(toks, s3) <= rem(toks, s) {
                let (s4, b) = accept(toks, s3, ScanToken::KeywordElse);
                lemma_accept(toks, s3, ScanToken::KeywordElse);
                lemma_rem(toks, s3, s4);
                lemma_commas_mono(toks, s.pos as int, s4.pos as int);
                if b {
                    lemma_block_stops(toks, s4);
                }
            }
        }
    }
}

pub proof fn lemma_for_stops(toks: Seq<ScanToken>, s: PState)
    ensures
        stop_reason(toks, s, for_statement(toks, s), 255),
    decreases rem(toks, s), 2nat,
{
    lemma_halting(toks);
    if !s.halted {
        let s1 = expect(toks, s, ScanToken::KeywordIn);
        lemma_expect(toks, s, ScanToken::KeywordIn);
        let s2 = expr(toks, s1, 9);
        lemma_expr_stops(toks, s1, 9);
        lemma_expr_advances(toks, s1, 9);
        lemma_rem(toks, s, s2);
        lemma_commas_mono(toks, s.pos as int, s1.pos as int);
        lemma_commas_mono(toks, s.pos as int, s2.pos as int);
        lemma_block_stops(toks, s2);
    }
}

pub proof fn lemma_statements_stops(toks: Seq<ScanToken>, s: PState)
    ensures
        stop_reason(toks, s, statements(toks, s), 255),
    decreases rem(toks, s), 4nat,
{
    lemma_halting(toks);
    if !s.halted {
        let (s1, p) = peek(toks, s);
        lemma_peek(toks, s);
        lemma_rem(toks, s, s1);
        lemma_commas_mono(toks, s.pos as int, s1.pos as int);
        if let Some(x) = p {
            if statement_start(x) {
                let s2 = statement_at(toks, s1, x);
                match x {
                    ScanToken::KeywordFn => {
                        lemma_function_stops(toks, s1);
                        lemma_function_grows(toks, s1);
                    },
                    ScanToken::KeywordLet => {
                        lemma_let_stops(toks, s1);
                        lemma_let_grows(toks, s1);
                    },
                    ScanToken::KeywordIf => {
                        lemma_if_stops(toks, s1);
                        lemma_if_grows(toks, s1);
                    },
                    ScanToken::KeywordFor => {
                        lemma_for_stops(toks, s1);
                        lemma_for_grows(toks, s1);
                    },
                    ScanToken::Identifier(_) => {
                        lemma_assignment_stops(toks, s1);
                        lemma_assignment_grows(toks, s1);
                    },
                    _ => {
                        lemma_block_stops(toks, s1);
                        lemma_block_grows(toks, s1);
                    },
                }
                lemma_commas_mono(toks, s.pos as int, s2.pos as int);
                lemma_rem(toks, s1, s2);
                if rem(toks, s2) < rem(toks, s1) {
                    lemma_statements_stops(toks, s2);
                } else if !(s2.error || s2.halted) {
                    if x != ScanToken::KeywordLet {
                        lemma_statement_moves(toks, s1, x);
                    }
                    assert(toks[s1.pos as int] == ScanToken::KeywordLet);
                }
            }
        }
    }
}

/// The parser stops for good only where the input holds a `let` statement, a `[` (after an
/// expression), or at least 255 commas (a call of more than 255 arguments needs 255 of
/// them): an input with none of these is parsed to its end.
pub proof fn law_parse_stops_only_at(toks: Seq<ScanToken>)
    ensures
        parse_all(toks).halted ==> has_stop(toks) || commas(toks, 0) >= 255,
{
    lemma_statements_stops(toks, initial());
}

} // verus!
