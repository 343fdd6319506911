//! New lines in expressions: an expression reads the same with or without new lines between
//! its tokens, but for the `NewLine` tokens it passes on and the lines it counts.
use vstd::prelude::*;

use crate::compiler::parser::grammar::{
    advance, args, binop_loop, expect, expr, expr_terminal, expr_unary, lemma_advance,
    lemma_args_advances, lemma_expr_advances, lemma_expr_terminal_advances, lemma_peek,
    lemma_prefix_ops, lemma_rem, lemma_skip_new_line, op_at, peek,
    prefix_op, prefix_ops, push, push_err, push_rev, rem, skip_new_line, suffix, PState, initial,
    accept, assign_op, assignment, block_statement, elif_loop, expect_resync, for_statement,
    function, halt, if_statement, lemma_accept, lemma_expect, let_statement, parse_all,
    resync_loop, statement_start, statements,
};
use crate::compiler::parser::laws::{
    lemma_assignment_grows, lemma_block_grows, lemma_elif_grows, lemma_for_grows,
    lemma_function_grows, lemma_if_grows, lemma_let_grows,
};
use crate::compiler::parser::{ParserError, ParserErrorType, ParserToken};
use crate::compiler::scanner::ScanToken;

verus! {

/// How many tokens of `toks[0..p]` are no new line.
pub open spec fn kept(toks: Seq<ScanToken>, p: int) -> nat
    decreases p,
{
    if p <= 0 || toks.len() == 0 {
        0
    } else if p > toks.len() {
        kept(toks, toks.len() as int)
    } else {
        kept(toks, p - 1) + if toks[p - 1] == ScanToken::NewLine { 0nat } else { 1nat }
    }
}

/// The tokens without the new lines.
pub open spec fn strip(toks: Seq<ScanToken>) -> Seq<ScanToken>
    decreases toks.len(),
{
    if toks.len() == 0 {
        seq![]
    } else {
        strip(toks.drop_last()) + if toks.last() == ScanToken::NewLine {
            seq![]
        } else {
            seq![toks.last()]
        }
    }
}

/// The output without the `NewLine` tokens.
pub open spec fn strip_out(out: Seq<ParserToken>) -> Seq<ParserToken>
    decreases out.len(),
{
    if out.len() == 0 {
        seq![]
    } else {
        strip_out(out.drop_last()) + if out.last() == ParserToken::NewLine {
            seq![]
        } else {
            seq![out.last()]
        }
    }
}

/// What went wrong, without where.
pub open spec fn kinds(errs: Seq<ParserError>) -> Seq<ParserErrorType> {
    errs.map_values(|e: ParserError| e.error)
}

/// `s` reading `toks` stands where `t` reading the tokens without new lines does: the same
/// tokens were read, the same was emitted but for `NewLine` tokens, and the same errors were
/// recorded but for their lines.
pub open spec fn corr(toks: Seq<ScanToken>, s: PState, t: PState) -> bool {
    &&& s.pos <= toks.len()
    &&& t.pos == kept(toks, s.pos as int)
    &&& strip_out(s.output) == t.output
    &&& kinds(s.errors) == kinds(t.errors)
    &&& s.error == t.error
    &&& s.halted == t.halted
}

proof fn lemma_kept_step(toks: Seq<ScanToken>, p: int)
    requires
        0 <= p < toks.len(),
    ensures
        kept(toks, p + 1) == kept(toks, p) + if toks[p] == ScanToken::NewLine { 0nat } else { 1nat },
{
}

proof fn lemma_kept_bound(toks: Seq<ScanToken>, p: int)
    requires
        0 <= p <= toks.len(),
    ensures
        kept(toks, p) <= p,
    decreases p,
{
    if p > 0 {
        lemma_kept_bound(toks, p - 1);
    }
}

/// The tokens without new lines: `kept` counts them, and each token that is no new line is
/// found at its count.
proof fn lemma_strip(toks: Seq<ScanToken>)
    ensures
        strip(toks).len() == kept(toks, toks.len() as int),
        forall|p: int| 0 <= p < toks.len() && toks[p] != ScanToken::NewLine ==> #[trigger] strip(toks)[kept(toks, p) as int] == toks[p],
        forall|k: int| 0 <= k < strip(toks).len() ==> #[trigger] strip(toks)[k] != ScanToken::NewLine,
    decreases toks.len(),
{
    if toks.len() > 0 {
        let d = toks.drop_last();
        lemma_strip(d);
        assert forall|p: int| 0 <= p <= d.len() implies #[trigger] kept(d, p) == kept(toks, p) by {
            lemma_kept_prefix(toks, p);
        }
        assert forall|p: int| 0 <= p < toks.len() && toks[p] != ScanToken::NewLine implies #[trigger] strip(toks)[kept(toks, p) as int] == toks[p] by {
            if p < d.len() {
                assert(d[p] == toks[p]);
                assert(kept(d, p) == kept(toks, p));
                lemma_kept_bound(d, p);
                lemma_kept_mono(d, p + 1, d.len() as int);
                lemma_kept_step(d, p);
            } else {
                assert(kept(toks, p) == kept(d, d.len() as int));
            }
        }
    }
}

proof fn lemma_kept_prefix(toks: Seq<ScanToken>, p: int)
    requires
        toks.len() > 0,
        0 <= p <= toks.len() - 1,
    ensures
        kept(toks.drop_last(), p) == kept(toks, p),
    decreases p,
{
    if p > 0 {
        lemma_kept_prefix(toks, p - 1);
    }
}

proof fn lemma_kept_mono(toks: Seq<ScanToken>, p: int, q: int)
    requires
        0 <= p <= q <= toks.len(),
    ensures
        kept(toks, p) <= kept(toks, q),
    decreases q - p,
{
    if p < q {
        lemma_kept_mono(toks, p, q - 1);
    }
}

proof fn lemma_strip_out_push(out: Seq<ParserToken>, t: ParserToken)
    ensures
        strip_out(out.push(t)) == strip_out(out) + if t == ParserToken::NewLine { seq![] } else { seq![t] },
{
    assert(out.push(t).drop_last() =~= out);
}

proof fn lemma_strip_out_concat(out: Seq<ParserToken>, more: Seq<ParserToken>)
    ensures
        strip_out(out + more) == strip_out(out) + strip_out(more),
    decreases more.len(),
{
    if more.len() == 0 {
        assert(out + more =~= out);
        assert(strip_out(out) + seq![] =~= strip_out(out));
    } else {
        lemma_strip_out_concat(out, more.drop_last());
        assert((out + more).drop_last() =~= out + more.drop_last());
        assert(strip_out(out) + strip_out(more) =~= strip_out(out) + strip_out(more.drop_last()) + (if more.last() == ParserToken::NewLine {
            seq![]
        } else {
            seq![more.last()]
        }));
    }
}


proof fn lemma_skip_corr(toks: Seq<ScanToken>, s: PState, t: PState)
    requires
        corr(toks, s, t),
    ensures
        corr(toks, skip_new_line(toks, s), t),
    decreases toks.len() - s.pos,
{
    if s.pos < toks.len() && toks[s.pos as int] == ScanToken::NewLine {
        let s1 = PState {
            pos: s.pos + 1,
            lineno: s.lineno + 1,
            output: s.output.push(ParserToken::NewLine),
            ..s
        };
        lemma_kept_step(toks, s.pos as int);
        lemma_strip_out_push(s.output, ParserToken::NewLine);
        assert(strip_out(s.output) + seq![] =~= strip_out(s.output));
        lemma_skip_corr(toks, s1, t);
    }
}

/// In the tokens without new lines, nothing is skipped.
proof fn lemma_no_skip(u: Seq<ScanToken>, t: PState)
    requires
        forall|k: int| 0 <= k < u.len() ==> #[trigger] u[k] != ScanToken::NewLine,
    ensures
        skip_new_line(u, t) == t,
{
}

proof fn lemma_peek_corr(toks: Seq<ScanToken>, s: PState, t: PState)
    requires
        corr(toks, s, t),
    ensures
        corr(toks, peek(toks, s).0, peek(strip(toks), t).0),
        peek(toks, s).1 == peek(strip(toks), t).1,
        corr(toks, advance(toks, s).0, advance(strip(toks), t).0),
        advance(toks, s).1 == advance(strip(toks), t).1,
{
    let u = strip(toks);
    lemma_strip(toks);
    lemma_no_skip(u, t);
    if !s.error {
        let r = skip_new_line(toks, s);
        lemma_skip_corr(toks, s, t);
        lemma_skip_new_line(toks, s);
        if r.pos < toks.len() {
            lemma_kept_step(toks, r.pos as int);
            lemma_kept_mono(toks, r.pos + 1int, toks.len() as int);
            assert(u[kept(toks, r.pos as int) as int] == toks[r.pos as int]);
        } else {
            assert(r.pos == toks.len());
        }
    }
}

proof fn lemma_push_corr(toks: Seq<ScanToken>, s: PState, t: PState, x: ParserToken)
    requires
        corr(toks, s, t),
        x != ParserToken::NewLine,
    ensures
        corr(toks, push(s, x), push(t, x)),
{
    lemma_strip_out_push(s.output, x);
    assert(strip_out(s.output) + seq![x] =~= t.output.push(x));
}

proof fn lemma_push_err_corr(toks: Seq<ScanToken>, s: PState, t: PState, e: ParserErrorType)
    requires
        corr(toks, s, t),
    ensures
        corr(toks, push_err(s, e), push_err(t, e)),
{
    if !s.error {
        assert(kinds(push_err(s, e).errors) =~= kinds(s.errors).push(e));
        assert(kinds(push_err(t, e).errors) =~= kinds(t.errors).push(e));
    }
}

proof fn lemma_expect_corr(toks: Seq<ScanToken>, s: PState, t: PState, x: ScanToken)
    requires
        corr(toks, s, t),
    ensures
        corr(toks, expect(toks, s, x), expect(strip(toks), t, x)),
{
    let u = strip(toks);
    lemma_strip(toks);
    lemma_no_skip(u, t);
    lemma_skip_corr(toks, s, t);
    let s0 = skip_new_line(toks, s);
    lemma_peek_corr(toks, s0, t);
    let (s1, p) = peek(toks, s0);
    let (t1, q) = peek(u, t);
    match p {
        Some(y) => if y == x {
            lemma_peek(toks, s0);
            lemma_skip_new_line(toks, s0);
            lemma_kept_step(toks, s1.pos as int);
        } else {
            lemma_push_err_corr(toks, s1, t1, ParserErrorType::Expecting(x, y));
        },
        None => lemma_push_err_corr(toks, s1, t1, ParserErrorType::UnexpectedEoFExpecting(x)),
    }
}

proof fn lemma_corr_bound(toks: Seq<ScanToken>, s: PState, t: PState)
    requires
        corr(toks, s, t),
    ensures
        t.pos <= strip(toks).len(),
{
    lemma_strip(toks);
    lemma_kept_mono(toks, s.pos as int, toks.len() as int);
}

/// Output with no `NewLine` in it is kept whole.
proof fn lemma_strip_out_plain(x: Seq<ParserToken>)
    requires
        forall|k: int| 0 <= k < x.len() ==> #[trigger] x[k] != ParserToken::NewLine,
    ensures
        strip_out(x) == x,
    decreases x.len(),
{
    if x.len() > 0 {
        lemma_strip_out_plain(x.drop_last());
        assert(x.drop_last().push(x.last()) =~= x);
    }
}

proof fn lemma_read_push_corr(toks: Seq<ScanToken>, s: PState, t: PState, x: ParserToken)
    requires
        corr(toks, s, t),
        x != ParserToken::NewLine,
    ensures
        corr(toks, push(advance(toks, s).0, x), push(advance(strip(toks), t).0, x)),
{
    lemma_peek_corr(toks, s, t);
    lemma_push_corr(toks, advance(toks, s).0, advance(strip(toks), t).0, x);
}

proof fn lemma_prefix_ops_corr(toks: Seq<ScanToken>, s: PState, t: PState)
    requires
        corr(toks, s, t),
    ensures
        corr(toks, prefix_ops(toks, s).0, prefix_ops(strip(toks), t).0),
        prefix_ops(toks, s).1 == prefix_ops(strip(toks), t).1,
        forall|k: int| 0 <= k < prefix_ops(toks, s).1.len() ==> #[trigger] prefix_ops(toks, s).1[k] != ParserToken::NewLine,
    decreases rem(toks, s),
{
    let u = strip(toks);
    let (s1, p) = peek(toks, s);
    let (t1, q) = peek(u, t);
    lemma_peek(toks, s);
    lemma_peek_corr(toks, s, t);
    if let Some(x) = p {
        if let Some(op) = prefix_op(x) {
            let s2 = advance(toks, s1).0;
            let t2 = advance(u, t1).0;
            lemma_advance(toks, s1);
            lemma_peek_corr(toks, s1, t1);
            lemma_rem(toks, s, s2);
            lemma_prefix_ops_corr(toks, s2, t2);
            let ops = prefix_ops(toks, s2).1;
            assert forall|k: int| 0 <= k < (seq![op] + ops).len() implies #[trigger] (seq![op] + ops)[k] != ParserToken::NewLine by {
                if k > 0 {
                    assert((seq![op] + ops)[k] == ops[k - 1]);
                }
            }
        }
    }
}

proof fn lemma_push_rev_corr(toks: Seq<ScanToken>, s: PState, t: PState, ops: Seq<ParserToken>)
    requires
        corr(toks, s, t),
        forall|k: int| 0 <= k < ops.len() ==> #[trigger] ops[k] != ParserToken::NewLine,
    ensures
        corr(toks, push_rev(s, ops), push_rev(t, ops)),
{
    let r = ops.reverse();
    assert forall|k: int| 0 <= k < r.len() implies #[trigger] r[k] != ParserToken::NewLine by {
        assert(r[k] == ops[ops.len() - 1 - k]);
    }
    lemma_strip_out_plain(r);
    lemma_strip_out_concat(s.output, r);
}

pub proof fn lemma_expr_terminal_corr(toks: Seq<ScanToken>, s: PState, t: PState)
    requires
        corr(toks, s, t),
    ensures
        corr(toks, expr_terminal(toks, s), expr_terminal(strip(toks), t)),
    decreases rem(toks, s), 1nat, 0nat,
{
    let u = strip(toks);
    if !s.halted {
        let (s1, p) = peek(toks, s);
        let (t1, q) = peek(u, t);
        lemma_peek(toks, s);
        lemma_peek_corr(toks, s, t);
        match p {
            Some(ScanToken::KeywordNil) => lemma_read_push_corr(toks, s1, t1, ParserToken::Nil),
            Some(ScanToken::KeywordTrue) => lemma_read_push_corr(toks, s1, t1, ParserToken::True),
            Some(ScanToken::KeywordFalse) => lemma_read_push_corr(toks, s1, t1, ParserToken::False),
            Some(ScanToken::Int(i)) => lemma_read_push_corr(toks, s1, t1, ParserToken::Int(i)),
            Some(ScanToken::Identifier(n)) => lemma_read_push_corr(toks, s1, t1, ParserToken::Identifier(n)),
            Some(ScanToken::StringLiteral(x)) => lemma_read_push_corr(toks, s1, t1, ParserToken::Str(x)),
            Some(ScanToken::OpenParen) => {
                let s2 = advance(toks, s1).0;
                let t2 = advance(u, t1).0;
                lemma_advance(toks, s1);
                lemma_peek_corr(toks, s1, t1);
                lemma_rem(toks, s, s2);
                lemma_expr_corr(toks, s2, t2, 9);
                lemma_expect_corr(toks, expr(toks, s2, 9), expr(u, t2, 9), ScanToken::CloseParen);
            },
            Some(e) => {
                lemma_push_corr(toks, s1, t1, ParserToken::Nil);
                lemma_push_err_corr(toks, push(s1, ParserToken::Nil), push(t1, ParserToken::Nil), ParserErrorType::ExpectedExpressionTerminal(e));
            },
            None => {
                lemma_push_corr(toks, s1, t1, ParserToken::Nil);
                lemma_push_err_corr(toks, push(s1, ParserToken::Nil), push(t1, ParserToken::Nil), ParserErrorType::UnexpectedEoF);
            },
        }
    }
}

pub proof fn lemma_expr_unary_corr(toks: Seq<ScanToken>, s: PState, t: PState)
    requires
        corr(toks, s, t),
    ensures
        corr(toks, expr_unary(toks, s), expr_unary(strip(toks), t)),
    decreases rem(toks, s), 2nat, 2nat,
{
    let u = strip(toks);
    if !s.halted {
        lemma_corr_bound(toks, s, t);
        let (s1, ops) = prefix_ops(toks, s);
        let (t1, ops2) = prefix_ops(u, t);
        lemma_prefix_ops(toks, s);
        lemma_prefix_ops(u, t);
        lemma_prefix_ops_corr(toks, s, t);
        lemma_rem(toks, s, s1);
        let s2 = expr_terminal(toks, s1);
        let t2 = expr_terminal(u, t1);
        lemma_expr_terminal_corr(toks, s1, t1);
        lemma_expr_terminal_advances(toks, s1);
        lemma_expr_terminal_advances(u, t1);
        lemma_rem(toks, s, s2);
        lemma_rem(u, t, t2);
        lemma_suffix_corr(toks, s2, t2);
        lemma_push_rev_corr(toks, suffix(toks, s2), suffix(u, t2), ops);
    }
}

pub proof fn lemma_suffix_corr(toks: Seq<ScanToken>, s: PState, t: PState)
    requires
        corr(toks, s, t),
    ensures
        corr(toks, suffix(toks, s), suffix(strip(toks), t)),
    decreases rem(toks, s), 2nat, 1nat,
{
    let u = strip(toks);
    if !s.halted {
        lemma_corr_bound(toks, s, t);
        let (s1, p) = peek(toks, s);
        let (t1, q) = peek(u, t);
        lemma_peek(toks, s);
        lemma_peek(u, t);
        lemma_peek_corr(toks, s, t);
        if p == Some(ScanToken::OpenParen) {
            let s2 = advance(toks, s1).0;
            let t2 = advance(u, t1).0;
            lemma_advance(toks, s1);
            lemma_advance(u, t1);
            lemma_peek_corr(toks, s1, t1);
            let (s3, p2) = peek(toks, s2);
            let (t3, q2) = peek(u, t2);
            lemma_peek(toks, s2);
            lemma_peek(u, t2);
            lemma_peek_corr(toks, s2, t2);
            lemma_rem(toks, s, s2);
            lemma_rem(toks, s2, s3);
            let (s4, t4, count) = match p2 {
                Some(ScanToken::CloseParen) => {
                    lemma_advance(toks, s3);
                    lemma_advance(u, t3);
                    lemma_peek_corr(toks, s3, t3);
                    (advance(toks, s3).0, advance(u, t3).0, 0nat)
                },
                Some(_) => {
                    let s5 = expr(toks, s3, 9);
                    let t5 = expr(u, t3, 9);
                    lemma_expr_corr(toks, s3, t3, 9);
                    lemma_expr_advances(toks, s3, 9);
                    lemma_expr_advances(u, t3, 9);
                    lemma_rem(toks, s, s5);
                    lemma_rem(u, t, t5);
                    let (s6, c) = args(toks, s5, 1);
                    let (t6, c2) = args(u, t5, 1);
                    lemma_args_corr(toks, s5, t5, 1);
                    lemma_args_advances(toks, s5, 1);
                    lemma_args_advances(u, t5, 1);
                    let (s7, p3) = peek(toks, s6);
                    let (t7, q3) = peek(u, t6);
                    lemma_peek(toks, s6);
                    lemma_peek(u, t6);
                    lemma_peek_corr(toks, s6, t6);
                    lemma_advance(toks, s7);
                    lemma_advance(u, t7);
                    lemma_peek_corr(toks, s7, t7);
                    match p3 {
                        Some(ScanToken::CloseParen) => (advance(toks, s7).0, advance(u, t7).0, c),
                        Some(x) => {
                            lemma_push_err_corr(toks, s7, t7, ParserErrorType::ExpectedCommaOrEndOfArguments(x));
                            (
                                push_err(s7, ParserErrorType::ExpectedCommaOrEndOfArguments(x)),
                                push_err(t7, ParserErrorType::ExpectedCommaOrEndOfArguments(x)),
                                c,
                            )
                        },
                        None => {
                            lemma_push_err_corr(toks, s7, t7, ParserErrorType::UnexpectedEoF);
                            (push_err(s7, ParserErrorType::UnexpectedEoF), push_err(t7, ParserErrorType::UnexpectedEoF), c)
                        },
                    }
                },
                None => {
                    lemma_push_err_corr(toks, s3, t3, ParserErrorType::UnexpectedEoF);
                    (push_err(s3, ParserErrorType::UnexpectedEoF), push_err(t3, ParserErrorType::UnexpectedEoF), 0nat)
                },
            };
            assert(corr(toks, s4, t4));
            if !s4.halted {
                let s9 = push(s4, ParserToken::OpFuncEval(count as u8));
                let t9 = push(t4, ParserToken::OpFuncEval(count as u8));
                lemma_push_corr(toks, s4, t4, ParserToken::OpFuncEval(count as u8));
                lemma_rem(toks, s, s9);
                lemma_rem(u, t, t9);
                if rem(toks, s9) < rem(toks, s) {
                    lemma_suffix_corr(toks, s9, t9);
                }
            }
        }
    }
}

pub proof fn lemma_args_corr(toks: Seq<ScanToken>, s: PState, t: PState, count: nat)
    requires
        corr(toks, s, t),
    ensures
        corr(toks, args(toks, s, count).0, args(strip(toks), t, count).0),
        args(toks, s, count).1 == args(strip(toks), t, count).1,
    decreases rem(toks, s), 2nat, 0nat,
{
    let u = strip(toks);
    if !s.halted {
        lemma_corr_bound(toks, s, t);
        let (s1, p) = peek(toks, s);
        let (t1, q) = peek(u, t);
        lemma_peek(toks, s);
        lemma_peek(u, t);
        lemma_peek_corr(toks, s, t);
        if p == Some(ScanToken::Comma) {
            let s2 = advance(toks, s1).0;
            let t2 = advance(u, t1).0;
            lemma_advance(toks, s1);
            lemma_advance(u, t1);
            lemma_peek_corr(toks, s1, t1);
            lemma_rem(toks, s, s2);
            let s3 = expr(toks, s2, 9);
            let t3 = expr(u, t2, 9);
            lemma_expr_corr(toks, s2, t2, 9);
            lemma_expr_advances(toks, s2, 9);
            lemma_expr_advances(u, t2, 9);
            lemma_rem(toks, s, s3);
            lemma_rem(u, t, t3);
            if count < 255 && rem(toks, s3) < rem(toks, s) {
                lemma_args_corr(toks, s3, t3, count + 1);
            }
        }
    }
}

pub proof fn lemma_expr_corr(toks: Seq<ScanToken>, s: PState, t: PState, level: nat)
    requires
        corr(toks, s, t),
    ensures
        corr(toks, expr(toks, s, level), expr(strip(toks), t, level)),
    decreases rem(toks, s), if level < 2 { 2nat } else { level }, 3nat,
{
    let u = strip(toks);
    if !s.halted {
        if level <= 2 {
            lemma_expr_unary_corr(toks, s, t);
        } else {
            lemma_corr_bound(toks, s, t);
            let s1 = expr(toks, s, (level - 1) as nat);
            let t1 = expr(u, t, (level - 1) as nat);
            lemma_expr_corr(toks, s, t, (level - 1) as nat);
            lemma_expr_advances(toks, s, (level - 1) as nat);
            lemma_expr_advances(u, t, (level - 1) as nat);
            lemma_rem(toks, s, s1);
            lemma_rem(u, t, t1);
            lemma_binop_loop_corr(toks, s1, t1, level);
        }
    }
}

pub proof fn lemma_binop_loop_corr(toks: Seq<ScanToken>, s: PState, t: PState, level: nat)
    requires
        corr(toks, s, t),
    ensures
        corr(toks, binop_loop(toks, s, level), binop_loop(strip(toks), t, level)),
    decreases rem(toks, s), level, 1nat,
{
    let u = strip(toks);
    if !s.halted {
        lemma_corr_bound(toks, s, t);
        let (s1, p) = peek(toks, s);
        let (t1, q) = peek(u, t);
        lemma_peek(toks, s);
        lemma_peek(u, t);
        lemma_peek_corr(toks, s, t);
        let op = match p {
            Some(x) => op_at(level, x),
            None => None,
        };
        if let Some(op) = op {
            let s2 = advance(toks, s1).0;
            let t2 = advance(u, t1).0;
            lemma_advance(toks, s1);
            lemma_advance(u, t1);
            lemma_peek_corr(toks, s1, t1);
            lemma_rem(toks, s, s2);
            let s3 = expr(toks, s2, (level - 1) as nat);
            let t3 = expr(u, t2, (level - 1) as nat);
            lemma_expr_corr(toks, s2, t2, (level - 1) as nat);
            lemma_expr_advances(toks, s2, (level - 1) as nat);
            lemma_expr_advances(u, t2, (level - 1) as nat);
            assert(op != ParserToken::NewLine);
            lemma_push_corr(toks, s3, t3, op);
            let s4 = push(s3, op);
            let t4 = push(t3, op);
            lemma_rem(toks, s, s4);
            lemma_rem(u, t, t4);
            if rem(toks, s4) < rem(toks, s) {
                lemma_binop_loop_corr(toks, s4, t4, level);
            }
        }
    }
}

/// An expression reads the same with new lines between its tokens as without them: it
/// emits the same but for `NewLine` tokens, records the same errors but for their lines,
/// and ends recovering from an error, or stopped for good, exactly when it does without them.
pub proof fn law_newlines_in_expression(toks: Seq<ScanToken>)
    ensures
        strip_out(expr(toks, initial(), 9).output) == expr(strip(toks), initial(), 9).output,
        kinds(expr(toks, initial(), 9).errors) == kinds(expr(strip(toks), initial(), 9).errors),
        expr(toks, initial(), 9).error == expr(strip(toks), initial(), 9).error,
        expr(toks, initial(), 9).halted == expr(strip(toks), initial(), 9).halted,
{
    assert(kinds(initial().errors) =~= seq![]);
    lemma_expr_corr(toks, initial(), initial(), 9);
}

/// A token that is no new line, at `a`, counts: past it, more tokens are kept.
proof fn lemma_kept_strict(toks: Seq<ScanToken>, a: int, b: int)
    requires
        0 <= a < b <= toks.len(),
        toks[a] != ScanToken::NewLine,
    ensures
        kept(toks, a) < kept(toks, b),
{
    lemma_kept_step(toks, a);
    lemma_kept_mono(toks, a + 1, b);
}

/// Where no new line is next, the two readings stand at the same token, or both at the end.
proof fn lemma_at_corr(toks: Seq<ScanToken>, s: PState, t: PState)
    requires
        corr(toks, s, t),
        s.pos < toks.len() ==> toks[s.pos as int] != ScanToken::NewLine,
    ensures
        s.pos < toks.len() <==> t.pos < strip(toks).len(),
        s.pos < toks.len() ==> strip(toks)[t.pos as int] == toks[s.pos as int],
        s.pos < toks.len() ==> kept(toks, s.pos + 1int) == t.pos + 1,
{
    lemma_strip(toks);
    if s.pos < toks.len() {
        lemma_kept_strict(toks, s.pos as int, toks.len() as int);
        lemma_kept_step(toks, s.pos as int);
    }
}

proof fn lemma_accept_corr(toks: Seq<ScanToken>, s: PState, t: PState, x: ScanToken)
    requires
        corr(toks, s, t),
    ensures
        corr(toks, accept(toks, s, x).0, accept(strip(toks), t, x).0),
        accept(toks, s, x).1 == accept(strip(toks), t, x).1,
{
    lemma_peek_corr(toks, s, t);
    lemma_peek_corr(toks, peek(toks, s).0, peek(strip(toks), t).0);
}

proof fn lemma_resync_loop_corr(toks: Seq<ScanToken>, s: PState, t: PState, x: ScanToken)
    requires
        corr(toks, s, t),
    ensures
        corr(toks, resync_loop(toks, s, x), resync_loop(strip(toks), t, x)),
    decreases toks.len() - s.pos,
{
    let u = strip(toks);
    let s0 = skip_new_line(toks, s);
    lemma_strip(toks);
    lemma_no_skip(u, t);
    lemma_skip_corr(toks, s, t);
    lemma_skip_new_line(toks, s);
    lemma_at_corr(toks, s0, t);
    if s0.pos < toks.len() {
        if toks[s0.pos as int] != x {
            lemma_resync_loop_corr(toks, PState { pos: s0.pos + 1, ..s0 }, PState { pos: t.pos + 1, ..t }, x);
        }
    }
}

proof fn lemma_expect_resync_corr(toks: Seq<ScanToken>, s: PState, t: PState, x: ScanToken)
    requires
        corr(toks, s, t),
    ensures
        corr(toks, expect_resync(toks, s, x), expect_resync(strip(toks), t, x)),
{
    let u = strip(toks);
    lemma_strip(toks);
    lemma_no_skip(u, t);
    lemma_skip_corr(toks, s, t);
    let s0 = skip_new_line(toks, s);
    lemma_peek_corr(toks, s0, t);
    let s1 = peek(toks, s0).0;
    let t1 = peek(u, t).0;
    lemma_peek_corr(toks, s1, t1);
    lemma_resync_loop_corr(toks, s1, t1, x);
}

proof fn lemma_let_corr(toks: Seq<ScanToken>, s: PState, t: PState)
    requires
        corr(toks, s, t),
    ensures
        corr(toks, let_statement(toks, s), let_statement(strip(toks), t)),
{
    lemma_accept_corr(toks, s, t, ScanToken::Equals);
    lemma_expr_corr(toks, accept(toks, s, ScanToken::Equals).0, accept(strip(toks), t, ScanToken::Equals).0, 9);
}

proof fn lemma_assignment_corr(toks: Seq<ScanToken>, s: PState, t: PState)
    requires
        corr(toks, s, t),
    ensures
        corr(toks, assignment(toks, s), assignment(strip(toks), t)),
{
    let u = strip(toks);
    lemma_peek_corr(toks, s, t);
    let (s1, x) = advance(toks, s);
    let (t1, y) = advance(u, t);
    let name = match x {
        Some(ScanToken::Identifier(n)) => n,
        _ => arbitrary(),
    };
    lemma_peek_corr(toks, s1, t1);
    let (s2, p) = peek(toks, s1);
    let (t2, q) = peek(u, t1);
    if p == Some(ScanToken::Equals) {
        lemma_push_corr(toks, s2, t2, ParserToken::Identifier(name));
        let s3 = push(s2, ParserToken::Identifier(name));
        let t3 = push(t2, ParserToken::Identifier(name));
        lemma_peek_corr(toks, s3, t3);
        lemma_expr_corr(toks, advance(toks, s3).0, advance(u, t3).0, 9);
        lemma_push_corr(toks, expr(toks, advance(toks, s3).0, 9), expr(u, advance(u, t3).0, 9), ParserToken::StoreValue);
    } else {
        let op = match p {
            Some(z) => assign_op(z),
            None => None,
        };
        if let Some(op) = op {
            lemma_push_corr(toks, s2, t2, ParserToken::Identifier(name));
            let s3a = push(s2, ParserToken::Identifier(name));
            let t3a = push(t2, ParserToken::Identifier(name));
            lemma_push_corr(toks, s3a, t3a, ParserToken::Dupe);
            let s3 = push(s3a, ParserToken::Dupe);
            let t3 = push(t3a, ParserToken::Dupe);
            lemma_peek_corr(toks, s3, t3);
            let s5 = expr(toks, advance(toks, s3).0, 9);
            let t5 = expr(u, advance(u, t3).0, 9);
            lemma_expr_corr(toks, advance(toks, s3).0, advance(u, t3).0, 9);
            assert(op != ParserToken::NewLine);
            lemma_push_corr(toks, s5, t5, op);
            lemma_push_corr(toks, push(s5, op), push(t5, op), ParserToken::StoreValue);
        }
    }
}

pub proof fn lemma_block_corr(toks: Seq<ScanToken>, s: PState, t: PState)
    requires
        corr(toks, s, t),
    ensures
        corr(toks, block_statement(toks, s), block_statement(strip(toks), t)),
    decreases rem(toks, s), 1nat,
{
    let u = strip(toks);
    if !s.halted {
        lemma_corr_bound(toks, s, t);
        let s1 = expect(toks, s, ScanToken::OpenBrace);
        let t1 = expect(u, t, ScanToken::OpenBrace);
        lemma_expect_corr(toks, s, t, ScanToken::OpenBrace);
        lemma_expect(toks, s, ScanToken::OpenBrace);
        lemma_expect(u, t, ScanToken::OpenBrace);
        lemma_rem(toks, s, s1);
        lemma_rem(u, t, t1);
        if !s1.error {
            lemma_statements_corr(toks, s1, t1);
        }
        let s2 = if s1.error { s1 } else { statements(toks, s1) };
        let t2 = if t1.error { t1 } else { statements(u, t1) };
        if !s2.halted {
            lemma_expect_resync_corr(toks, s2, t2, ScanToken::CloseBrace);
        }
    }
}

pub proof fn lemma_function_corr(toks: Seq<ScanToken>, s: PState, t: PState)
    requires
        corr(toks, s, t),
    ensures
        corr(toks, function(toks, s), function(strip(toks), t)),
    decreases rem(toks, s), 2nat,
{
    if !s.halted {
        lemma_accept_corr(toks, s, t, ScanToken::OpenParen);
        lemma_accept(toks, s, ScanToken::OpenParen);
        let s1 = accept(toks, s, ScanToken::OpenParen).0;
        lemma_rem(toks, s, s1);
        lemma_block_corr(toks, s1, accept(strip(toks), t, ScanToken::OpenParen).0);
    }
}

pub proof fn lemma_elif_corr(toks: Seq<ScanToken>, s: PState, t: PState)
    requires
        corr(toks, s, t),
    ensures
        corr(toks, elif_loop(toks, s), elif_loop(strip(toks), t)),
    decreases rem(toks, s), 1nat,
{
    let u = strip(toks);
    if !s.halted {
        lemma_corr_bound(toks, s, t);
        lemma_accept_corr(toks, s, t, ScanToken::KeywordElif);
        lemma_accept(toks, s, ScanToken::KeywordElif);
        lemma_accept(u, t, ScanToken::KeywordElif);
        let (s1, b) = accept(toks, s, ScanToken::KeywordElif);
        let t1 = accept(u, t, ScanToken::KeywordElif).0;
        lemma_rem(toks, s, s1);
        if b {
            lemma_block_corr(toks, s1, t1);
            let s2 = block_statement(toks, s1);
            let t2 = block_statement(u, t1);
            lemma_block_grows(toks, s1);
            lemma_block_grows(u, t1);
            lemma_rem(toks, s, s2);
            lemma_rem(u, t, t2);
            lemma_elif_corr(toks, s2, t2);
        }
    }
}

pub proof fn lemma_if_corr(toks: Seq<ScanToken>, s: PState, t: PState)
    requires
        corr(toks, s, t),
    ensures
        corr(toks, if_statement(toks, s), if_statement(strip(toks), t)),
    decreases rem(toks, s), 2nat,
{
    let u = strip(toks);
    if !s.halted {
        lemma_corr_bound(toks, s, t);
        let s1 = expr(toks, s, 9);
        let t1 = expr(u, t, 9);
        lemma_expr_corr(toks, s, t, 9);
        lemma_expr_advances(toks, s, 9);
        lemma_expr_advances(u, t, 9);
        lemma_rem(toks, s, s1);
        lemma_block_corr(toks, s1, t1);
        let s2 = block_statement(toks, s1);
        let t2 = block_statement(u, t1);
        lemma_block_grows(toks, s1);
        lemma_block_grows(u, t1);
        lemma_rem(toks, s, s2);
        lemma_rem(u, t, t2);
        lemma_elif_corr(toks, s2, t2);
        let s3 = elif_loop(toks, s2);
        let t3 = elif_loop(u, t2);
        lemma_elif_grows(toks, s2);
        lemma_elif_grows(u, t2);
        lemma_rem(toks, s, s3);
        lemma_rem(u, t, t3);
        lemma_accept_corr(toks, s3, t3, ScanToken::KeywordElse);
        lemma_accept(toks, s3, ScanToken::KeywordElse);
        let (s4, b) = accept(toks, s3, ScanToken::KeywordElse);
        lemma_rem(toks, s3, s4);
        if b {
            lemma_block_corr(toks, s4, accept(u, t3, ScanToken::KeywordElse).0);
        }
    }
}

pub proof fn lemma_for_corr(toks: Seq<ScanToken>, s: PState, t: PState)
    requires
        corr(toks, s, t),
    ensures
        corr(toks, for_statement(toks, s), for_statement(strip(toks), t)),
    decreases rem(toks, s), 2nat,
{
    let u = strip(toks);
    if !s.halted {
        let s1 = expect(toks, s, ScanToken::KeywordIn);
        let t1 = expect(u, t, ScanToken::KeywordIn);
        lemma_expect_corr(toks, s, t, ScanToken::KeywordIn);
        lemma_expect(toks, s, ScanToken::KeywordIn);
        lemma_expr_corr(toks, s1, t1, 9);
        lemma_expr_advances(toks, s1, 9);
        let s2 = expr(toks, s1, 9);
        lemma_rem(toks, s, s2);
        lemma_block_corr(toks, s2, expr(u, t1, 9));
    }
}

pub proof fn lemma_statements_corr(toks: Seq<ScanToken>, s: PState, t: PState)
    requires
        corr(toks, s, t),
    ensures
        corr(toks, statements(toks, s), statements(strip(toks), t)),
    decreases rem(toks, s), 4nat,
{
    let u = strip(toks);
    if !s.halted {
        lemma_corr_bound(toks, s, t);
        let (s1, p) = peek(toks, s);
        let (t1, q) = peek(u, t);
        lemma_peek(toks, s);
        lemma_peek(u, t);
        lemma_peek_corr(toks, s, t);
        lemma_rem(toks, s, s1);
        if let Some(x) = p {
            if statement_start(x) {
                lemma_skip_new_line(toks, s);
                lemma_at_corr(toks, s1, t1);
                let s2 = match x {
                    ScanToken::KeywordFn => function(toks, s1),
                    ScanToken::KeywordLet => let_statement(toks, s1),
                    ScanToken::KeywordIf => if_statement(toks, s1),
                    ScanToken::KeywordLoop => block_statement(toks, s1),
                    ScanToken::KeywordFor => for_statement(toks, s1),
                    ScanToken::Identifier(_) => assignment(toks, s1),
                    _ => block_statement(toks, s1),
                };
                let t2 = match x {
                    ScanToken::KeywordFn => function(u, t1),
                    ScanToken::KeywordLet => let_statement(u, t1),
                    ScanToken::KeywordIf => if_statement(u, t1),
                    ScanToken::KeywordLoop => block_statement(u, t1),
                    ScanToken::KeywordFor => for_statement(u, t1),
                    ScanToken::Identifier(_) => assignment(u, t1),
                    _ => block_statement(u, t1),
                };
                match x {
                    ScanToken::KeywordFn => {
                        lemma_function_corr(toks, s1, t1);
                        lemma_function_grows(toks, s1);
                        lemma_function_grows(u, t1);
                    },
                    ScanToken::KeywordLet => {
                        lemma_let_corr(toks, s1, t1);
                        lemma_let_grows(toks, s1);
                        lemma_let_grows(u, t1);
                    },
                    ScanToken::KeywordIf => {
                        lemma_if_corr(toks, s1, t1);
                        lemma_if_grows(toks, s1);
                        lemma_if_grows(u, t1);
                    },
                    ScanToken::KeywordFor => {
                        lemma_for_corr(toks, s1, t1);
                        lemma_for_grows(toks, s1);
                        lemma_for_grows(u, t1);
                    },
                    ScanToken::Identifier(_) => {
                        lemma_assignment_corr(toks, s1, t1);
                        lemma_assignment_grows(toks, s1);
                        lemma_assignment_grows(u, t1);
                    },
                    _ => {
                        lemma_block_corr(toks, s1, t1);
                        lemma_block_grows(toks, s1);
                        lemma_block_grows(u, t1);
                    },
                }
                assert(corr(toks, s2, t2));
                if s1.pos < s2.pos {
                    lemma_kept_strict(toks, s1.pos as int, s2.pos as int);
                }
                lemma_rem(toks, s1, s2);
                lemma_rem(u, t1, t2);
                if rem(toks, s2) < rem(toks, s1) {
                    lemma_statements_corr(toks, s2, t2);
                }
            }
        }
    }
}

/// A program reads the same with new lines between its tokens as without them: it emits the
/// same but for `NewLine` tokens, records the same errors but for their lines, and stops for
/// good on the same inputs.
pub proof fn law_newlines_in_program(toks: Seq<ScanToken>)
    ensures
        strip_out(parse_all(toks).output) == parse_all(strip(toks)).output,
        kinds(parse_all(toks).errors) == kinds(parse_all(strip(toks)).errors),
        parse_all(toks).halted == parse_all(strip(toks)).halted,
{
    assert(kinds(initial().errors) =~= seq![]);
    lemma_statements_corr(toks, initial(), initial());
}

} // verus!
