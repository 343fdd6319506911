//! Precedence: an expression tree written with only the parentheses that precedence and left
//! associativity call for is parsed back to its postfix order.
use vstd::prelude::*;

use crate::compiler::parser::grammar::{
    advance, args, binop_loop, expect, expr, expr_terminal, expr_unary, initial,
    lemma_expr_terminal_advances, op_at, peek, prefix_op, prefix_ops, push, push_rev, rem,
    skip_new_line, suffix, PState,
};
use crate::compiler::parser::roundtrip::{
    after, atom_of, lemma_climb, lemma_op_level, lemma_peek_plain, lemma_read_at, lemma_read_part,
    op_level, plain, postfix, postfix_from, reads, valid, valid_from, ExprTree,
};
use crate::compiler::parser::ParserToken;
use crate::compiler::scanner::ScanToken;

verus! {

/// How loosely the tree's top operator binds: its level for a binary operator, 2 otherwise.
pub open spec fn level(t: ExprTree) -> nat {
    match t {
        ExprTree::Infix(op, _, _) => op_level(op),
        _ => 2,
    }
}

pub open spec fn paren(w: Seq<ScanToken>) -> Seq<ScanToken> {
    seq![ScanToken::OpenParen] + w + seq![ScanToken::CloseParen]
}

/// `t` written where an operand of level `m` stands: in parentheses when it binds more
/// loosely than that.
pub open spec fn written(t: ExprTree, m: nat) -> Seq<ScanToken>
    decreases t, 1nat,
{
    if level(t) > m { paren(minimal(t)) } else { minimal(t) }
}

/// `t` written with the fewest parentheses: a binary operator's left operand in
/// parentheses only when it binds more loosely, its right operand also when it binds as
/// loosely; a prefix operator's operand and a callee only when they are binary (or, for a
/// callee, prefixed).
pub open spec fn minimal(t: ExprTree) -> Seq<ScanToken>
    decreases t, 0nat,
{
    match t {
        ExprTree::Atom(a) => seq![a],
        ExprTree::Prefix(op, x) => seq![op] + written(*x, 2),
        ExprTree::Infix(op, l, r) => written(*l, op_level(op)) + seq![op] + written(
            *r,
            (op_level(op) - 1) as nat,
        ),
        ExprTree::Call(f, xs) => (if *f is Atom || *f is Call {
            minimal(*f)
        } else {
            paren(minimal(*f))
        }) + seq![ScanToken::OpenParen] + (if xs.len() == 0 {
            seq![]
        } else {
            minimal(xs[0]) + minimal_tail(xs, 1)
        }) + seq![ScanToken::CloseParen],
    }
}

/// Arguments `i` and after, each after a comma.
pub open spec fn minimal_tail(xs: Seq<ExprTree>, i: int) -> Seq<ScanToken>
    decreases xs, xs.len() - i,
{
    if i < 0 || i >= xs.len() {
        seq![]
    } else {
        seq![ScanToken::Comma] + minimal(xs[i]) + minimal_tail(xs, i + 1)
    }
}

/// A token after which a unary expression ends: not `(`, `[` or a new line.
pub open spec fn stops_unary(toks: Seq<ScanToken>, p: int) -> bool {
    p >= toks.len() || (toks[p] != ScanToken::OpenParen && toks[p] != ScanToken::OpenSquareBracket
        && toks[p] != ScanToken::NewLine)
}

/// A token after which an expression of level `m` ends: it also is no operator of level
/// `m` or below.
pub open spec fn stops(toks: Seq<ScanToken>, p: int, m: nat) -> bool {
    stops_unary(toks, p) && (p >= toks.len() || op_level(toks[p]) == 0 || op_level(toks[p]) > m)
}


/// The prefix operators at the top of `t`, outermost first.
pub open spec fn pre_ops(t: ExprTree) -> Seq<ParserToken>
    decreases t,
{
    match t {
        ExprTree::Prefix(op, x) => seq![prefix_op(op)->Some_0] + pre_ops(*x),
        _ => seq![],
    }
}

/// What the prefix operators at the top of `t` apply to.
pub open spec fn pre_core(t: ExprTree) -> ExprTree
    decreases t,
{
    match t {
        ExprTree::Prefix(_, x) => pre_core(*x),
        _ => t,
    }
}

proof fn lemma_first(t: ExprTree)
    requires
        valid(t),
    ensures
        minimal(t).len() >= 1,
        minimal(t)[0] != ScanToken::NewLine,
        minimal(t)[0] != ScanToken::CloseParen,
        (t is Atom || t is Call) ==> prefix_op(minimal(t)[0]) is None,
        forall|m: nat| (#[trigger] written(t, m)).len() >= 1 && written(t, m)[0] != ScanToken::NewLine
            && written(t, m)[0] != ScanToken::CloseParen,
        !(t is Prefix) ==> prefix_op(written(t, 2)[0]) is None,
    decreases t,
{
    match t {
        ExprTree::Call(f, xs) => {
            let c = if *f is Atom || *f is Call { minimal(*f) } else { paren(minimal(*f)) };
            if *f is Atom || *f is Call {
                lemma_first(*f);
            }
            let rest = seq![ScanToken::OpenParen] + (if xs.len() == 0 {
                seq![]
            } else {
                minimal(xs[0]) + minimal_tail(xs, 1)
            }) + seq![ScanToken::CloseParen];
            assert(minimal(t) =~= c + rest);
            assert(minimal(t)[0] == c[0]);
        },
        ExprTree::Infix(op, l, r) => {
            lemma_first(*l);
            let wl = written(*l, op_level(op));
            assert(minimal(t)[0] == wl[0]);
        },
        _ => {},
    }
    assert forall|m: nat| (#[trigger] written(t, m)).len() >= 1 && written(t, m)[0] != ScanToken::NewLine
        && written(t, m)[0] != ScanToken::CloseParen by {}
}

proof fn lemma_pre(t: ExprTree)
    requires
        valid(t),
    ensures
        valid(pre_core(t)),
        !(pre_core(t) is Prefix),
        written(t, 2) == pre_tokens(t) + written(pre_core(t), 2),
        pre_tokens(t).len() == pre_ops(t).len(),
        postfix(t) == postfix(pre_core(t)) + pre_ops(t).reverse(),
    decreases t,
{
    if let ExprTree::Prefix(op, x) = t {
        lemma_pre(*x);
        assert(written(t, 2) =~= pre_tokens(t) + written(pre_core(t), 2));
        assert(postfix(t) =~= postfix(pre_core(t)) + pre_ops(t).reverse());
    } else {
        assert(written(t, 2) =~= pre_tokens(t) + written(pre_core(t), 2));
        assert(postfix(t) =~= postfix(pre_core(t)) + pre_ops(t).reverse());
    }
}

/// The prefix operator tokens at the top of `t`.
pub open spec fn pre_tokens(t: ExprTree) -> Seq<ScanToken>
    decreases t,
{
    match t {
        ExprTree::Prefix(op, x) => seq![op] + pre_tokens(*x),
        _ => seq![],
    }
}

/// Reading the prefix operators written at the top of `t`.
proof fn lemma_prefix_ops_read(toks: Seq<ScanToken>, s: PState, t: ExprTree)
    requires
        valid(t),
        plain(toks, s),
        reads(toks, s.pos as int, written(t, 2)),
    ensures
        prefix_ops(toks, s) == (after(s, pre_ops(t).len() as int, seq![]), pre_ops(t)),
    decreases t,
{
    lemma_first(t);
    lemma_read_at(toks, s.pos as int, written(t, 2), 0);
    lemma_peek_plain(toks, s);
    if let ExprTree::Prefix(op, x) = t {
        let w = written(t, 2);
        assert(w =~= seq![op] + written(*x, 2));
        let s1 = after(s, 1, seq![]);
        lemma_read_part(toks, s.pos as int, w, 1, w.len() as int);
        assert(w.subrange(1, w.len() as int) =~= written(*x, 2));
        lemma_prefix_ops_read(toks, s1, *x);
        assert(after(s1, pre_ops(*x).len() as int, seq![]) == after(s, pre_ops(t).len() as int, seq![])) by {
            assert(s.output + seq![] + seq![] =~= s.output + seq![]);
        }
    } else {
        assert(s == after(s, 0, seq![])) by {
            assert(s.output + seq![] =~= s.output);
        }
    }
}


/// How many nodes the tree has.
pub open spec fn size(t: ExprTree) -> nat
    decreases t, 0nat,
{
    match t {
        ExprTree::Atom(_) => 1,
        ExprTree::Prefix(_, x) => 1 + size(*x),
        ExprTree::Infix(_, l, r) => 1 + size(*l) + size(*r),
        ExprTree::Call(f, xs) => 1 + size(*f) + sizes_from(xs, 0),
    }
}

pub open spec fn sizes_from(xs: Seq<ExprTree>, i: int) -> nat
    decreases xs, xs.len() - i,
{
    if i < 0 || i >= xs.len() {
        0
    } else {
        size(xs[i]) + sizes_from(xs, i + 1)
    }
}

proof fn lemma_core_size(t: ExprTree)
    ensures
        size(pre_core(t)) <= size(t),
        t is Prefix ==> size(pre_core(t)) < size(t),
    decreases t,
{
    if let ExprTree::Prefix(_, x) = t {
        lemma_core_size(*x);
    }
}

proof fn lemma_level(t: ExprTree)
    requires
        valid(t),
    ensures
        2 <= level(t) <= 9,
        t is Infix <==> level(t) > 2,
{
    if let ExprTree::Infix(op, _, _) = t {
        lemma_op_level(op);
    }
}

/// The token at `p` is no new line (or the input ends there).
pub open spec fn not_new_line(toks: Seq<ScanToken>, p: int) -> bool {
    p >= toks.len() || toks[p] != ScanToken::NewLine
}

/// `t`, written where an operand of level `m` stands and followed by a token that ends an
/// expression of that level, is read by `expr` at level `m` to its postfix order.
pub proof fn lemma_full(toks: Seq<ScanToken>, s: PState, t: ExprTree, m: nat)
    requires
        valid(t),
        2 <= m <= 9,
        plain(toks, s),
        reads(toks, s.pos as int, written(t, m)),
        stops(toks, s.pos + written(t, m).len() as int, m),
    ensures
        expr(toks, s, m) == after(s, written(t, m).len() as int, postfix(t)),
    decreases size(t), if level(t) > m { 30nat } else { 2 * m + 1 },
{
    let n = written(t, m).len() as int;
    let e = s.pos + n;
    let r = after(s, n, postfix(t));
    if e < toks.len() {
        lemma_op_level(toks[e]);
    }
    lemma_level(t);
    if level(t) > m {
        lemma_unary_paren(toks, s, t);
        assert(expr(toks, s, 2) == expr_unary(toks, s));
        assert(written(t, 2) == written(t, m));
        lemma_climb(toks, s, 2, m, r);
    } else if m == 2 {
        lemma_unary(toks, s, t);
        assert(expr(toks, s, 2) == expr_unary(toks, s));
    } else {
        lemma_left(toks, s, t, m);
        lemma_peek_plain(toks, r);
        assert(binop_loop(toks, r, m) == r);
    }
}

/// `t` of level at most `m`, written where an operand of level `m` stands and followed by a
/// token that is no operator below level `m`: `expr` at level `m` reads it, then goes on
/// with the operators of level `m` that follow.
proof fn lemma_left(toks: Seq<ScanToken>, s: PState, t: ExprTree, m: nat)
    requires
        valid(t),
        3 <= m <= 9,
        level(t) <= m,
        plain(toks, s),
        reads(toks, s.pos as int, written(t, m)),
        stops_unary(toks, s.pos + written(t, m).len() as int),
        (s.pos + written(t, m).len() as int) < toks.len() ==> op_level(toks[s.pos + written(t, m).len() as int]) == 0
            || op_level(toks[s.pos + written(t, m).len() as int]) >= m,
    ensures
        expr(toks, s, m) == binop_loop(toks, after(s, written(t, m).len() as int, postfix(t)), m),
    decreases size(t), 2 * m,
{
    let n = written(t, m).len() as int;
    let r = after(s, n, postfix(t));
    lemma_level(t);
    if level(t) < m {
        assert(written(t, m) == written(t, (m - 1) as nat));
        lemma_full(toks, s, t, (m - 1) as nat);
        assert(rem(toks, r) <= rem(toks, s));
    } else {
        if let ExprTree::Infix(op, l, rt) = t {
            let k = op_level(op);
            lemma_op_level(op);
            let wl = written(*l, m);
            let wr = written(*rt, (m - 1) as nat);
            let nl = wl.len() as int;
            let w = written(t, m);
            assert(w =~= wl + seq![op] + wr);
            lemma_read_part(toks, s.pos as int, w, 0, nl);
            assert(w.subrange(0, nl) =~= wl);
            lemma_read_at(toks, s.pos as int, w, nl);
            assert(toks[s.pos + nl] == op);
            let r1 = after(s, nl, postfix(*l));
            lemma_level(*l);
            if level(*l) <= m {
                lemma_left(toks, s, *l, m);
            } else {
                assert(written(*l, (m - 1) as nat) == wl);
                lemma_full(toks, s, *l, (m - 1) as nat);
                assert(rem(toks, r1) <= rem(toks, s));
            }
            lemma_peek_plain(toks, r1);
            let s2 = after(r1, 1, seq![]);
            lemma_read_part(toks, s.pos as int, w, nl + 1, n);
            assert(w.subrange(nl + 1, n) =~= wr);
            lemma_full(toks, s2, *rt, (m - 1) as nat);
            let s3 = after(s2, wr.len() as int, postfix(*rt));
            let bop = op_at(m, op)->Some_0;
            let s4 = push(s3, bop);
            assert(binop_loop(toks, r1, m) == binop_loop(toks, s4, m));
            assert(s4 == r) by {
                assert(s4.output =~= s.output + postfix(t));
            }
        }
    }
}

/// A tree other than a binary operator, written as a unary expression, followed by no `(`,
/// `[` or new line.
proof fn lemma_unary(toks: Seq<ScanToken>, s: PState, t: ExprTree)
    requires
        valid(t),
        !(t is Infix),
        plain(toks, s),
        reads(toks, s.pos as int, written(t, 2)),
        stops_unary(toks, s.pos + written(t, 2).len() as int),
    ensures
        expr_unary(toks, s) == after(s, written(t, 2).len() as int, postfix(t)),
    decreases size(t), 4nat,
{
    let w = written(t, 2);
    let n = w.len() as int;
    lemma_pre(t);
    lemma_core_size(t);
    lemma_prefix_ops_read(toks, s, t);
    let ops = pre_ops(t);
    let core = pre_core(t);
    let k = ops.len() as int;
    let s1 = after(s, k, seq![]);
    let wc = written(core, 2);
    lemma_read_part(toks, s.pos as int, w, k, n);
    assert(w.subrange(k, n) =~= wc);
    let rc = after(s1, wc.len() as int, postfix(core));
    lemma_expr_terminal_advances(toks, s1);
    assert(rem(toks, expr_terminal(toks, s1)) <= rem(toks, s));
    if core is Infix {
        lemma_level(core);
        assert(wc == paren(minimal(core)));
        lemma_paren_term(toks, s1, core);
    } else {
        lemma_first(core);
        lemma_read_at(toks, s1.pos as int, wc, 0);
        lemma_call_chain(toks, s1, core);
    }
    lemma_peek_plain(toks, rc);
    assert(suffix(toks, rc) == rc);
    let r = after(s, n, postfix(t));
    assert(push_rev(rc, ops) == r) by {
        assert(rc.output + ops.reverse() =~= s.output + postfix(t));
    }
}

/// A binary operator's tree in parentheses, followed by no `(`, `[` or new line.
proof fn lemma_unary_paren(toks: Seq<ScanToken>, s: PState, t: ExprTree)
    requires
        valid(t),
        t is Infix,
        plain(toks, s),
        reads(toks, s.pos as int, written(t, 2)),
        stops_unary(toks, s.pos + written(t, 2).len() as int),
    ensures
        expr_unary(toks, s) == after(s, written(t, 2).len() as int, postfix(t)),
    decreases size(t), 26nat,
{
    lemma_level(t);
    let w = written(t, 2);
    assert(w == paren(minimal(t)));
    lemma_read_at(toks, s.pos as int, w, 0);
    lemma_peek_plain(toks, s);
    assert(prefix_ops(toks, s) == (s, Seq::<ParserToken>::empty()));
    lemma_paren_term(toks, s, t);
    let r = after(s, w.len() as int, postfix(t));
    lemma_peek_plain(toks, r);
    assert(suffix(toks, r) == r);
    assert(push_rev(r, seq![]) == r) by {
        assert(r.output + Seq::<ParserToken>::empty().reverse() =~= r.output);
    }
}

/// `( t )` read as an expression terminal.
proof fn lemma_paren_term(toks: Seq<ScanToken>, s: PState, t: ExprTree)
    requires
        valid(t),
        plain(toks, s),
        reads(toks, s.pos as int, paren(minimal(t))),
    ensures
        expr_terminal(toks, s) == after(s, minimal(t).len() + 2int, postfix(t)),
    decreases size(t), 25nat,
{
    let w = paren(minimal(t));
    let n = minimal(t).len() as int;
    lemma_level(t);
    assert(written(t, 9) == minimal(t));
    lemma_read_at(toks, s.pos as int, w, 0);
    lemma_read_at(toks, s.pos as int, w, n + 1);
    lemma_read_part(toks, s.pos as int, w, 1, n + 1);
    assert(w.subrange(1, n + 1) =~= minimal(t));
    lemma_peek_plain(toks, s);
    let s2 = after(s, 1, seq![]);
    lemma_op_level(ScanToken::CloseParen);
    lemma_full(toks, s2, t, 9);
    let s3 = expr(toks, s2, 9);
    assert(s3 == after(s, n + 1, postfix(t))) by {
        assert(s.output + seq![] + postfix(t) =~= s.output + postfix(t));
    }
    lemma_peek_plain(toks, s3);
    assert(expect(toks, s3, ScanToken::CloseParen) == after(s, n + 2, postfix(t)));
}

proof fn lemma_size_pos(t: ExprTree)
    ensures
        size(t) >= 1,
{
}

/// An atom, or a call whose callee is an atom, a call, or in parentheses: the terminal and
/// the calls after it read it, and the calls after that go on from its end.
proof fn lemma_call_chain(toks: Seq<ScanToken>, s: PState, t: ExprTree)
    requires
        valid(t),
        t is Atom || t is Call,
        plain(toks, s),
        reads(toks, s.pos as int, minimal(t)),
        not_new_line(toks, s.pos + minimal(t).len() as int),
    ensures
        suffix(toks, expr_terminal(toks, s)) == suffix(toks, after(s, minimal(t).len() as int, postfix(t))),
    decreases size(t), 3nat,
{
    let w = minimal(t);
    let n = w.len() as int;
    let r = after(s, n, postfix(t));
    lemma_first(t);
    lemma_read_at(toks, s.pos as int, w, 0);
    lemma_peek_plain(toks, s);
    match t {
        ExprTree::Atom(a) => {
            assert(expr_terminal(toks, s) == r) by {
                assert(s.output + seq![] + seq![atom_of(a)->Some_0] =~= s.output + postfix(t));
            }
        },
        ExprTree::Call(f, xs) => {
            let c = if *f is Atom || *f is Call { minimal(*f) } else { paren(minimal(*f)) };
            let nc = c.len() as int;
            let body = if xs.len() == 0 { seq![] } else { minimal(xs[0]) + minimal_tail(xs, 1) };
            assert(w =~= c + seq![ScanToken::OpenParen] + body + seq![ScanToken::CloseParen]);
            lemma_read_part(toks, s.pos as int, w, 0, nc);
            assert(w.subrange(0, nc) =~= c);
            lemma_read_at(toks, s.pos as int, w, nc);
            if *f is Atom || *f is Call {
                lemma_call_chain(toks, s, *f);
            } else {
                lemma_paren_term(toks, s, *f);
            }
            lemma_call_group(toks, s, t);
        },
        _ => {},
    }
}

/// After the callee of a call: its arguments in parentheses, read as one call.
proof fn lemma_call_group(toks: Seq<ScanToken>, s: PState, t: ExprTree)
    requires
        valid(t),
        t is Call,
        plain(toks, s),
        reads(toks, s.pos as int, minimal(t)),
        not_new_line(toks, s.pos + minimal(t).len() as int),
    ensures
        ({
            let f = *(t->Call_0);
            let nc = (if f is Atom || f is Call { minimal(f) } else { paren(minimal(f)) }).len() as int;
            suffix(toks, after(s, nc, postfix(f))) == suffix(toks, after(s, minimal(t).len() as int, postfix(t)))
        }),
    decreases size(t), 2nat,
{
    let f = *(t->Call_0);
    let xs = t->Call_1;
    let w = minimal(t);
    let n = w.len() as int;
    let r = after(s, n, postfix(t));
    let c = if f is Atom || f is Call { minimal(f) } else { paren(minimal(f)) };
    let nc = c.len() as int;
    let body = if xs.len() == 0 { seq![] } else { minimal(xs[0]) + minimal_tail(xs, 1) };
    assert(w =~= c + seq![ScanToken::OpenParen] + body + seq![ScanToken::CloseParen]);
    assert(valid_from(xs, 0));
    lemma_read_at(toks, s.pos as int, w, nc);
    lemma_read_at(toks, s.pos as int, w, n - 1);
    let rf = after(s, nc, postfix(f));
    lemma_peek_plain(toks, rf);
    let s3 = after(rf, 1, seq![]);
    if xs.len() > 0 {
        lemma_first(xs[0]);
        lemma_read_at(toks, s.pos as int, w, nc + 1);
    } else {
        lemma_read_at(toks, s.pos as int, w, nc + 1);
    }
    lemma_peek_plain(toks, s3);
    if xs.len() == 0 {
        let s4 = after(s3, 1, seq![]);
        let s9 = push(s4, ParserToken::OpFuncEval(0));
        assert(s9 == r) by {
            assert(postfix_from(xs, 0) =~= Seq::<ParserToken>::empty());
            assert(s9.output =~= s.output + postfix(t));
        }
        assert(suffix(toks, rf) == suffix(toks, r));
    } else {
        let x0 = xs[0];
        let n0 = minimal(x0).len() as int;
        assert(valid(x0));
        lemma_level(x0);
        assert(written(x0, 9) == minimal(x0));
        assert(sizes_from(xs, 0) == size(x0) + sizes_from(xs, 1));
        lemma_read_part(toks, s.pos as int, w, nc + 1, nc + 1 + n0);
        assert(w.subrange(nc + 1, nc + 1 + n0) =~= minimal(x0));
        lemma_read_at(toks, s.pos as int, w, nc + 1 + n0);
        if xs.len() > 1 {
            assert(w[nc + 1 + n0] == ScanToken::Comma);
        } else {
            assert(minimal_tail(xs, 1) =~= Seq::<ScanToken>::empty());
        }
        lemma_op_level(toks[s.pos + nc + 1 + n0]);
        lemma_full(toks, s3, x0, 9);
        let s5 = after(s3, n0, postfix(x0));
        lemma_read_part(toks, s.pos as int, w, nc + 1 + n0, n);
        assert(w.subrange(nc + 1 + n0, n) =~= minimal_tail(xs, 1) + seq![ScanToken::CloseParen]);
        lemma_args_min(toks, s5, xs, 1);
        let s6 = after(s5, minimal_tail(xs, 1).len() as int, postfix_from(xs, 1));
        lemma_peek_plain(toks, s6);
        let s8 = after(s6, 1, seq![]);
        let s9 = push(s8, ParserToken::OpFuncEval(xs.len() as u8));
        assert(s9 == r) by {
            assert(postfix_from(xs, 0) == postfix(x0) + postfix_from(xs, 1));
            assert(s9.output =~= s.output + postfix(t));
        }
        lemma_peek_plain(toks, r);
        assert(suffix(toks, rf) == suffix(toks, r));
    }
}

/// The arguments from `i` on, each after a comma, followed by `)`.
proof fn lemma_args_min(toks: Seq<ScanToken>, s: PState, xs: Seq<ExprTree>, i: int)
    requires
        1 <= i <= xs.len() <= 255,
        valid_from(xs, i),
        plain(toks, s),
        reads(toks, s.pos as int, minimal_tail(xs, i) + seq![ScanToken::CloseParen]),
    ensures
        args(toks, s, i as nat) == (after(s, minimal_tail(xs, i).len() as int, postfix_from(xs, i)), xs.len()),
    decreases sizes_from(xs, i), 40nat,
{
    let w = minimal_tail(xs, i) + seq![ScanToken::CloseParen];
    lemma_read_at(toks, s.pos as int, w, 0);
    lemma_peek_plain(toks, s);
    if i == xs.len() {
        assert(minimal_tail(xs, i) =~= Seq::<ScanToken>::empty());
        assert(postfix_from(xs, i) =~= Seq::<ParserToken>::empty());
        assert(s == after(s, 0, seq![])) by {
            assert(s.output + seq![] =~= s.output);
        }
    } else {
        let x = xs[i];
        let ni = minimal(x).len() as int;
        assert(valid(x));
        lemma_size_pos(x);
        assert(sizes_from(xs, i) == size(x) + sizes_from(xs, i + 1));
        lemma_level(x);
        assert(written(x, 9) == minimal(x));
        assert(w =~= seq![ScanToken::Comma] + minimal(x) + minimal_tail(xs, i + 1) + seq![ScanToken::CloseParen]);
        let s2 = after(s, 1, seq![]);
        lemma_read_part(toks, s.pos as int, w, 1, 1 + ni);
        assert(w.subrange(1, 1 + ni) =~= minimal(x));
        lemma_read_at(toks, s.pos as int, w, 1 + ni);
        if i + 1 < xs.len() {
            assert(w[1 + ni] == ScanToken::Comma);
        } else {
            assert(minimal_tail(xs, i + 1) =~= Seq::<ScanToken>::empty());
            assert(w[1 + ni] == ScanToken::CloseParen);
        }
        lemma_op_level(toks[s.pos + 1 + ni]);
        assert(s2.output =~= s.output);
        lemma_full(toks, s2, x, 9);
        let s3 = after(s2, ni, postfix(x));
        lemma_read_part(toks, s.pos as int, w, 1 + ni, w.len() as int);
        assert(w.subrange(1 + ni, w.len() as int) =~= minimal_tail(xs, i + 1) + seq![ScanToken::CloseParen]);
        lemma_args_min(toks, s3, xs, i + 1);
        assert(after(s3, minimal_tail(xs, i + 1).len() as int, postfix_from(xs, i + 1)) == after(
            s,
            minimal_tail(xs, i).len() as int,
            postfix_from(xs, i),
        )) by {
            assert(s.output + seq![] + postfix(x) + postfix_from(xs, i + 1) =~= s.output + postfix_from(xs, i));
        }
    }
}

/// Any valid expression tree, written with only the parentheses that precedence and left
/// associativity call for and parsed back as an expression, is read to its end and gives
/// its postfix order; no error is recorded.
pub proof fn law_precedence(t: ExprTree)
    requires
        valid(t),
    ensures
        expr(minimal(t), initial(), 9) == (PState {
            pos: minimal(t).len(),
            output: postfix(t),
            errors: seq![],
            lineno: 0,
            error: false,
            halted: false,
        }),
{
    let toks = minimal(t);
    lemma_level(t);
    assert(written(t, 9) == toks);
    assert(toks.subrange(0, toks.len() as int) =~= toks);
    lemma_full(toks, initial(), t, 9);
    assert(Seq::<ParserToken>::empty() + postfix(t) =~= postfix(t));
}

} // verus!
