//! Reading back what is written: an expression tree, written out with parentheses around
//! every operand, is parsed to its operands in order followed by its operator (postfix
//! order), with nothing left over and no error.
use vstd::prelude::*;

use crate::compiler::parser::grammar::{
    advance, args, binop_loop, expect, expr, expr_terminal, expr_unary, initial, op_at, peek,
    prefix_op, prefix_ops, push, push_rev, rem, skip_new_line, suffix, PState,
};
use crate::compiler::parser::ParserToken;
use crate::compiler::scanner::ScanToken;

verus! {

/// An expression: a literal or name, a prefix operator applied to an operand, a binary
/// operator applied to two operands, or a call with its arguments.
pub enum ExprTree {
    Atom(ScanToken),
    Prefix(ScanToken, Box<ExprTree>),
    Infix(ScanToken, Box<ExprTree>, Box<ExprTree>),
    Call(Box<ExprTree>, Seq<ExprTree>),
}

/// What a literal or name token is emitted as.
pub open spec fn atom_of(t: ScanToken) -> Option<ParserToken> {
    match t {
        ScanToken::KeywordNil => Some(ParserToken::Nil),
        ScanToken::KeywordTrue => Some(ParserToken::True),
        ScanToken::KeywordFalse => Some(ParserToken::False),
        ScanToken::Int(i) => Some(ParserToken::Int(i)),
        ScanToken::Identifier(n) => Some(ParserToken::Identifier(n)),
        ScanToken::StringLiteral(x) => Some(ParserToken::Str(x)),
        _ => None,
    }
}

/// The precedence level of a binary operator token (3 binds tightest), or 0.
pub open spec fn op_level(t: ScanToken) -> nat {
    if op_at(3, t) is Some {
        3
    } else if op_at(4, t) is Some {
        4
    } else if op_at(5, t) is Some {
        5
    } else if op_at(6, t) is Some {
        6
    } else if op_at(7, t) is Some {
        7
    } else if op_at(8, t) is Some {
        8
    } else if op_at(9, t) is Some {
        9
    } else {
        0
    }
}

/// The tree uses only literal and name tokens as atoms, prefix operator tokens as prefix
/// operators, binary operator tokens as binary operators, and calls of at most 255 arguments.
pub open spec fn valid(t: ExprTree) -> bool
    decreases t, 0nat,
{
    match t {
        ExprTree::Atom(a) => atom_of(a) is Some,
        ExprTree::Prefix(op, x) => prefix_op(op) is Some && valid(*x),
        ExprTree::Infix(op, l, r) => op_level(op) != 0 && valid(*l) && valid(*r),
        ExprTree::Call(f, xs) => valid(*f) && xs.len() <= 255 && valid_from(xs, 0),
    }
}

pub open spec fn valid_from(xs: Seq<ExprTree>, i: int) -> bool
    decreases xs, xs.len() - i,
{
    i < 0 || i >= xs.len() || (valid(xs[i]) && valid_from(xs, i + 1))
}

/// The tree written out: each operand of an operator, and each callee, in parentheses.
pub open spec fn render(t: ExprTree) -> Seq<ScanToken>
    decreases t, 0nat,
{
    match t {
        ExprTree::Atom(a) => seq![a],
        ExprTree::Prefix(op, x) => seq![op, ScanToken::OpenParen] + render(*x) + seq![ScanToken::CloseParen],
        ExprTree::Infix(op, l, r) => seq![ScanToken::OpenParen] + render(*l) + seq![
            ScanToken::CloseParen,
            op,
            ScanToken::OpenParen,
        ] + render(*r) + seq![ScanToken::CloseParen],
        ExprTree::Call(f, xs) => seq![ScanToken::OpenParen] + render(*f) + seq![
            ScanToken::CloseParen,
            ScanToken::OpenParen,
        ] + (if xs.len() == 0 { seq![] } else { render(xs[0]) + render_tail(xs, 1) }) + seq![
            ScanToken::CloseParen,
        ],
    }
}

/// Arguments `i` and after, each after a comma.
pub open spec fn render_tail(xs: Seq<ExprTree>, i: int) -> Seq<ScanToken>
    decreases xs, xs.len() - i,
{
    if i < 0 || i >= xs.len() {
        seq![]
    } else {
        seq![ScanToken::Comma] + render(xs[i]) + render_tail(xs, i + 1)
    }
}

/// The tree in postfix order: operands first, then the operator.
pub open spec fn postfix(t: ExprTree) -> Seq<ParserToken>
    decreases t, 0nat,
{
    match t {
        ExprTree::Atom(a) => seq![atom_of(a)->Some_0],
        ExprTree::Prefix(op, x) => postfix(*x) + seq![prefix_op(op)->Some_0],
        ExprTree::Infix(op, l, r) => postfix(*l) + postfix(*r) + seq![op_at(op_level(op), op)->Some_0],
        ExprTree::Call(f, xs) => postfix(*f) + postfix_from(xs, 0) + seq![ParserToken::OpFuncEval(xs.len() as u8)],
    }
}

/// Arguments `i` and after in postfix order, one after the other.
pub open spec fn postfix_from(xs: Seq<ExprTree>, i: int) -> Seq<ParserToken>
    decreases xs, xs.len() - i,
{
    if i < 0 || i >= xs.len() {
        seq![]
    } else {
        postfix(xs[i]) + postfix_from(xs, i + 1)
    }
}

/// The tokens at `p` are `w`.
pub open spec fn reads(toks: Seq<ScanToken>, p: int, w: Seq<ScanToken>) -> bool {
    0 <= p && p + w.len() <= toks.len() && toks.subrange(p, p + w.len()) == w
}

/// A token that ends an expression: not an operator, not `(`, `[` or a new line.
pub open spec fn is_closer(t: ScanToken) -> bool {
    t != ScanToken::OpenParen && t != ScanToken::OpenSquareBracket && t != ScanToken::NewLine && op_level(t) == 0
}

/// The input ends at `p`, or an expression does.
pub open spec fn ends(toks: Seq<ScanToken>, p: int) -> bool {
    p >= toks.len() || is_closer(toks[p])
}

/// `s` after reading `n` tokens and emitting `out`.
pub open spec fn after(s: PState, n: int, out: Seq<ParserToken>) -> PState {
    PState { pos: (s.pos + n) as nat, output: s.output + out, ..s }
}

/// Neither recovering from an error nor halted, and not past the input.
pub open spec fn plain(toks: Seq<ScanToken>, s: PState) -> bool {
    !s.error && !s.halted && s.pos <= toks.len()
}

pub proof fn lemma_op_level(t: ScanToken)
    ensures
        forall|l: nat| #[trigger] op_at(l, t) is Some ==> l == op_level(t),
        op_level(t) != 0 ==> op_at(op_level(t), t) is Some && 3 <= op_level(t) <= 9,
        op_level(t) == 0 ==> forall|l: nat| #[trigger] op_at(l, t) is None,
{
}

pub proof fn lemma_peek_plain(toks: Seq<ScanToken>, s: PState)
    requires
        plain(toks, s),
        s.pos < toks.len() ==> toks[s.pos as int] != ScanToken::NewLine,
    ensures
        skip_new_line(toks, s) == s,
        peek(toks, s) == (s, if s.pos < toks.len() { Some(toks[s.pos as int]) } else { None }),
        s.pos < toks.len() ==> advance(toks, s).0 == after(s, 1, seq![]),
{
    assert(s.output + seq![] =~= s.output);
}

pub proof fn lemma_read_at(toks: Seq<ScanToken>, p: int, w: Seq<ScanToken>, k: int)
    requires
        reads(toks, p, w),
        0 <= k < w.len(),
    ensures
        toks[p + k] == w[k],
{
    assert(toks.subrange(p, p + w.len())[k] == toks[p + k]);
}

pub proof fn lemma_read_part(toks: Seq<ScanToken>, p: int, w: Seq<ScanToken>, a: int, b: int)
    requires
        reads(toks, p, w),
        0 <= a <= b <= w.len(),
    ensures
        reads(toks, p + a, w.subrange(a, b)),
{
    assert(toks.subrange(p + a, p + b) =~= toks.subrange(p, p + w.len()).subrange(a, b));
}

/// Levels above `k` up to `l` add nothing when no operator of theirs follows.
pub proof fn lemma_climb(toks: Seq<ScanToken>, s: PState, k: nat, l: nat, r: PState)
    requires
        2 <= k <= l,
        !s.halted,
        expr(toks, s, k) == r,
        plain(toks, r),
        s.pos <= r.pos,
        r.pos < toks.len() ==> toks[r.pos as int] != ScanToken::NewLine,
        forall|j: nat| k < j <= l ==> (r.pos < toks.len() ==> #[trigger] op_at(j, toks[r.pos as int]) is None),
    ensures
        expr(toks, s, l) == r,
    decreases l,
{
    if l > k {
        lemma_climb(toks, s, k, (l - 1) as nat, r);
        lemma_peek_plain(toks, r);
        assert(rem(toks, r) <= rem(toks, s));
        assert(binop_loop(toks, r, l) == r);
    }
}

/// An atom, followed by a token that ends it.
pub proof fn lemma_atom(toks: Seq<ScanToken>, s: PState, a: ScanToken)
    requires
        atom_of(a) is Some,
        plain(toks, s),
        reads(toks, s.pos as int, seq![a]),
        ends(toks, s.pos + 1int),
    ensures
        expr_unary(toks, s) == after(s, 1, seq![atom_of(a)->Some_0]),
{
    lemma_read_at(toks, s.pos as int, seq![a], 0);
    lemma_peek_plain(toks, s);
    assert(prefix_ops(toks, s) == (s, Seq::<ParserToken>::empty()));
    let s1 = after(s, 1, seq![]);
    let s2 = push(s1, atom_of(a)->Some_0);
    assert(expr_terminal(toks, s) == s2);
    assert(s2 == after(s, 1, seq![atom_of(a)->Some_0])) by {
        assert(s.output + seq![] + seq![atom_of(a)->Some_0] =~= s.output + seq![atom_of(a)->Some_0]);
    }
    lemma_peek_plain(toks, s2);
    assert(suffix(toks, s2) == s2);
    assert(push_rev(s2, seq![]) == s2) by {
        assert(s2.output + Seq::<ParserToken>::empty().reverse() =~= s2.output);
    }
}

/// `( x )`, with what follows being no `(` or `[`: a parenthesized terminal.
proof fn lemma_paren_terminal(toks: Seq<ScanToken>, s: PState, x: ExprTree)
    requires
        valid(x),
        plain(toks, s),
        reads(toks, s.pos as int, seq![ScanToken::OpenParen] + render(x) + seq![ScanToken::CloseParen]),
    ensures
        expr_terminal(toks, s) == after(s, render(x).len() + 2int, postfix(x)),
    decreases x, 3nat,
{
    let w = seq![ScanToken::OpenParen] + render(x) + seq![ScanToken::CloseParen];
    let n = render(x).len() as int;
    lemma_read_at(toks, s.pos as int, w, 0);
    lemma_read_at(toks, s.pos as int, w, n + 1);
    lemma_read_part(toks, s.pos as int, w, 1, n + 1);
    assert(w.subrange(1, n + 1) =~= render(x));
    lemma_peek_plain(toks, s);
    let s2 = after(s, 1, seq![]);
    assert(s2.output =~= s.output);
    lemma_parse_render(toks, s2, x);
    let s3 = expr(toks, s2, 9);
    assert(s3 == after(s, n + 1, postfix(x))) by {
        assert(s.output + seq![] + postfix(x) =~= s.output + postfix(x));
    }
    lemma_peek_plain(toks, s3);
    assert(expect(toks, s3, ScanToken::CloseParen) == after(s, n + 2, postfix(x)));
}

/// `( x )`, followed by no `(`, `[` or new line: read as a unary expression.
proof fn lemma_paren(toks: Seq<ScanToken>, s: PState, x: ExprTree)
    requires
        valid(x),
        plain(toks, s),
        reads(toks, s.pos as int, seq![ScanToken::OpenParen] + render(x) + seq![ScanToken::CloseParen]),
        s.pos + render(x).len() + 2int < toks.len() ==> {
            let f = toks[s.pos + render(x).len() + 2int];
            f != ScanToken::OpenParen && f != ScanToken::OpenSquareBracket && f != ScanToken::NewLine
        },
    ensures
        expr_unary(toks, s) == after(s, render(x).len() + 2int, postfix(x)),
    decreases x, 4nat,
{
    let w = seq![ScanToken::OpenParen] + render(x) + seq![ScanToken::CloseParen];
    lemma_read_at(toks, s.pos as int, w, 0);
    lemma_peek_plain(toks, s);
    assert(prefix_ops(toks, s) == (s, Seq::<ParserToken>::empty()));
    lemma_paren_terminal(toks, s, x);
    let s2 = after(s, render(x).len() + 2int, postfix(x));
    lemma_peek_plain(toks, s2);
    assert(suffix(toks, s2) == s2);
    assert(push_rev(s2, seq![]) == s2) by {
        assert(s2.output + Seq::<ParserToken>::empty().reverse() =~= s2.output);
    }
}

/// The first token of a written-out tree is neither a new line nor `)`.
proof fn lemma_render_first(t: ExprTree)
    requires
        valid(t),
    ensures
        render(t).len() >= 1,
        render(t)[0] != ScanToken::NewLine,
{
}

/// Writing out a valid tree and reading it back as an expression gives its postfix order,
/// reading exactly its tokens.
pub proof fn lemma_parse_render(toks: Seq<ScanToken>, s: PState, t: ExprTree)
    requires
        valid(t),
        plain(toks, s),
        reads(toks, s.pos as int, render(t)),
        ends(toks, s.pos + render(t).len() as int),
    ensures
        expr(toks, s, 9) == after(s, render(t).len() as int, postfix(t)),
    decreases t, 2nat,
{
    let n = render(t).len() as int;
    let e = s.pos + n;
    if e < toks.len() {
        lemma_op_level(toks[e]);
    }
    match t {
        ExprTree::Atom(a) => {
            lemma_atom(toks, s, a);
            lemma_climb(toks, s, 2, 9, after(s, 1, seq![atom_of(a)->Some_0]));
        },
        ExprTree::Prefix(op, x) => {
            lemma_prefix(toks, s, t);
            lemma_climb(toks, s, 2, 9, after(s, n, postfix(t)));
        },
        ExprTree::Infix(op, l, r) => {
            lemma_infix(toks, s, t);
        },
        ExprTree::Call(f, xs) => {
            lemma_call(toks, s, t);
            lemma_climb(toks, s, 2, 9, after(s, n, postfix(t)));
        },
    }
}

/// A prefix operator applied to `( x )`, followed by a token that ends it.
proof fn lemma_prefix(toks: Seq<ScanToken>, s: PState, t: ExprTree)
    requires
        t is Prefix,
        valid(t),
        plain(toks, s),
        reads(toks, s.pos as int, render(t)),
        ends(toks, s.pos + render(t).len() as int),
    ensures
        expr_unary(toks, s) == after(s, render(t).len() as int, postfix(t)),
    decreases t, 1nat,
{
    let n = render(t).len() as int;
    if let ExprTree::Prefix(op, x) = t {
        let w = render(t);
        let m = render(*x).len() as int;
        lemma_read_at(toks, s.pos as int, w, 0);
        lemma_read_at(toks, s.pos as int, w, 1);
        lemma_peek_plain(toks, s);
        let s1 = after(s, 1, seq![]);
        lemma_peek_plain(toks, s1);
        assert(prefix_ops(toks, s1) == (s1, Seq::<ParserToken>::empty()));
        assert(prefix_ops(toks, s) == (s1, seq![prefix_op(op)->Some_0]));
        lemma_read_part(toks, s.pos as int, w, 1, n);
        assert(w.subrange(1, n) =~= seq![ScanToken::OpenParen] + render(*x) + seq![ScanToken::CloseParen]);
        lemma_paren_terminal(toks, s1, *x);
        let s2 = after(s1, m + 2, postfix(*x));
        if s.pos + n < toks.len() {
            lemma_op_level(toks[s.pos + n]);
        }
        lemma_peek_plain(toks, s2);
        assert(suffix(toks, s2) == s2);
        let r = after(s, n, postfix(t));
        assert(push_rev(s2, seq![prefix_op(op)->Some_0]) == r) by {
            assert(seq![prefix_op(op)->Some_0].reverse() =~= seq![prefix_op(op)->Some_0]);
            assert(s.output + seq![] + postfix(*x) + seq![prefix_op(op)->Some_0] =~= s.output + postfix(t));
        }
    }
}

/// `( l ) op ( r )`, followed by a token that ends it.
#[verifier::rlimit(50)]
proof fn lemma_infix(toks: Seq<ScanToken>, s: PState, t: ExprTree)
    requires
        t is Infix,
        valid(t),
        plain(toks, s),
        reads(toks, s.pos as int, render(t)),
        ends(toks, s.pos + render(t).len() as int),
    ensures
        expr(toks, s, 9) == after(s, render(t).len() as int, postfix(t)),
    decreases t, 1nat,
{
    let n = render(t).len() as int;
    if s.pos + n < toks.len() {
        lemma_op_level(toks[s.pos + n]);
    }
    if let ExprTree::Infix(op, l, r) = t {
        let w = render(t);
        let nl = render(*l).len() as int;
        let nr = render(*r).len() as int;
        let k = op_level(op);
        lemma_op_level(op);
        assert(w =~= seq![ScanToken::OpenParen] + render(*l) + seq![ScanToken::CloseParen, op, ScanToken::OpenParen] + render(*r) + seq![ScanToken::CloseParen]);
        lemma_read_at(toks, s.pos as int, w, nl + 2);
        assert(toks[s.pos + nl + 2] == op);
        lemma_read_part(toks, s.pos as int, w, 0, nl + 2);
        assert(w.subrange(0, nl + 2) =~= seq![ScanToken::OpenParen] + render(*l) + seq![ScanToken::CloseParen]);
        lemma_paren(toks, s, *l);
        let r1 = after(s, nl + 2, postfix(*l));
        lemma_climb(toks, s, 2, (k - 1) as nat, r1);
        lemma_peek_plain(toks, r1);
        let s2 = after(r1, 1, seq![]);
        lemma_read_part(toks, s.pos as int, w, nl + 3, n);
        assert(w.subrange(nl + 3, n) =~= seq![ScanToken::OpenParen] + render(*r) + seq![ScanToken::CloseParen]);
        lemma_paren(toks, s2, *r);
        let r2 = after(s2, nr + 2, postfix(*r));
        assert(r2.pos == s.pos + n);
        lemma_climb(toks, s2, 2, (k - 1) as nat, r2);
        let bop = op_at(k, op)->Some_0;
        let s4 = push(r2, bop);
        lemma_peek_plain(toks, s4);
        assert(binop_loop(toks, s4, k) == s4);
        assert(binop_loop(toks, r1, k) == s4);
        let fin = after(s, n, postfix(t));
        assert(s4 == fin) by {
            assert(s4.output =~= s.output + postfix(t));
        }
        assert(expr(toks, s, k) == fin);
        lemma_climb(toks, s, k, 9, fin);
    }
}

/// A call: `( f ) ( args )`, followed by a token that ends it.
#[verifier::rlimit(50)]
proof fn lemma_call(toks: Seq<ScanToken>, s: PState, t: ExprTree)
    requires
        t is Call,
        valid(t),
        plain(toks, s),
        reads(toks, s.pos as int, render(t)),
        ends(toks, s.pos + render(t).len() as int),
    ensures
        expr_unary(toks, s) == after(s, render(t).len() as int, postfix(t)),
    decreases t, 1nat,
{
    let f = *(t->Call_0);
    let xs = t->Call_1;
    assert(valid(f));
    assert(valid_from(xs, 0));
    let w = render(t);
    let n = w.len() as int;
    let nf = render(f).len() as int;
    let body = if xs.len() == 0 { seq![] } else { render(xs[0]) + render_tail(xs, 1) };
    let nb = body.len() as int;
    assert(w =~= seq![ScanToken::OpenParen] + render(f) + seq![ScanToken::CloseParen, ScanToken::OpenParen] + body + seq![ScanToken::CloseParen]);
    lemma_read_at(toks, s.pos as int, w, 0);
    lemma_read_at(toks, s.pos as int, w, nf + 2);
    lemma_read_at(toks, s.pos as int, w, n - 1);
    lemma_peek_plain(toks, s);
    assert(prefix_ops(toks, s) == (s, Seq::<ParserToken>::empty()));
    lemma_read_part(toks, s.pos as int, w, 0, nf + 2);
    assert(w.subrange(0, nf + 2) =~= seq![ScanToken::OpenParen] + render(f) + seq![ScanToken::CloseParen]);
    lemma_paren_terminal(toks, s, f);
    let s2 = after(s, nf + 2, postfix(f));
    lemma_peek_plain(toks, s2);
    let s3 = after(s2, 1, seq![]);
    if xs.len() > 0 {
        lemma_render_first(xs[0]);
        lemma_read_at(toks, s.pos as int, w, nf + 3);
    } else {
        lemma_read_at(toks, s.pos as int, w, nf + 3);
    }
    lemma_peek_plain(toks, s3);
    let fin = after(s, n, postfix(t));
    if s.pos + n < toks.len() {
        lemma_op_level(toks[s.pos + n]);
    }
    if xs.len() == 0 {
        assert(nb == 0);
        let s4 = after(s3, 1, seq![]);
        let s9 = push(s4, ParserToken::OpFuncEval(0));
        lemma_peek_plain(toks, s9);
        assert(suffix(toks, s9) == s9);
        assert(s9 == fin) by {
            assert(postfix_from(xs, 0) =~= Seq::<ParserToken>::empty());
            assert(s.output + postfix(f) + seq![] + seq![] + seq![ParserToken::OpFuncEval(0)] =~= s.output + postfix(t));
        }
        assert(suffix(toks, s2) == fin);
    } else {
        let n0 = render(xs[0]).len() as int;
        assert(valid(xs[0]));
        lemma_read_part(toks, s.pos as int, w, nf + 3, nf + 3 + n0);
        assert(w.subrange(nf + 3, nf + 3 + n0) =~= render(xs[0]));
        if xs.len() > 1 {
            lemma_read_at(toks, s.pos as int, w, nf + 3 + n0);
            assert(w[nf + 3 + n0] == ScanToken::Comma);
        } else {
            assert(render_tail(xs, 1) =~= Seq::<ScanToken>::empty());
            lemma_read_at(toks, s.pos as int, w, nf + 3 + n0);
        }
        lemma_op_level(toks[s.pos + nf + 3 + n0]);
        lemma_parse_render(toks, s3, xs[0]);
        let s5 = after(s3, n0, postfix(xs[0]));
        lemma_read_part(toks, s.pos as int, w, nf + 3 + n0, n);
        assert(w.subrange(nf + 3 + n0, n) =~= render_tail(xs, 1) + seq![ScanToken::CloseParen]);
        lemma_args(toks, s5, xs, 1);
        let s6 = after(s5, render_tail(xs, 1).len() as int, postfix_from(xs, 1));
        lemma_peek_plain(toks, s6);
        let s8 = after(s6, 1, seq![]);
        let s9 = push(s8, ParserToken::OpFuncEval(xs.len() as u8));
        lemma_peek_plain(toks, s9);
        assert(suffix(toks, s9) == s9);
        assert(s9 == fin) by {
            assert(postfix_from(xs, 0) == postfix(xs[0]) + postfix_from(xs, 1));
            assert(s.output + postfix(f) + seq![] + postfix(xs[0]) + postfix_from(xs, 1) + seq![] + seq![ParserToken::OpFuncEval(xs.len() as u8)] =~= s.output + postfix(t));
        }
        assert(suffix(toks, s2) == fin);
    }
}

/// The arguments from `i` on, each after a comma, followed by `)`.
proof fn lemma_args(toks: Seq<ScanToken>, s: PState, xs: Seq<ExprTree>, i: int)
    requires
        1 <= i <= xs.len() <= 255,
        valid_from(xs, i),
        plain(toks, s),
        reads(toks, s.pos as int, render_tail(xs, i) + seq![ScanToken::CloseParen]),
    ensures
        args(toks, s, i as nat) == (after(s, render_tail(xs, i).len() as int, postfix_from(xs, i)), xs.len()),
    decreases xs, xs.len() - i,
{
    let w = render_tail(xs, i) + seq![ScanToken::CloseParen];
    lemma_read_at(toks, s.pos as int, w, 0);
    lemma_peek_plain(toks, s);
    if i == xs.len() {
        assert(render_tail(xs, i) =~= Seq::<ScanToken>::empty());
        assert(postfix_from(xs, i) =~= Seq::<ParserToken>::empty());
        assert(s == after(s, 0, seq![])) by {
            assert(s.output + seq![] =~= s.output);
        }
    } else {
        let ni = render(xs[i]).len() as int;
        let nt = render_tail(xs, i + 1).len() as int;
        assert(w =~= seq![ScanToken::Comma] + render(xs[i]) + render_tail(xs, i + 1) + seq![ScanToken::CloseParen]);
        let s2 = after(s, 1, seq![]);
        lemma_read_part(toks, s.pos as int, w, 1, 1 + ni);
        assert(w.subrange(1, 1 + ni) =~= render(xs[i]));
        lemma_read_at(toks, s.pos as int, w, 1 + ni);
        if i + 1 < xs.len() {
            assert(w[1 + ni] == ScanToken::Comma);
        } else {
            assert(render_tail(xs, i + 1) =~= Seq::<ScanToken>::empty());
            assert(w[1 + ni] == ScanToken::CloseParen);
        }
        lemma_op_level(toks[s.pos + 1 + ni]);
        assert(s2.output =~= s.output);
        lemma_parse_render(toks, s2, xs[i]);
        let s3 = after(s2, ni, postfix(xs[i]));
        lemma_read_part(toks, s.pos as int, w, 1 + ni, w.len() as int);
        assert(w.subrange(1 + ni, w.len() as int) =~= render_tail(xs, i + 1) + seq![ScanToken::CloseParen]);
        lemma_args(toks, s3, xs, i + 1);
        assert(after(s3, nt, postfix_from(xs, i + 1)) == after(s, render_tail(xs, i).len() as int, postfix_from(xs, i))) by {
            assert(s.output + seq![] + postfix(xs[i]) + postfix_from(xs, i + 1) =~= s.output + postfix_from(xs, i));
        }
    }
}


/// Any valid expression tree, written out with each operand and each callee in parentheses
/// and parsed back as an expression, is read to its end and gives its postfix order: each
/// operator after its operands, each call after its callee and arguments; no error is
/// recorded and no line is counted.
pub proof fn law_parse_written(t: ExprTree)
    requires
        valid(t),
    ensures
        expr(render(t), initial(), 9) == (PState {
            pos: render(t).len(),
            output: postfix(t),
            errors: seq![],
            lineno: 0,
            error: false,
            halted: false,
        }),
{
    let toks = render(t);
    assert(toks.subrange(0, toks.len() as int) =~= toks);
    lemma_parse_render(toks, initial(), t);
    assert(Seq::<ParserToken>::empty() + postfix(t) =~= postfix(t));
}

} // verus!
