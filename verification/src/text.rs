//! Small verified helpers for building and comparing strings character by character.
use vstd::prelude::*;

verus! {

/// Appends one character at the end of a string (`String::push`).
#[verifier::external_body]
pub(crate) fn push_char(s: &mut String, c: char)
    ensures
        final(s)@ == old(s)@.push(c),
{
    s.push(c);
}

/// The characters of a string slice, in order.
pub fn chars_of(s: &str) -> (r: Vec<char>)
    ensures
        r@ == s@,
{
    broadcast use vstd::string::group_string_axioms;

    let mut r: Vec<char> = Vec::new();
    for c in it: s.chars()
        invariant
            r@ == it.seq().take(it.index() as int),
            it.seq() == s@,
    {
        r.push(c);
    }
    r
}

/// Appends the characters `cs[lo..hi]` at the end of `out`.
pub fn push_range(out: &mut String, cs: &Vec<char>, lo: usize, hi: usize)
    requires
        lo <= hi <= cs.len(),
    ensures
        final(out)@ == old(out)@ + cs@.subrange(lo as int, hi as int),
{
    let mut i = lo;
    while i < hi
        invariant
            lo <= i <= hi <= cs.len(),
            out@ == old(out)@ + cs@.subrange(lo as int, i as int),
        decreases hi - i,
    {
        push_char(out, cs[i]);
        i += 1;
        assert(cs@.subrange(lo as int, i as int) =~= cs@.subrange(lo as int, i - 1).push(cs@[i - 1]));
    }
}

/// A new string holding the characters `cs[lo..hi]`.
pub fn string_of_range(cs: &Vec<char>, lo: usize, hi: usize) -> (r: String)
    requires
        lo <= hi <= cs.len(),
    ensures
        r@ == cs@.subrange(lo as int, hi as int),
{
    let mut r = String::new();
    push_range(&mut r, cs, lo, hi);
    r
}

/// Appends all characters of `s` at the end of `out`.
pub fn push_str(out: &mut String, s: &str)
    ensures
        final(out)@ == old(out)@ + s@,
{
    let cs = chars_of(s);
    push_range(out, &cs, 0, cs.len());
    assert(cs@.subrange(0, cs@.len() as int) =~= cs@);
}

/// Whether the characters `cs[lo..hi]` are exactly `lit`.
pub fn range_eq(cs: &Vec<char>, lo: usize, hi: usize, lit: &[char]) -> (r: bool)
    requires
        lo <= hi <= cs.len(),
    ensures
        r == (cs@.subrange(lo as int, hi as int) == lit@),
{
    if hi - lo != lit.len() {
        return false;
    }
    let mut i: usize = 0;
    while i < lit.len()
        invariant
            i <= lit.len(),
            hi - lo == lit.len(),
            lo <= hi <= cs.len(),
            forall|k: int| 0 <= k < i ==> cs@[lo + k] == lit@[k],
        decreases lit.len() - i,
    {
        if cs[lo + i] != lit[i] {
            return false;
        }
        i += 1;
    }
    assert(cs@.subrange(lo as int, hi as int) =~= lit@);
    true
}

} // verus!

verus! {

// ===== Numbers as text ===== //

/// The digit for `d` (below 16): `0`-`9`, then `a`-`f`.
pub open spec fn digit_char(d: nat) -> char {
    if d < 10 {
        ((d + '0' as nat) as u32) as char
    } else {
        ((d - 10 + 'a' as nat) as u32) as char
    }
}

/// The digits of `n` in `base`, most significant first, without leading zeros ("0" for zero).
pub open spec fn digits(n: nat, base: nat) -> Seq<char>
    decreases n,
{
    if base < 2 || n < base {
        seq![digit_char(n)]
    } else {
        proof {
            lemma_div_step(n, base);
        }
        digits(n / base, base).push(digit_char(n % base))
    }
}

/// `i` in decimal, with a leading `-` when negative.
pub open spec fn decimal(i: int) -> Seq<char> {
    if i < 0 { seq!['-'] + digits((-i) as nat, 10) } else { digits(i as nat, 10) }
}

pub proof fn lemma_div_step(m: nat, base: nat)
    requires
        2 <= base,
    ensures
        m < base ==> m / base == 0 && m % base == m,
        m >= base ==> 0 < m / base < m,
        m % base < base,
{
    assert(m < base ==> m / base == 0 && m % base == m) by (nonlinear_arith)
        requires 2 <= base;
    assert(m >= base ==> 0 < m / base < m) by (nonlinear_arith)
        requires 2 <= base;
    assert(m % base < base) by (nonlinear_arith)
        requires 2 <= base;
}

fn digit_char_exec(d: u64) -> (c: char)
    requires
        d < 16,
    ensures
        c == digit_char(d as nat),
{
    if d < 10 {
        char_of_code((d as u32) + 48)
    } else {
        char_of_code((d as u32) - 10 + 97)
    }
}

/// The character with code `code`, an ASCII code here.
fn char_of_code(code: u32) -> (c: char)
    requires
        code < 128,
    ensures
        c == (code as char),
{
    code as u8 as char
}

/// Appends the digits of `n` in `base` at the end of `out`.
pub fn push_digits(out: &mut String, n: u64, base: u64)
    requires
        base == 2 || base == 10 || base == 16,
    ensures
        final(out)@ == old(out)@ + digits(n as nat, base as nat),
{
    let mut rev: Vec<char> = Vec::new();
    let mut m = n;
    loop
        invariant_except_break
            base == 2 || base == 10 || base == 16,
            m > 0 || (m == n && rev@.len() == 0),
            digits(n as nat, base as nat) == digits(m as nat, base as nat) + rev@.reverse(),
        ensures
            digits(n as nat, base as nat) == rev@.reverse(),
        decreases m,
    {
        proof {
            lemma_div_step(m as nat, base as nat);
        }
        let d = m % base;
        rev.push(digit_char_exec(d));
        let ghost prev = m;
        m = m / base;
        proof {
            assert(rev@.reverse() =~= seq![digit_char(d as nat)] + rev@.drop_last().reverse());
        }
        if m == 0 {
            proof {
                assert(digits(prev as nat, base as nat) == seq![digit_char(prev as nat)]);
                assert(seq![digit_char(prev as nat)] + rev@.drop_last().reverse() =~= rev@.reverse());
            }
            break;
        }
        proof {
            assert(digits(prev as nat, base as nat) == digits(m as nat, base as nat).push(digit_char(d as nat)));
            assert(digits(m as nat, base as nat) + rev@.reverse() =~= digits(m as nat, base as nat).push(digit_char(d as nat)) + rev@.drop_last().reverse());
        }
    }
    let mut k = rev.len();
    while k > 0
        invariant
            k <= rev.len(),
            out@ == old(out)@ + rev@.subrange(k as int, rev@.len() as int).reverse(),
            digits(n as nat, base as nat) == rev@.reverse(),
        decreases k,
    {
        k = k - 1;
        push_char(out, rev[k]);
        proof {
            assert(rev@.subrange(k as int, rev@.len() as int).reverse() =~= rev@.subrange(k + 1 as int, rev@.len() as int).reverse().push(rev@[k as int]));
        }
    }
    proof {
        assert(rev@.subrange(0, rev@.len() as int) =~= rev@);
    }
}

/// Appends `i` in decimal at the end of `out`.
pub fn push_decimal(out: &mut String, i: i64)
    ensures
        final(out)@ == old(out)@ + decimal(i as int),
{
    if i < 0 {
        push_char(out, '-');
        let magnitude: u64 = ((-(i + 1)) as u64) + 1;
        push_digits(out, magnitude, 10);
        proof {
            assert(old(out)@.push('-') + digits(magnitude as nat, 10) =~= old(out)@ + (seq!['-'] + digits(magnitude as nat, 10)));
        }
    } else {
        push_digits(out, i as u64, 10);
    }
}

/// Appends `n` in decimal at the end of `out`.
pub fn push_usize(out: &mut String, n: usize)
    ensures
        final(out)@ == old(out)@ + decimal(n as int),
{
    push_digits(out, n as u64, 10);
}

} // verus!
