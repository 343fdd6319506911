//! The string functions of the standard library.
use vstd::prelude::*;

use itertools::Itertools;

use crate::text::{
    chars_of, decimal, digits, push_char, push_decimal, push_digits, push_range, push_str,
    string_of_range,
};
use crate::vm::error::RuntimeError;
use crate::vm::value::{display, join_strings, repr, Value};

verus! {

// ===== Characters ===== //

/// A valid `char` code: at most `0x10FFFF`, and not a surrogate.
pub open spec fn is_char_code(c: u32) -> bool {
    c <= 0x10FFFF && !(0xD800 <= c <= 0xDFFF)
}

/// `char::from_u32`, which gives the character of a valid code and `None` otherwise.
#[verifier::external_body]
fn char_from_u32(c: u32) -> (r: Option<char>)
    ensures
        is_char_code(c) ==> r == Some(c as char),
        !is_char_code(c) ==> r is None,
{
    char::from_u32(c)
}

/// The one-character string of `c`.
fn char_string(c: char) -> (r: String)
    ensures
        r@ == seq![c],
{
    let mut s = String::new();
    push_char(&mut s, c);
    s
}

/// `char(i)`: the character with code `i`, taken modulo 2^32.
pub open spec fn to_char_spec(i: i64) -> Option<char> {
    if i <= 0 || !is_char_code(i as u32) {
        None
    } else {
        Some((i as u32) as char)
    }
}

/// The character with code `value` (an integer), as a string.
pub fn to_char(value: Value) -> (r: Result<Value, RuntimeError>)
    ensures
        match value {
            Value::Int(i) => match to_char_spec(i) {
                Some(c) => r matches Ok(Value::Str(s)) && s@ == seq![c],
                None => r == Err::<Value, RuntimeError>(RuntimeError::ValueErrorInvalidCharacterOrdinal(i)),
            },
            v => r == Err::<Value, RuntimeError>(RuntimeError::TypeErrorArgMustBeInt(v)),
        },
{
    match value {
        Value::Int(i) => {
            if i <= 0 {
                return Err(RuntimeError::ValueErrorInvalidCharacterOrdinal(i));
            }
            match char_from_u32(i as u32) {
                Some(c) => Ok(Value::Str(char_string(c))),
                None => Err(RuntimeError::ValueErrorInvalidCharacterOrdinal(i)),
            }
        },
        v => Err(RuntimeError::TypeErrorArgMustBeInt(v)),
    }
}

/// The code of the character of `value`, a string of exactly one byte: one ASCII character.
pub fn to_ord(value: Value) -> (r: Result<Value, RuntimeError>)
    ensures
        match value {
            Value::Str(s) => if s@.len() == 1 && (s@[0] as u32) < 128 {
                r == Ok::<Value, RuntimeError>(Value::Int(s@[0] as u32 as i64))
            } else {
                r matches Err(RuntimeError::TypeErrorArgMustBeChar(Value::Str(t))) && t@ == s@
            },
            v => r == Err::<Value, RuntimeError>(RuntimeError::TypeErrorArgMustBeStr(v)),
        },
{
    match value {
        Value::Str(s) => {
            let cs = chars_of(s.as_str());
            if cs.len() == 1 && (cs[0] as u32) < 128 {
                Ok(Value::Int(cs[0] as u32 as i64))
            } else {
                Err(RuntimeError::TypeErrorArgMustBeChar(Value::Str(s)))
            }
        },
        v => Err(RuntimeError::TypeErrorArgMustBeStr(v)),
    }
}

/// `value` (an integer) in lowercase hexadecimal; a negative one as its 64-bit two's complement.
pub fn to_hex(value: Value) -> (r: Result<Value, RuntimeError>)
    ensures
        match value {
            Value::Int(i) => r matches Ok(Value::Str(s)) && s@ == digits((i as u64) as nat, 16),
            v => r == Err::<Value, RuntimeError>(RuntimeError::TypeErrorArgMustBeInt(v)),
        },
{
    match value {
        Value::Int(i) => {
            let mut s = String::new();
            push_digits(&mut s, i as u64, 16);
            Ok(Value::Str(s))
        },
        v => Err(RuntimeError::TypeErrorArgMustBeInt(v)),
    }
}

/// `value` (an integer) in binary; a negative one as its 64-bit two's complement.
pub fn to_bin(value: Value) -> (r: Result<Value, RuntimeError>)
    ensures
        match value {
            Value::Int(i) => r matches Ok(Value::Str(s)) && s@ == digits((i as u64) as nat, 2),
            v => r == Err::<Value, RuntimeError>(RuntimeError::TypeErrorArgMustBeInt(v)),
        },
{
    match value {
        Value::Int(i) => {
            let mut s = String::new();
            push_digits(&mut s, i as u64, 2);
            Ok(Value::Str(s))
        },
        v => Err(RuntimeError::TypeErrorArgMustBeInt(v)),
    }
}

// ===== Trimming ===== //

/// The characters with the Unicode `White_Space` property.
pub open spec fn is_white_space(c: char) -> bool {
    let u = c as u32;
    ||| 0x09 <= u <= 0x0D
    ||| u == 0x20
    ||| u == 0x85
    ||| u == 0xA0
    ||| u == 0x1680
    ||| 0x2000 <= u <= 0x200A
    ||| u == 0x2028
    ||| u == 0x2029
    ||| u == 0x202F
    ||| u == 0x205F
    ||| u == 0x3000
}

fn white_space(c: char) -> (r: bool)
    ensures
        r == is_white_space(c),
{
    let u = c as u32;
    (0x09 <= u && u <= 0x0D) || u == 0x20 || u == 0x85 || u == 0xA0 || u == 0x1680 || (0x2000 <= u
        && u <= 0x200A) || u == 0x2028 || u == 0x2029 || u == 0x202F || u == 0x205F || u == 0x3000
}

/// `s` without its leading and trailing white space: `s[a..b]`, where `a` is the first
/// character that is not white space, and `b` is one past the last (or `a == b` when there is
/// none).
pub open spec fn is_trim_of(s: Seq<char>, a: int, b: int) -> bool {
    &&& 0 <= a <= b <= s.len()
    &&& forall|k: int| 0 <= k < a ==> is_white_space(#[trigger] s[k])
    &&& forall|k: int| b <= k < s.len() ==> is_white_space(#[trigger] s[k])
    &&& a < b ==> !is_white_space(s[a]) && !is_white_space(s[b - 1])
}

/// `value` (a string) without leading and trailing white space.
pub fn trim(value: Value) -> (r: Result<Value, RuntimeError>)
    ensures
        match value {
            Value::Str(s) => exists|a: int, b: int|
                is_trim_of(s@, a, b) && (r matches Ok(Value::Str(t)) && t@ == s@.subrange(a, b)),
            v => r == Err::<Value, RuntimeError>(RuntimeError::TypeErrorArgMustBeStr(v)),
        },
{
    match value {
        Value::Str(s) => {
            let cs = chars_of(s.as_str());
            let mut a: usize = 0;
            while a < cs.len() && white_space(cs[a])
                invariant
                    a <= cs.len(),
                    forall|k: int| 0 <= k < a ==> is_white_space(#[trigger] cs@[k]),
                decreases cs.len() - a,
            {
                a = a + 1;
            }
            let mut b: usize = cs.len();
            while b > a && white_space(cs[b - 1])
                invariant
                    a <= b <= cs.len(),
                    forall|k: int| b <= k < cs.len() ==> is_white_space(#[trigger] cs@[k]),
                decreases b,
            {
                b = b - 1;
            }
            let mut t = String::new();
            push_range(&mut t, &cs, a, b);
            proof {
                assert(is_trim_of(s@, a as int, b as int));
            }
            Ok(Value::Str(t))
        },
        v => Err(RuntimeError::TypeErrorArgMustBeStr(v)),
    }
}

// ===== Regular expressions: escaping ===== //

/// Each tab, carriage return and new line written as its escape sequence.
pub open spec fn escaped(raw: Seq<char>) -> Seq<char>
    decreases raw.len(),
{
    if raw.len() == 0 {
        seq![]
    } else {
        let c = raw.last();
        escaped(raw.drop_last()) + if c == '\t' {
            "\\t"@
        } else if c == '\r' {
            "\\r"@
        } else if c == '\n' {
            "\\n"@
        } else {
            seq![c]
        }
    }
}

/// Writes the tabs, carriage returns and new lines of `raw` as escape sequences.
pub fn escape_regex(raw: &String) -> (r: String)
    ensures
        r@ == escaped(raw@),
{
    let cs = chars_of(raw.as_str());
    let mut result = String::new();
    let mut k: usize = 0;
    while k < cs.len()
        invariant
            k <= cs.len(),
            cs@ == raw@,
            result@ == escaped(cs@.subrange(0, k as int)),
        decreases cs.len() - k,
    {
        let c = cs[k];
        proof {
            assert(cs@.subrange(0, k as int + 1).drop_last() =~= cs@.subrange(0, k as int));
        }
        if c == '\t' {
            push_str(&mut result, "\\t");
        } else if c == '\r' {
            push_str(&mut result, "\\r");
        } else if c == '\n' {
            push_str(&mut result, "\\n");
        } else {
            push_char(&mut result, c);
        }
        k = k + 1;
    }
    proof {
        assert(cs@.subrange(0, k as int) =~= raw@);
    }
    result
}


// ===== Formatting ===== //

pub open spec fn is_digit(c: char) -> bool {
    '0' <= c <= '9'
}

/// Where the run of digits starting at `k` ends.
pub open spec fn digits_end(cs: Seq<char>, k: int) -> int
    decreases cs.len() - k,
{
    if 0 <= k < cs.len() && is_digit(cs[k]) {
        digits_end(cs, k + 1)
    } else {
        k
    }
}

/// The number that the decimal digits `cs[a..b]` write.
pub open spec fn digits_value(cs: Seq<char>, a: int, b: int) -> nat
    decreases b - a,
{
    if b <= a {
        0
    } else {
        digits_value(cs, a, b - 1) * 10 + ((cs[b - 1] as u32) - ('0' as u32)) as nat
    }
}

/// `s` after as many `c` as it takes to make it `width` characters long.
pub open spec fn pad_left(s: Seq<char>, width: int, c: char) -> Seq<char> {
    if s.len() >= width {
        s
    } else {
        Seq::new((width - s.len()) as nat, |k: int| c) + s
    }
}

/// `s` followed by as many spaces as it takes to make it `width` characters long.
pub open spec fn pad_right(s: Seq<char>, width: int) -> Seq<char> {
    if s.len() >= width {
        s
    } else {
        s + Seq::new((width - s.len()) as nat, |k: int| ' ')
    }
}

/// How `%d`, `%x` and `%b` write `i` in `width` characters: right-aligned, padded with spaces,
/// or with zeros (after the sign) when `zero` is set. Hexadecimal and binary write a negative
/// number as its 64-bit two's complement.
pub open spec fn int_text(kind: char, i: i64, width: int, zero: bool) -> Seq<char> {
    if kind == 'd' {
        if !zero {
            pad_left(decimal(i as int), width, ' ')
        } else if i < 0 {
            seq!['-'] + pad_left(digits((-i) as nat, 10), width - 1, '0')
        } else {
            pad_left(digits(i as nat, 10), width, '0')
        }
    } else {
        let base: nat = if kind == 'x' { 16 } else { 2 };
        pad_left(digits((i as u64) as nat, base), width, if zero { '0' } else { ' ' })
    }
}

/// The number as `%d`, `%x` or `%b` writes it, before any padding: decimal with a sign, or
/// the 64-bit two's complement in hexadecimal or binary.
pub open spec fn number_text(kind: char, i: i64) -> Seq<char> {
    if kind == 'd' {
        decimal(i as int)
    } else if kind == 'x' {
        digits((i as u64) as nat, 16)
    } else {
        digits((i as u64) as nat, 2)
    }
}

/// Without the `0` flag, every kind of integer directive pads with spaces: what it writes is
/// the number, right-aligned in `width` characters, with only spaces before it.
pub proof fn law_unflagged_pads_with_spaces(kind: char, i: i64, width: int)
    ensures
        ({
            let t = int_text(kind, i, width, false);
            let n = number_text(kind, i);
            &&& t.len() == if n.len() >= width { n.len() as int } else { width }
            &&& t.subrange(t.len() - n.len(), t.len() as int) == n
            &&& forall|j: int| 0 <= j < t.len() - n.len() ==> #[trigger] t[j] == ' '
        }),
{
    let t = int_text(kind, i, width, false);
    let n = number_text(kind, i);
    if n.len() < width {
        assert(t.subrange(t.len() - n.len(), t.len() as int) =~= n);
    } else {
        assert(t.subrange(0, t.len() as int) =~= n);
    }
}

/// The directive after a `%` at `j - 1`: where it ends and what it writes, or its error.
/// `None` where its width does not fit in a `usize`.
pub open spec fn directive(cs: Seq<char>, j: int, args: Seq<Value>) -> Option<
    Result<(int, Seq<char>), RuntimeError>,
> {
    let zero = j < cs.len() && cs[j] == '0';
    let d0 = if zero { j + 1 } else { j };
    if d0 < cs.len() && cs[d0] == '0' {
        Some(Err(RuntimeError::ValueErrorInvalidFormatCharacter(Some('0'))))
    } else {
        let d1 = digits_end(cs, d0);
        let width = digits_value(cs, d0, d1);
        if width > usize::MAX {
            None
        } else if d1 < cs.len() && (cs[d1] == 'd' || cs[d1] == 'x' || cs[d1] == 'b' || cs[d1] == 's') {
            if args.len() == 0 {
                Some(Err(RuntimeError::ValueErrorMissingRequiredArgumentInStringFormatting))
            } else if cs[d1] == 's' {
                Some(Ok((d1 + 1, pad_right(display(args[0]), width as int))))
            } else {
                match args[0] {
                    Value::Int(i) => Some(Ok((d1 + 1, int_text(cs[d1], i, width as int, zero)))),
                    v => Some(Err(RuntimeError::TypeErrorArgMustBeInt(v))),
                }
            }
        } else {
            Some(Err(RuntimeError::ValueErrorInvalidFormatCharacter(
                if d1 < cs.len() { Some(cs[d1]) } else { None },
            )))
        }
    }
}

/// Formatting `cs` from `i` on, with `args` left to use, after writing `out`: `%%` writes
/// `%`, each directive `%[0][width](d|x|b|s)` writes the next argument, and every other
/// character is written as it is. All the arguments must be used. `None` where a width does
/// not fit in a `usize`.
pub open spec fn fmt(cs: Seq<char>, i: int, args: Seq<Value>, out: Seq<char>) -> Option<
    Result<Seq<char>, RuntimeError>,
>
    decreases cs.len() - i,
{
    if i < 0 || i >= cs.len() {
        if args.len() > 0 {
            Some(Err(RuntimeError::ValueErrorNotAllArgumentsUsedInStringFormatting(args[0])))
        } else {
            Some(Ok(out))
        }
    } else if cs[i] != '%' {
        fmt(cs, i + 1, args, out.push(cs[i]))
    } else if i + 1 < cs.len() && cs[i + 1] == '%' {
        fmt(cs, i + 2, args, out.push('%'))
    } else {
        match directive(cs, i + 1, args) {
            None => None,
            Some(Err(e)) => Some(Err(e)),
            Some(Ok((next, text))) => if next > i {
                fmt(cs, next, args.drop_first(), out + text)
            } else {
                None
            },
        }
    }
}

/// The arguments of a format: the elements of a vector, or any other value alone.
pub open spec fn format_args(args: Value) -> Seq<Value> {
    match args {
        Value::Vector(xs) => xs@,
        v => seq![v],
    }
}

/// `r` is the value for `out`: a string, or the error.
pub open spec fn gives(out: Result<Seq<char>, RuntimeError>, r: Result<Value, RuntimeError>) -> bool {
    match out {
        Ok(s) => r matches Ok(Value::Str(t)) && t@ == s,
        Err(e) => r == Err::<Value, RuntimeError>(e),
    }
}

proof fn lemma_digits_end(cs: Seq<char>, k: int)
    requires
        0 <= k,
    ensures
        k <= digits_end(cs, k),
        digits_end(cs, k) <= cs.len() || digits_end(cs, k) == k,
        digits_end(cs, k) < cs.len() ==> !is_digit(cs[digits_end(cs, k)]),
        forall|m: int| k <= m < digits_end(cs, k) ==> is_digit(#[trigger] cs[m]),
    decreases cs.len() - k,
{
    if 0 <= k < cs.len() && is_digit(cs[k]) {
        lemma_digits_end(cs, k + 1);
    }
}

proof fn lemma_digits_value_mono(cs: Seq<char>, a: int, b: int, c: int)
    requires
        a <= b <= c,
        forall|m: int| a <= m < c ==> is_digit(#[trigger] cs[m]),
    ensures
        digits_value(cs, a, b) <= digits_value(cs, a, c),
    decreases c - b,
{
    if b < c {
        lemma_digits_value_mono(cs, a, b, c - 1);
        assert(is_digit(cs[c - 1]));
    }
}

/// Appends `s`, after padding it to `width` characters with `c`.
fn push_padded_left(out: &mut String, s: &String, width: usize, c: char)
    ensures
        final(out)@ == old(out)@ + pad_left(s@, width as int, c),
{
    let cs = chars_of(s.as_str());
    if cs.len() < width {
        let mut k: usize = cs.len();
        while k < width
            invariant
                cs.len() <= k <= width,
                out@ == old(out)@ + Seq::new((k - cs.len()) as nat, |m: int| c),
            decreases width - k,
        {
            push_char(out, c);
            k = k + 1;
            proof {
                assert(out@ =~= old(out)@ + Seq::new((k - cs.len()) as nat, |m: int| c));
            }
        }
        push_str(out, s.as_str());
        proof {
            assert(out@ =~= old(out)@ + pad_left(s@, width as int, c));
        }
    } else {
        push_str(out, s.as_str());
    }
}

/// Appends `s`, followed by spaces up to `width` characters.
fn push_padded_right(out: &mut String, s: &String, width: usize)
    ensures
        final(out)@ == old(out)@ + pad_right(s@, width as int),
{
    let cs = chars_of(s.as_str());
    push_str(out, s.as_str());
    if cs.len() < width {
        let ghost mid = out@;
        let mut k: usize = cs.len();
        while k < width
            invariant
                cs.len() <= k <= width,
                out@ == mid + Seq::new((k - cs.len()) as nat, |m: int| ' '),
            decreases width - k,
        {
            push_char(out, ' ');
            k = k + 1;
            proof {
                assert(out@ =~= mid + Seq::new((k - cs.len()) as nat, |m: int| ' '));
            }
        }
        proof {
            assert(out@ =~= old(out)@ + pad_right(s@, width as int));
        }
    }
}

/// Appends `i` as `%d`, `%x` or `%b` writes it.
fn push_int_text(out: &mut String, kind: char, i: i64, width: usize, zero: bool)
    requires
        kind == 'd' || kind == 'x' || kind == 'b',
    ensures
        final(out)@ == old(out)@ + int_text(kind, i, width as int, zero),
{
    let mut body = String::new();
    if kind == 'd' {
        if !zero {
            push_decimal(&mut body, i);
            push_padded_left(out, &body, width, ' ');
        } else if i < 0 {
            let magnitude: u64 = ((-(i + 1)) as u64) + 1;
            push_digits(&mut body, magnitude, 10);
            push_char(out, '-');
            let w = if width > 0 { width - 1 } else { 0 };
            push_padded_left(out, &body, w, '0');
            proof {
                assert(pad_left(body@, w as int, '0') =~= pad_left(body@, width - 1, '0'));
                assert(out@ =~= old(out)@ + (seq!['-'] + pad_left(digits((-i) as nat, 10), width - 1, '0')));
            }
        } else {
            push_digits(&mut body, i as u64, 10);
            push_padded_left(out, &body, width, '0');
        }
    } else {
        let base: u64 = if kind == 'x' { 16 } else { 2 };
        push_digits(&mut body, i as u64, base);
        push_padded_left(out, &body, width, if zero { '0' } else { ' ' });
    }
}

/// Formats a string literal with `%` directives: see `fmt`.
struct StringFormatter {
    chars: Vec<char>,
    pos: usize,
    args: Vec<Value>,
    output: String,
}

impl StringFormatter {
    fn format(literal: &String, args: Value) -> (r: Result<Value, RuntimeError>)
        requires
            fmt(literal@, 0, format_args(args), seq![]) is Some,
        ensures
            gives(fmt(literal@, 0, format_args(args), seq![])->Some_0, r),
    {
        let ghost given = args;
        let args = match args {
            Value::Vector(xs) => xs,
            v => vec![v],
        };
        proof {
            assert(args@ =~= format_args(given));
        }
        let formatter = StringFormatter {
            chars: chars_of(literal.as_str()),
            pos: 0,
            args,
            output: String::new(),
        };
        formatter.run()
    }

    fn next(&mut self) -> (r: Option<char>)
        requires
            old(self).pos <= old(self).chars.len(),
        ensures
            final(self).chars == old(self).chars,
            final(self).args == old(self).args,
            final(self).output == old(self).output,
            old(self).pos < old(self).chars.len() ==> r == Some(old(self).chars@[old(self).pos as int])
                && final(self).pos == old(self).pos + 1,
            old(self).pos == old(self).chars.len() ==> r is None && final(self).pos == old(self).pos,
    {
        if self.pos < self.chars.len() {
            let c = self.chars[self.pos];
            self.pos = self.pos + 1;
            Some(c)
        } else {
            None
        }
    }

    fn peek(&self) -> (r: Option<char>)
        ensures
            r == (if self.pos < self.chars.len() { Some(self.chars@[self.pos as int]) } else { None::<char> }),
    {
        if self.pos < self.chars.len() {
            Some(self.chars[self.pos])
        } else {
            None
        }
    }

    fn push(&mut self, c: char)
        ensures
            final(self).chars == old(self).chars,
            final(self).args == old(self).args,
            final(self).pos == old(self).pos,
            final(self).output@ == old(self).output@.push(c),
    {
        push_char(&mut self.output, c);
    }

    fn arg(&mut self) -> (r: Result<Value, RuntimeError>)
        ensures
            final(self).chars == old(self).chars,
            final(self).pos == old(self).pos,
            final(self).output == old(self).output,
            old(self).args.len() > 0 ==> r == Ok::<Value, RuntimeError>(old(self).args@[0])
                && final(self).args@ == old(self).args@.drop_first(),
            old(self).args.len() == 0 ==> r == Err::<Value, RuntimeError>(
                RuntimeError::ValueErrorMissingRequiredArgumentInStringFormatting,
            ) && final(self).args == old(self).args,
    {
        if self.args.len() > 0 {
            Ok(self.args.remove(0))
        } else {
            Err(RuntimeError::ValueErrorMissingRequiredArgumentInStringFormatting)
        }
    }

    #[verifier::loop_isolation(false)]
    fn run(self) -> (r: Result<Value, RuntimeError>)
        requires
            self.pos <= self.chars.len(),
            fmt(self.chars@, self.pos as int, self.args@, self.output@) is Some,
        ensures
            gives(fmt(self.chars@, self.pos as int, self.args@, self.output@)->Some_0, r),
    {
        let mut this = self;
        let ghost cs = this.chars@;
        let ghost target = fmt(this.chars@, this.pos as int, this.args@, this.output@);
        loop
            invariant
                this.chars@ == cs,
                this.pos <= this.chars.len(),
                fmt(cs, this.pos as int, this.args@, this.output@) == target,
            decreases this.chars.len() - this.pos,
        {
            let i = this.pos;
            let ghost args0 = this.args@;
            let ghost out0 = this.output@;
            match this.next() {
                Some(c) => {
                    if c != '%' {
                        this.push(c);
                    } else if this.peek() == Some('%') {
                        this.next();
                        this.push('%');
                    } else {
                        let ghost j = this.pos as int;
                        let is_zero_padded = if this.peek() == Some('0') {
                            this.next();
                            true
                        } else {
                            false
                        };
                        let d0 = this.pos;
                        if this.peek() == Some('0') {
                            return Err(RuntimeError::ValueErrorInvalidFormatCharacter(Some('0')));
                        }
                        let ghost d1 = digits_end(cs, d0 as int);
                        proof {
                            lemma_digits_end(cs, d0 as int);
                        }
                        let mut width: usize = 0;
                        loop
                            invariant
                                this.chars@ == cs,
                                this.args@ == args0,
                                this.output@ == out0,
                                d0 <= this.pos <= d1 <= cs.len(),
                                digits_end(cs, this.pos as int) == d1,
                                width == digits_value(cs, d0 as int, this.pos as int),
                            decreases this.chars.len() - this.pos,
                        {
                            match this.peek() {
                                Some(c) => {
                                    if '0' <= c && c <= '9' {
                                        proof {
                                            lemma_digits_value_mono(cs, d0 as int, this.pos + 1, d1);
                                        }
                                        width = width * 10 + ((c as u32) - ('0' as u32)) as usize;
                                        this.next();
                                    } else {
                                        break;
                                    }
                                },
                                None => break,
                            }
                        }
                        proof {
                            assert(this.pos as int == d1);
                            assert(is_zero_padded == (j < cs.len() && cs[j] == '0'));
                            assert(d0 as int == if is_zero_padded { j + 1 } else { j });
                            assert(!(d0 < cs.len() && cs[d0 as int] == '0'));
                            assert(j == i + 1);
                            assert(cs[i as int] == '%');
                            assert(!(i + 1 < cs.len() && cs[i + 1] == '%'));
                        }
                        let ghost text_of = directive(cs, j, this.args@);
                        let kind = this.peek();
                        let mut text = String::new();
                        match kind {
                            Some(k) => {
                                if k == 's' {
                                    match this.arg() {
                                        Ok(a) => {
                                            let shown = a.to_str();
                                            push_padded_right(&mut text, &shown, width);
                                        },
                                        Err(e) => {
                                            proof {
                                                assert(directive(cs, j, args0) == Some(Err::<(int, Seq<char>), RuntimeError>(e)));
                                            }
                                            return Err(e);
                                        },
                                    }
                                } else if k == 'd' || k == 'x' || k == 'b' {
                                    match this.arg() {
                                        Ok(Value::Int(v)) => push_int_text(&mut text, k, v, width, is_zero_padded),
                                        Ok(v) => {
                                            proof {
                                                assert(directive(cs, j, args0) == Some(Err::<(int, Seq<char>), RuntimeError>(RuntimeError::TypeErrorArgMustBeInt(v))));
                                            }
                                            return Err(RuntimeError::TypeErrorArgMustBeInt(v));
                                        },
                                        Err(e) => {
                                            proof {
                                                assert(directive(cs, j, args0) == Some(Err::<(int, Seq<char>), RuntimeError>(e)));
                                            }
                                            return Err(e);
                                        },
                                    }
                                } else {
                                    return Err(RuntimeError::ValueErrorInvalidFormatCharacter(kind));
                                }
                            },
                            None => return Err(RuntimeError::ValueErrorInvalidFormatCharacter(kind)),
                        }
                        this.next();
                        let ghost prev = this.output@;
                        push_str(&mut this.output, text.as_str());
                        proof {
                            assert(text_of == Some(Ok::<(int, Seq<char>), RuntimeError>((this.pos as int, text@))));
                        }
                    }
                },
                None => break,
            }
        }
        if this.args.len() > 0 {
            Err(RuntimeError::ValueErrorNotAllArgumentsUsedInStringFormatting(this.args.remove(0)))
        } else {
            Ok(Value::Str(this.output))
        }
    }
}


proof fn lemma_fmt_plain(cs: Seq<char>, i: int, out: Seq<char>)
    requires
        0 <= i <= cs.len(),
        forall|k: int| 0 <= k < cs.len() ==> cs[k] != '%',
    ensures
        fmt(cs, i, seq![], out) == Some(Ok::<Seq<char>, RuntimeError>(out + cs.subrange(i, cs.len() as int))),
    decreases cs.len() - i,
{
    if i < cs.len() {
        lemma_fmt_plain(cs, i + 1, out.push(cs[i]));
        assert(out.push(cs[i]) + cs.subrange(i + 1, cs.len() as int) =~= out + cs.subrange(i, cs.len() as int));
    } else {
        assert(out + cs.subrange(i, cs.len() as int) =~= out);
    }
}

/// A string with no `%` in it, formatted with no arguments, is itself.
pub proof fn law_format_plain(cs: Seq<char>)
    requires
        forall|k: int| 0 <= k < cs.len() ==> cs[k] != '%',
    ensures
        fmt(cs, 0, seq![], seq![]) == Some(Ok::<Seq<char>, RuntimeError>(cs)),
{
    lemma_fmt_plain(cs, 0, seq![]);
    assert(Seq::<char>::empty() + cs.subrange(0, cs.len() as int) =~= cs);
}

/// Formats `literal` with the arguments `args`: see `fmt`.
pub fn format_string(literal: &String, args: Value) -> (r: Result<Value, RuntimeError>)
    requires
        fmt(literal@, 0, format_args(args), seq![]) is Some,
    ensures
        gives(fmt(literal@, 0, format_args(args), seq![])->Some_0, r),
{
    StringFormatter::format(literal, args)
}


// ===== Case ===== //

/// What `str::to_lowercase` gives for `s`.
pub uninterp spec fn lowercase(s: Seq<char>) -> Seq<char>;

/// What `str::to_uppercase` gives for `s`.
pub uninterp spec fn uppercase(s: Seq<char>) -> Seq<char>;

/// `str::to_lowercase`: the Unicode lowercase mapping of the string, in which a character's
/// mapping may depend on its neighbours (a final sigma); it depends on the string alone.
#[verifier::external_body]
fn str_to_lowercase(s: &str) -> (r: String)
    ensures
        r@ == lowercase(s@),
{
    s.to_lowercase()
}

/// `str::to_uppercase`: the Unicode uppercase mapping of the string (one character may map to
/// several); it depends on the string alone.
#[verifier::external_body]
fn str_to_uppercase(s: &str) -> (r: String)
    ensures
        r@ == uppercase(s@),
{
    s.to_uppercase()
}

/// `value` (a string) in lowercase.
pub fn to_lower(value: Value) -> (r: Result<Value, RuntimeError>)
    ensures
        match value {
            Value::Str(s) => r matches Ok(Value::Str(t)) && t@ == lowercase(s@),
            v => r == Err::<Value, RuntimeError>(RuntimeError::TypeErrorArgMustBeStr(v)),
        },
{
    match value {
        Value::Str(s) => Ok(Value::Str(str_to_lowercase(s.as_str()))),
        v => Err(RuntimeError::TypeErrorArgMustBeStr(v)),
    }
}

/// `value` (a string) in uppercase.
pub fn to_upper(value: Value) -> (r: Result<Value, RuntimeError>)
    ensures
        match value {
            Value::Str(s) => r matches Ok(Value::Str(t)) && t@ == uppercase(s@),
            v => r == Err::<Value, RuntimeError>(RuntimeError::TypeErrorArgMustBeStr(v)),
        },
{
    match value {
        Value::Str(s) => Ok(Value::Str(str_to_uppercase(s.as_str()))),
        v => Err(RuntimeError::TypeErrorArgMustBeStr(v)),
    }
}

// ===== Joining ===== //

/// The strings of `xs` with `sep` between each two.
pub open spec fn join_seqs(xs: Seq<Seq<char>>, sep: Seq<char>) -> Seq<char>
    decreases xs.len(),
{
    if xs.len() == 0 {
        seq![]
    } else if xs.len() == 1 {
        xs[0]
    } else {
        join_seqs(xs.drop_last(), sep) + sep + xs.last()
    }
}

/// How the items of an iterable value are printed, in iteration order: the elements of a
/// list, set or vector, the characters of a string, and the entries of a dict as
/// `(key, value)`; `None` for a value that is not iterable.
pub open spec fn item_displays(v: Value) -> Option<Seq<Seq<char>>> {
    match v {
        Value::List(xs) => Some(xs@.map_values(|x: Value| display(x))),
        Value::LinkedSet(xs) => Some(xs@.map_values(|x: Value| display(x))),
        Value::Vector(xs) => Some(xs@.map_values(|x: Value| display(x))),
        Value::Str(s) => Some(s@.map_values(|c: char| seq![c])),
        Value::Dict(kvs) => Some(
            kvs@.map_values(|kv: (Value, Value)| "("@ + repr(kv.0) + ", "@ + repr(kv.1) + ")"@),
        ),
        _ => None,
    }
}

/// `Itertools::join`: the items written one after the other, with `sep` between each two.
#[verifier::external_body]
fn itertools_join(parts: &Vec<String>, sep: &str) -> (r: String)
    ensures
        r@ == join_strings(parts@, sep@),
{
    parts.iter().join(sep)
}

proof fn lemma_join_views(parts: Seq<String>, sep: Seq<char>)
    ensures
        join_strings(parts, sep) == join_seqs(parts.map_values(|p: String| p@), sep),
    decreases parts.len(),
{
    if parts.len() > 1 {
        lemma_join_views(parts.drop_last(), sep);
        assert(parts.drop_last().map_values(|p: String| p@) =~= parts.map_values(|p: String| p@).drop_last());
    }
}

/// The printed items of `it`, as strings.
fn item_strings(it: &Value) -> (r: Option<Vec<String>>)
    ensures
        match item_displays(*it) {
            Some(ds) => r matches Some(v) && v@.map_values(|p: String| p@) == ds,
            None => r is None,
        },
{
    let mut out: Vec<String> = Vec::new();
    match it {
        Value::List(xs) | Value::LinkedSet(xs) | Value::Vector(xs) => {
            let mut k: usize = 0;
            while k < xs.len()
                invariant
                    k <= xs.len(),
                    out.len() == k,
                    forall|i: int| 0 <= i < k ==> (#[trigger] out@[i])@ == display(xs@[i]),
                decreases xs.len() - k,
            {
                out.push(xs[k].to_str());
                k = k + 1;
            }
            proof {
                assert(out@.map_values(|p: String| p@) =~= xs@.map_values(|x: Value| display(x)));
            }
            Some(out)
        },
        Value::Str(s) => {
            let cs = chars_of(s.as_str());
            let mut k: usize = 0;
            while k < cs.len()
                invariant
                    k <= cs.len(),
                    cs@ == s@,
                    out.len() == k,
                    forall|i: int| 0 <= i < k ==> (#[trigger] out@[i])@ == seq![cs@[i]],
                decreases cs.len() - k,
            {
                out.push(char_string(cs[k]));
                k = k + 1;
            }
            proof {
                assert(out@.map_values(|p: String| p@) =~= s@.map_values(|c: char| seq![c]));
            }
            Some(out)
        },
        Value::Dict(kvs) => {
            let mut k: usize = 0;
            while k < kvs.len()
                invariant
                    k <= kvs.len(),
                    out.len() == k,
                    forall|i: int| 0 <= i < k ==> (#[trigger] out@[i])@ == "("@ + repr(kvs@[i].0) + ", "@ + repr(kvs@[i].1) + ")"@,
                decreases kvs.len() - k,
            {
                let mut e = String::new();
                push_str(&mut e, "(");
                kvs[k].0.push_repr(&mut e);
                push_str(&mut e, ", ");
                kvs[k].1.push_repr(&mut e);
                push_str(&mut e, ")");
                out.push(e);
                k = k + 1;
            }
            proof {
                assert(out@.map_values(|p: String| p@) =~= kvs@.map_values(
                    |kv: (Value, Value)| "("@ + repr(kv.0) + ", "@ + repr(kv.1) + ")"@,
                ));
            }
            Some(out)
        },
        _ => None,
    }
}

/// The printed items of `it` (an iterable) joined by `joiner` (a string).
pub fn join(joiner: Value, it: Value) -> (r: Result<Value, RuntimeError>)
    ensures
        match item_displays(it) {
            None => r == Err::<Value, RuntimeError>(RuntimeError::TypeErrorArgMustBeIterable(it)),
            Some(ds) => match joiner {
                Value::Str(sep) => r matches Ok(Value::Str(t)) && t@ == join_seqs(ds, sep@),
                j => r == Err::<Value, RuntimeError>(RuntimeError::TypeErrorArgMustBeStr(j)),
            },
        },
{
    match item_strings(&it) {
        None => Err(RuntimeError::TypeErrorArgMustBeIterable(it)),
        Some(parts) => match joiner {
            Value::Str(sep) => {
                let t = itertools_join(&parts, sep.as_str());
                proof {
                    lemma_join_views(parts@, sep@);
                }
                Ok(Value::Str(t))
            },
            j => Err(RuntimeError::TypeErrorArgMustBeStr(j)),
        },
    }
}


// ===== Regular expressions ===== //

#[verifier::external_type_specification]
#[verifier::external_body]
pub struct ExRegex(fancy_regex::Regex);

/// A compiled regular expression, with the pattern it was compiled from.
pub struct CompiledRegex {
    raw: String,
    regex: fancy_regex::Regex,
}

impl CompiledRegex {
    /// The pattern this was compiled from.
    pub closed spec fn pattern(&self) -> Seq<char> {
        self.raw@
    }
}

/// What `fancy_regex::Regex::new` reports for `pattern`: `None` where it compiles, and the
/// error's message where it does not.
pub uninterp spec fn regex_error(pattern: Seq<char>) -> Option<Seq<char>>;

/// What `fancy_regex::Regex::try_replacen` with no limit gives: `text` with every match of
/// `pattern` replaced by `rep` (where `$` names a group), or `None` where matching fails.
pub uninterp spec fn regex_replace_all(pattern: Seq<char>, text: Seq<char>, rep: Seq<char>) -> Option<Seq<char>>;

/// What `fancy_regex::Regex::captures_from_pos` gives: `None` where matching fails; else the
/// first match from byte offset `pos` on, if any, as the byte offset where it ends and the
/// text of each group (`None` for a group that took no part).
pub uninterp spec fn regex_captures_from(pattern: Seq<char>, text: Seq<char>, pos: nat) -> Option<
    Option<(nat, Seq<Option<Seq<char>>>)>,
>;

/// What `fancy_regex::Regex::find_iter` yields: the byte ranges of the successive matches of
/// `pattern` in `text` up to the first failure, and whether one stopped it.
pub uninterp spec fn regex_find_all(pattern: Seq<char>, text: Seq<char>) -> (Seq<(nat, nat)>, bool);

/// How many bytes UTF-8 takes for `c`.
pub open spec fn utf8_width(c: char) -> nat {
    let u = c as u32;
    if u < 0x80 {
        1
    } else if u < 0x800 {
        2
    } else if u < 0x10000 {
        3
    } else {
        4
    }
}

/// The byte offset of character `k` of `s` in UTF-8.
pub open spec fn utf8_offset(s: Seq<char>, k: int) -> nat
    decreases k,
{
    if k <= 0 || s.len() == 0 {
        0
    } else if k > s.len() {
        utf8_offset(s, s.len() as int)
    } else {
        utf8_offset(s, k - 1) + utf8_width(s[k - 1])
    }
}

/// The character index of byte offset `o` of `s`, where a character starts (or the end).
pub open spec fn char_index(s: Seq<char>, o: nat) -> int {
    choose|j: int| 0 <= j <= s.len() && utf8_offset(s, j) == o
}

/// `o` is where a character of `s` starts, or the end of `s`.
pub open spec fn is_boundary(s: Seq<char>, o: nat) -> bool {
    exists|j: int| 0 <= j <= s.len() && utf8_offset(s, j) == o
}

/// `str::len`: the length of `s` in bytes.
#[verifier::external_body]
fn str_len(s: &str) -> (r: usize)
    ensures
        r == utf8_offset(s@, s@.len() as int),
{
    s.len()
}

/// Compiles `raw` with `fancy_regex::Regex::new`.
#[verifier::external_body]
fn regex_new(raw: &String) -> (r: Result<CompiledRegex, String>)
    ensures
        match r {
            Ok(re) => re.pattern() == raw@ && regex_error(raw@) is None,
            Err(msg) => regex_error(raw@) == Some(msg@),
        },
{
    match fancy_regex::Regex::new(raw.as_str()) {
        Ok(regex) => Ok(CompiledRegex { raw: raw.clone(), regex }),
        Err(e) => Err(e.to_string()),
    }
}

/// `fancy_regex::Regex::try_replacen` with no limit.
#[verifier::external_body]
fn regex_try_replace_all(re: &CompiledRegex, text: &str, rep: &str) -> (r: Option<String>)
    ensures
        match r {
            Some(t) => regex_replace_all(re.pattern(), text@, rep@) == Some(t@),
            None => regex_replace_all(re.pattern(), text@, rep@) is None,
        },
{
    re.regex.try_replacen(text, 0, rep).ok().map(|t| t.into_owned())
}

/// The view of what `regex_captures_at` returns.
pub open spec fn captures_view(r: Option<Option<(usize, Vec<Option<String>>)>>) -> Option<
    Option<(nat, Seq<Option<Seq<char>>>)>,
> {
    match r {
        None => None,
        Some(None) => Some(None),
        Some(Some((end, groups))) => Some(
            Some(
                (
                    end as nat,
                    groups@.map_values(
                        |g: Option<String>|
                            match g {
                                Some(x) => Some(x@),
                                None => None,
                            },
                    ),
                ),
            ),
        ),
    }
}

/// `fancy_regex::Regex::captures_from_pos`, from where a character starts: the match ends
/// within the text, where a character starts.
#[verifier::external_body]
fn regex_captures_at(re: &CompiledRegex, text: &str, pos: usize) -> (r: Option<
    Option<(usize, Vec<Option<String>>)>,
>)
    requires
        is_boundary(text@, pos as nat),
    ensures
        captures_view(r) == regex_captures_from(re.pattern(), text@, pos as nat),
        r matches Some(Some((end, _))) ==> end <= utf8_offset(text@, text@.len() as int) && is_boundary(text@, end as nat),
{
    match re.regex.captures_from_pos(text, pos) {
        Err(_) => None,
        Ok(None) => Some(None),
        Ok(Some(c)) => Some(Some((
            c.get(0).unwrap().end(),
            c.iter().map(|g| g.map(|m| m.as_str().to_string())).collect(),
        ))),
    }
}

/// The matches are in order, do not overlap, and start and end where characters start.
pub open spec fn well_placed(text: Seq<char>, ms: Seq<(nat, nat)>) -> bool {
    &&& forall|k: int| 0 <= k < ms.len() ==> (#[trigger] ms[k]).0 <= ms[k].1
    &&& forall|k: int| 0 < k < ms.len() ==> ms[k - 1].1 <= (#[trigger] ms[k]).0
    &&& forall|k: int| 0 <= k < ms.len() ==> is_boundary(text, (#[trigger] ms[k]).0) && is_boundary(text, ms[k].1)
}

/// `fancy_regex::Regex::find_iter`, up to its first failure: matches come in order, do not
/// overlap, and start and end where characters start.
#[verifier::external_body]
fn regex_find_iter(re: &CompiledRegex, text: &str) -> (r: (Vec<(usize, usize)>, bool))
    ensures
        (r.0@.map_values(|m: (usize, usize)| (m.0 as nat, m.1 as nat)), r.1) == regex_find_all(re.pattern(), text@),
        well_placed(text@, r.0@.map_values(|m: (usize, usize)| (m.0 as nat, m.1 as nat))),
{
    let mut ms = Vec::new();
    for m in re.regex.find_iter(text) {
        match m {
            Ok(m) => ms.push((m.start(), m.end())),
            Err(_) => return (ms, true),
        }
    }
    (ms, false)
}

/// The pattern that `value` compiles to, with tabs and new lines escaped: `None` where
/// `value` is not a string or the pattern does not compile.
pub open spec fn compiled(value: Value) -> Option<Seq<char>> {
    match value {
        Value::Str(s) => if regex_error(escaped(s@)) is None { Some(escaped(s@)) } else { None },
        _ => None,
    }
}

/// The error of compiling `value` is `e`.
pub open spec fn compile_fails_with(value: Value, e: RuntimeError) -> bool {
    match value {
        Value::Str(s) => match regex_error(escaped(s@)) {
            None => false,
            Some(msg) => e matches RuntimeError::ValueErrorCannotCompileRegex(raw, m) && raw@ == escaped(s@) && m@ == msg,
        },
        v => e == RuntimeError::TypeErrorArgMustBeStr(v),
    }
}

/// Compiles `value` (a string) as a pattern, after escaping its tabs and new lines.
fn compile_regex(value: Value) -> (r: Result<CompiledRegex, RuntimeError>)
    ensures
        match r {
            Ok(re) => compiled(value) == Some(re.pattern()),
            Err(e) => compiled(value) is None && compile_fails_with(value, e),
        },
{
    match value {
        Value::Str(s) => {
            let raw = escape_regex(&s);
            match regex_new(&raw) {
                Ok(re) => Ok(re),
                Err(msg) => Err(RuntimeError::ValueErrorCannotCompileRegex(raw, msg)),
            }
        },
        v => Err(RuntimeError::TypeErrorArgMustBeStr(v)),
    }
}

/// A value that would be called to compute each replacement.
pub open spec fn is_evaluable(v: Value) -> bool {
    v is Function || v is StructType
}

/// The replacer would be called for each match: the pattern compiles, the target is a string,
/// and the replacer is a function value.
pub open spec fn calls_replacer(pattern: Value, replacer: Value, target: Value) -> bool {
    compiled(pattern) is Some && target is Str && is_evaluable(replacer)
}

/// Replacing is defined: matching does not fail (`replace_all` would panic where it does).
pub open spec fn replaceable(pattern: Value, replacer: Value, target: Value) -> bool {
    match (compiled(pattern), replacer, target) {
        (Some(raw), Value::Str(rep), Value::Str(t)) => regex_replace_all(raw, t@, rep@) is Some,
        _ => true,
    }
}

/// `r` is what replacing every match of `pattern` in `target` by `replacer` gives.
pub open spec fn replaced(pattern: Value, replacer: Value, target: Value, r: Result<Value, RuntimeError>) -> bool {
    match compiled(pattern) {
        None => r matches Err(e) && compile_fails_with(pattern, e),
        Some(raw) => match target {
            Value::Str(t) => match replacer {
                Value::Str(rep) => r matches Ok(Value::Str(o)) && Some(o@) == regex_replace_all(raw, t@, rep@),
                v => r == Err::<Value, RuntimeError>(RuntimeError::TypeErrorArgMustBeStr(v)),
            },
            v => r == Err::<Value, RuntimeError>(RuntimeError::TypeErrorArgMustBeStr(v)),
        },
    }
}

/// Replaces every match of `pattern` in `target` by `replacer`, in which `$` names a group.
/// Calling a function value for each match is the virtual machine's part, not this one's:
/// that is the one path not taken here.
pub fn replace(pattern: Value, replacer: Value, target: Value) -> (r: Result<Value, RuntimeError>)
    requires
        !calls_replacer(pattern, replacer, target),
        replaceable(pattern, replacer, target),
    ensures
        replaced(pattern, replacer, target, r),
{
    let ghost (p0, r0, t0) = (pattern, replacer, target);
    let regex = match compile_regex(pattern) {
        Ok(re) => re,
        Err(e) => return Err(e),
    };
    let text = match target {
        Value::Str(t) => t,
        v => return Err(RuntimeError::TypeErrorArgMustBeStr(v)),
    };
    let rep = match replacer {
        Value::Str(rep) => rep,
        v => return Err(RuntimeError::TypeErrorArgMustBeStr(v)),
    };
    match regex_try_replace_all(&regex, text.as_str(), rep.as_str()) {
        Some(out) => Ok(Value::Str(out)),
        None => {
            proof {
                assert(replaceable(p0, r0, t0));
                assert(false);
            }
            Ok(Value::Nil)
        },
    }
}

/// `replace`, where matching does not fail; `None` where it does.
pub fn try_replace(pattern: Value, replacer: Value, target: Value) -> (r: Option<Result<Value, RuntimeError>>)
    requires
        !calls_replacer(pattern, replacer, target),
    ensures
        replaceable(pattern, replacer, target) ==> (r matches Some(x) && replaced(pattern, replacer, target, x)),
        !replaceable(pattern, replacer, target) ==> r is None,
{
    match (&pattern, &replacer, &target) {
        (Value::Str(p), Value::Str(rep), Value::Str(t)) => {
            let raw = escape_regex(p);
            match regex_new(&raw) {
                Err(_) => {},
                Ok(re) => {
                    if regex_try_replace_all(&re, t.as_str(), rep.as_str()).is_none() {
                        return None;
                    }
                },
            }
        },
        _ => {},
    }
    Some(replace(pattern, replacer, target))
}

// ===== Searching and splitting ===== //

/// The groups of each match of `pat` in `text` from byte offset `start` on: `None` where
/// matching fails, a group takes no part in a match, or a match ends where the search
/// started (from which the search would find it again, forever).
pub open spec fn search_from(pat: Seq<char>, text: Seq<char>, start: nat) -> Option<Seq<Seq<Seq<char>>>>
    decreases utf8_offset(text, text.len() as int) - start,
{
    match regex_captures_from(pat, text, start) {
        None => None,
        Some(None) => Some(seq![]),
        Some(Some((end, groups))) => {
            if end <= start || end > utf8_offset(text, text.len() as int) || exists|k: int|
                0 <= k < groups.len() && #[trigger] groups[k] is None {
                None
            } else {
                match search_from(pat, text, end) {
                    None => None,
                    Some(rest) => Some(seq![groups.map_values(|g: Option<Seq<char>>| g->Some_0)] + rest),
                }
            }
        },
    }
}

/// `v` is a vector of the strings `row`.
pub open spec fn is_str_vector(v: Value, row: Seq<Seq<char>>) -> bool {
    v matches Value::Vector(gs) && gs@.len() == row.len() && forall|j: int|
        0 <= j < row.len() ==> ((#[trigger] gs@[j]) matches Value::Str(x) && x@ == row[j])
}

/// `v` is a list of vectors of the strings `rows`.
pub open spec fn is_rows(v: Value, rows: Seq<Seq<Seq<char>>>) -> bool {
    v matches Value::List(xs) && xs@.len() == rows.len() && forall|i: int|
        0 <= i < rows.len() ==> is_str_vector(#[trigger] xs@[i], rows[i])
}

/// `v` is a list of the strings `items`.
pub open spec fn is_str_list(v: Value, items: Seq<Seq<char>>) -> bool {
    v matches Value::List(xs) && xs@.len() == items.len() && forall|i: int|
        0 <= i < items.len() ==> ((#[trigger] xs@[i]) matches Value::Str(x) && x@ == items[i])
}

/// The groups of each match of `regex` in `text`: see `search_from`.
#[verifier::loop_isolation(false)]
fn search_rows(regex: &CompiledRegex, text: &String) -> (r: Option<Vec<Value>>)
    ensures
        match search_from(regex.pattern(), text@, 0) {
            Some(rows) => r matches Some(v) && is_rows(Value::List(v), rows),
            None => r is None,
        },
{
    let ghost raw = regex.pattern();
    let ghost all = search_from(raw, text@, 0);
    let len = str_len(text.as_str());
    let mut start: usize = 0;
    proof {
        assert(0 <= 0 <= text@.len() && utf8_offset(text@, 0) == 0);
    }
    let mut rows: Vec<Value> = Vec::new();
    let ghost mut done: Seq<Seq<Seq<char>>> = seq![];
    loop
        invariant
            raw == regex.pattern(),
            raw == regex.raw@,
            len == utf8_offset(text@, text@.len() as int),
            start <= len,
            is_boundary(text@, start as nat),
            rows@.len() == done.len(),
            forall|i: int| 0 <= i < done.len() ==> is_str_vector(#[trigger] rows@[i], done[i]),
            all == match search_from(raw, text@, start as nat) {
                None => None,
                Some(rest) => Some(done + rest),
            },
        decreases len - start,
    {
        match regex_captures_at(&regex, text.as_str(), start) {
            None => {
                return None;
            },
            Some(None) => {
                proof {
                    assert(done + seq![] =~= done);
                }
                break;
            },
            Some(Some((end, groups))) => {
                let ghost gv = groups@.map_values(
                    |g: Option<String>|
                        match g {
                            Some(x) => Some(x@),
                            None => None,
                        },
                );
                if end <= start {
                    return None;
                }
                let mut row: Vec<Value> = Vec::new();
                let mut k: usize = 0;
                while k < groups.len()
                    invariant
                        k <= groups.len(),
                        row@.len() == k,
                        forall|j: int| 0 <= j < k ==> (#[trigger] groups@[j]) is Some && (row@[j] matches Value::Str(x) && x@ == groups@[j]->Some_0@),
                    decreases groups.len() - k,
                {
                    match &groups[k] {
                        Some(x) => row.push(Value::Str(x.clone())),
                        None => {
                            proof {
                                assert(groups@[k as int] is None);
                                assert(gv[k as int] is None);
                            }
                            return None;
                        },
                    }
                    k = k + 1;
                }
                let ghost grow = gv.map_values(|g: Option<Seq<char>>| g->Some_0);
                proof {
                    assert(!(exists|j: int| 0 <= j < gv.len() && #[trigger] gv[j] is None));
                    assert forall|j: int| 0 <= j < grow.len() implies (#[trigger] row@[j]) matches Value::Str(x) && x@ == grow[j] by {
                        assert(groups@[j] is Some);
                        assert(gv[j] == Some(groups@[j]->Some_0@));
                    }
                    assert(is_str_vector(Value::Vector(row), grow));
                    assert(done.push(grow) + search_from(raw, text@, end as nat)->Some_0 =~= done + (seq![grow] + search_from(raw, text@, end as nat)->Some_0));
                }
                rows.push(Value::Vector(row));
                proof {
                    done = done.push(grow);
                }
                start = end;
            },
        }
    }
    Some(rows)
}

/// Searching is defined: matching does not fail, every group of every match takes part, and
/// no match ends where its search started (which would be found again, forever).
pub open spec fn searchable(pattern: Value, target: Value) -> bool {
    match (compiled(pattern), target) {
        (Some(raw), Value::Str(t)) => search_from(raw, t@, 0) is Some,
        _ => true,
    }
}

/// `r` is what searching `target` for `pattern` gives.
pub open spec fn searched(pattern: Value, target: Value, r: Result<Value, RuntimeError>) -> bool {
    match compiled(pattern) {
        None => r matches Err(e) && compile_fails_with(pattern, e),
        Some(raw) => match target {
            Value::Str(t) => r matches Ok(v) && is_rows(v, search_from(raw, t@, 0)->Some_0),
            v => r == Err::<Value, RuntimeError>(RuntimeError::TypeErrorArgMustBeStr(v)),
        },
    }
}

/// The groups of each match of `pattern` in `target`, as a list of vectors of strings.
pub fn search(pattern: Value, target: Value) -> (r: Result<Value, RuntimeError>)
    requires
        searchable(pattern, target),
    ensures
        searched(pattern, target, r),
{
    let ghost (p0, t0) = (pattern, target);
    let regex = match compile_regex(pattern) {
        Ok(re) => re,
        Err(e) => return Err(e),
    };
    let text = match target {
        Value::Str(t) => t,
        v => return Err(RuntimeError::TypeErrorArgMustBeStr(v)),
    };
    match search_rows(&regex, &text) {
        Some(rows) => Ok(Value::List(rows)),
        None => {
            proof {
                assert(searchable(p0, t0));
                assert(false);
            }
            Ok(Value::Nil)
        },
    }
}

/// `search`, where searching ends; `None` where matching fails, a group takes no part in a
/// match, or the search would find the same empty match forever.
pub fn try_search(pattern: Value, target: Value) -> (r: Option<Result<Value, RuntimeError>>)
    ensures
        searchable(pattern, target) ==> (r matches Some(x) && searched(pattern, target, x)),
        !searchable(pattern, target) ==> r is None,
{
    match (&pattern, &target) {
        (Value::Str(p), Value::Str(t)) => {
            let raw = escape_regex(p);
            match regex_new(&raw) {
                Err(_) => {},
                Ok(re) => {
                    if search_rows(&re, t).is_none() {
                        return None;
                    }
                },
            }
        },
        _ => {},
    }
    Some(search(pattern, target))
}

/// The pieces of `text` around the matches `ms` (byte ranges): before the first match, between
/// each two, and after the last, unless a failure stopped the matching.
pub open spec fn split_pieces(text: Seq<char>, ms: Seq<(nat, nat)>, failed: bool) -> Seq<Seq<char>> {
    Seq::new(
        ms.len(),
        |k: int|
            text.subrange(
                char_index(text, if k == 0 { 0 } else { ms[k - 1].1 }),
                char_index(text, ms[k].0),
            ),
    ) + if failed {
        seq![]
    } else {
        seq![
            text.subrange(
                char_index(text, if ms.len() == 0 { 0 } else { ms.last().1 }),
                text.len() as int,
            ),
        ]
    }
}

proof fn lemma_offset_step(s: Seq<char>, j: int)
    requires
        0 <= j < s.len(),
    ensures
        utf8_offset(s, j + 1) == utf8_offset(s, j) + utf8_width(s[j]),
{
}

proof fn lemma_offset_mono(s: Seq<char>, a: int, b: int)
    requires
        0 <= a < b <= s.len(),
    ensures
        utf8_offset(s, a) < utf8_offset(s, b),
    decreases b - a,
{
    lemma_offset_step(s, b - 1);
    if a < b - 1 {
        lemma_offset_mono(s, a, b - 1);
    }
}

proof fn lemma_char_index(s: Seq<char>, j: int)
    requires
        0 <= j <= s.len(),
    ensures
        char_index(s, utf8_offset(s, j)) == j,
{
    let o = utf8_offset(s, j);
    assert(0 <= j <= s.len() && utf8_offset(s, j) == o);
    let k = char_index(s, o);
    assert(0 <= k <= s.len() && utf8_offset(s, k) == o);
    if k < j {
        lemma_offset_mono(s, k, j);
    } else if j < k {
        lemma_offset_mono(s, j, k);
    }
}

fn utf8_width_exec(c: char) -> (r: usize)
    ensures
        r == utf8_width(c),
{
    let u = c as u32;
    if u < 0x80 {
        1
    } else if u < 0x800 {
        2
    } else if u < 0x10000 {
        3
    } else {
        4
    }
}

/// The byte offset of each character of `cs`, and of its end.
fn utf8_offsets(cs: &Vec<char>, total: usize) -> (r: Vec<usize>)
    requires
        total == utf8_offset(cs@, cs@.len() as int),
    ensures
        r@.len() == cs@.len() + 1,
        forall|j: int| 0 <= j <= cs@.len() ==> #[trigger] r@[j] == utf8_offset(cs@, j),
{
    let mut r: Vec<usize> = Vec::new();
    r.push(0);
    let mut k: usize = 0;
    while k < cs.len()
        invariant
            k <= cs.len(),
            total == utf8_offset(cs@, cs@.len() as int),
            r@.len() == k + 1,
            forall|j: int| 0 <= j <= k ==> #[trigger] r@[j] == utf8_offset(cs@, j),
        decreases cs.len() - k,
    {
        proof {
            lemma_offset_step(cs@, k as int);
            if k + 1 < cs.len() {
                lemma_offset_mono(cs@, k + 1, cs@.len() as int);
            }
        }
        let next = r[k] + utf8_width_exec(cs[k]);
        r.push(next);
        k = k + 1;
    }
    r
}

/// The character index at byte offset `o`, where a character starts (or the end).
fn index_at(cs: &Vec<char>, offs: &Vec<usize>, o: usize) -> (r: usize)
    requires
        offs@.len() == cs@.len() + 1,
        forall|j: int| 0 <= j <= cs@.len() ==> #[trigger] offs@[j] == utf8_offset(cs@, j),
        is_boundary(cs@, o as nat),
    ensures
        r <= cs@.len(),
        r == char_index(cs@, o as nat),
{
    let ghost j0 = choose|j: int| 0 <= j <= cs@.len() && utf8_offset(cs@, j) == o;
    let mut k: usize = 0;
    while k < offs.len() && offs[k] != o
        invariant
            k <= offs@.len(),
            offs@.len() == cs@.len() + 1,
            forall|j: int| 0 <= j <= cs@.len() ==> #[trigger] offs@[j] == utf8_offset(cs@, j),
            0 <= j0 <= cs@.len() && utf8_offset(cs@, j0) == o,
            forall|i: int| 0 <= i < k ==> #[trigger] offs@[i] != o,
        decreases offs.len() - k,
    {
        k = k + 1;
    }
    proof {
        if k == offs.len() {
            assert(offs@[j0] == o);
        }
        lemma_char_index(cs@, k as int);
    }
    k
}

/// `target` split around the matches of `pattern`; an empty pattern splits it into its
/// characters.
#[verifier::loop_isolation(false)]
pub fn split(pattern: Value, target: Value) -> (r: Result<Value, RuntimeError>)
    ensures
        match pattern {
            Value::Str(p) => match target {
                Value::Str(t) => if p@.len() == 0 {
                    r matches Ok(v) && is_str_list(v, t@.map_values(|c: char| seq![c]))
                } else {
                    match compiled(pattern) {
                        None => r matches Err(e) && compile_fails_with(pattern, e),
                        Some(raw) => r matches Ok(v) && is_str_list(
                            v,
                            split_pieces(t@, regex_find_all(raw, t@).0, regex_find_all(raw, t@).1),
                        ),
                    }
                },
                v => r == Err::<Value, RuntimeError>(RuntimeError::TypeErrorArgMustBeStr(v)),
            },
            v => r == Err::<Value, RuntimeError>(RuntimeError::TypeErrorArgMustBeStr(v)),
        },
{
    let ghost pv = pattern;
    let p = match pattern {
        Value::Str(p) => p,
        v => return Err(RuntimeError::TypeErrorArgMustBeStr(v)),
    };
    let t = match target {
        Value::Str(t) => t,
        v => return Err(RuntimeError::TypeErrorArgMustBeStr(v)),
    };
    let cs = chars_of(t.as_str());
    let mut pieces: Vec<Value> = Vec::new();
    if chars_of(p.as_str()).len() == 0 {
        let mut k: usize = 0;
        while k < cs.len()
            invariant
                k <= cs.len(),
                cs@ == t@,
                pieces@.len() == k,
                forall|i: int| 0 <= i < k ==> ((#[trigger] pieces@[i]) matches Value::Str(x) && x@ == seq![cs@[i]]),
            decreases cs.len() - k,
        {
            pieces.push(Value::Str(char_string(cs[k])));
            k = k + 1;
        }
        return Ok(Value::List(pieces));
    }
    let regex = match compile_regex(Value::Str(p)) {
        Ok(re) => re,
        Err(e) => return Err(e),
    };
    let ghost raw = regex.pattern();
    let (ms, failed) = regex_find_iter(&regex, t.as_str());
    let ghost msv = ms@.map_values(|m: (usize, usize)| (m.0 as nat, m.1 as nat));
    let ghost want = split_pieces(t@, msv, failed);
    let total = str_len(t.as_str());
    let offs = utf8_offsets(&cs, total);
    proof {
        assert(0 <= 0 <= cs@.len() && utf8_offset(cs@, 0) == 0);
        assert(is_boundary(cs@, 0));
    }
    let mut last: usize = 0;
    let mut k: usize = 0;
    while k < ms.len()
        invariant
            k <= ms.len(),
            cs@ == t@,
            pieces@.len() == k,
            is_boundary(cs@, last as nat),
            last as nat == (if k == 0 { 0 } else { msv[k - 1].1 }),
            forall|i: int| 0 <= i < k ==> ((#[trigger] pieces@[i]) matches Value::Str(x) && x@ == want[i]),
        decreases ms.len() - k,
    {
        let (a, b) = ms[k];
        proof {
            assert(msv[k as int] == (a as nat, b as nat));
            if k > 0 {
                assert(msv[k - 1].1 <= msv[k as int].0);
            }
        }
        let il = index_at(&cs, &offs, last);
        let ia = index_at(&cs, &offs, a);
        proof {
            if il > ia {
                lemma_offset_mono(cs@, ia as int, il as int);
            }
        }
        pieces.push(Value::Str(string_of_range(&cs, il, ia)));
        last = b;
        k = k + 1;
    }
    if !failed {
        let il = index_at(&cs, &offs, last);
        pieces.push(Value::Str(string_of_range(&cs, il, cs.len())));
    }
    proof {
        assert forall|i: int| 0 <= i < want.len() implies ((#[trigger] pieces@[i]) matches Value::Str(x) && x@ == want[i]) by {}
    }
    Ok(Value::List(pieces))
}

// ===== Replacing by given strings ===== //

/// `pieces[0] + reps[0] + ... + pieces[k - 1] + reps[k - 1]`.
pub open spec fn spliced(pieces: Seq<Seq<char>>, reps: Seq<Seq<char>>, k: nat) -> Seq<char>
    decreases k,
{
    if k == 0 {
        seq![]
    } else {
        spliced(pieces, reps, (k - 1) as nat) + pieces[k - 1] + reps[k - 1]
    }
}

/// `r` is what replacing the matches of `pattern` in `target`, in order, by `reps` gives:
/// `None` where matching fails or there are not as many strings as matches.
pub open spec fn replaced_each(pattern: Value, target: Value, reps: Seq<Seq<char>>, r: Option<Result<Value, RuntimeError>>) -> bool {
    match compiled(pattern) {
        None => r matches Some(Err(e)) && compile_fails_with(pattern, e),
        Some(raw) => match target {
            Value::Str(t) => {
                let ms = regex_find_all(raw, t@).0;
                let pieces = split_pieces(t@, ms, false);
                if regex_find_all(raw, t@).1 || reps.len() != ms.len() {
                    r is None
                } else {
                    r matches Some(Ok(Value::Str(o))) && o@ == spliced(pieces, reps, ms.len()) + pieces[ms.len() as int]
                }
            },
            v => r == Some(Err::<Value, RuntimeError>(RuntimeError::TypeErrorArgMustBeStr(v))),
        },
    }
}

/// Replaces the matches of `pattern` in `target`, in order, by the strings `reps`, one for
/// each match. This is the part of replacing by a function value that is no call: the
/// function's results for the matches (see `search`) are the strings given.
#[verifier::loop_isolation(false)]
pub fn replace_each(pattern: Value, target: Value, reps: Vec<String>) -> (r: Option<Result<Value, RuntimeError>>)
    ensures
        replaced_each(pattern, target, reps@.map_values(|x: String| x@), r),
{
    let ghost repv = reps@.map_values(|x: String| x@);
    let regex = match compile_regex(pattern) {
        Ok(re) => re,
        Err(e) => return Some(Err(e)),
    };
    let t = match target {
        Value::Str(t) => t,
        v => return Some(Err(RuntimeError::TypeErrorArgMustBeStr(v))),
    };
    let ghost raw = regex.pattern();
    let (ms, failed) = regex_find_iter(&regex, t.as_str());
    if failed || ms.len() != reps.len() {
        return None;
    }
    let ghost msv = ms@.map_values(|m: (usize, usize)| (m.0 as nat, m.1 as nat));
    let ghost want = split_pieces(t@, msv, false);
    let cs = chars_of(t.as_str());
    let total = str_len(t.as_str());
    let offs = utf8_offsets(&cs, total);
    proof {
        assert(0 <= 0 <= cs@.len() && utf8_offset(cs@, 0) == 0);
        assert(is_boundary(cs@, 0));
    }
    let mut out = String::new();
    let mut last: usize = 0;
    let mut k: usize = 0;
    while k < ms.len()
        invariant
            k <= ms.len(),
            ms.len() == reps.len(),
            cs@ == t@,
            is_boundary(cs@, last as nat),
            last as nat == (if k == 0 { 0 } else { msv[k - 1].1 }),
            out@ == spliced(want, repv, k as nat),
        decreases ms.len() - k,
    {
        let (a, b) = ms[k];
        proof {
            assert(msv[k as int] == (a as nat, b as nat));
            if k > 0 {
                assert(msv[k - 1].1 <= msv[k as int].0);
            }
        }
        let il = index_at(&cs, &offs, last);
        let ia = index_at(&cs, &offs, a);
        proof {
            if il > ia {
                lemma_offset_mono(cs@, ia as int, il as int);
            }
        }
        let ghost before = out@;
        push_range(&mut out, &cs, il, ia);
        push_str(&mut out, reps[k].as_str());
        proof {
            assert(want[k as int] == cs@.subrange(il as int, ia as int));
            assert(repv[k as int] == reps@[k as int]@);
            assert(spliced(want, repv, (k + 1) as nat) == before + want[k as int] + repv[k as int]);
        }
        last = b;
        k = k + 1;
    }
    let il = index_at(&cs, &offs, last);
    push_range(&mut out, &cs, il, cs.len());
    proof {
        assert(want[ms.len() as int] == cs@.subrange(il as int, cs@.len() as int));
    }
    Some(Ok(Value::Str(out)))
}

} // verus!
