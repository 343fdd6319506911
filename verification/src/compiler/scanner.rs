//! The scanner: turns source text into a sequence of `ScanToken`s and `ScanError`s.
use vstd::prelude::*;

use crate::text::{chars_of, range_eq, string_of_range};

verus! {

/// A lexical token of the source text.
#[derive(Eq, PartialEq, Debug, Clone)]
pub enum ScanToken {
    Identifier(String),
    StringLiteral(String),
    Int(i64),

    KeywordLet,
    KeywordFn,
    KeywordIf,
    KeywordElif,
    KeywordElse,
    KeywordLoop,
    KeywordFor,
    KeywordIn,
    KeywordIs,
    KeywordBreak,
    KeywordContinue,
    KeywordTrue,
    KeywordFalse,
    KeywordNil,
    KeywordStruct,
    KeywordInt,
    KeywordStr,
    KeywordBool,

    Equals,
    PlusEquals,
    MinusEquals,
    MulEquals,
    DivEquals,
    AndEquals,
    OrEquals,
    XorEquals,
    LeftShiftEquals,
    RightShiftEquals,
    ModEquals,
    PowEquals,

    Plus,
    Minus,
    Mul,
    Div,
    BitwiseAnd,
    BitwiseOr,
    BitwiseXor,
    Mod,
    Pow,
    LeftShift,
    RightShift,

    LogicalNot,
    BitwiseNot,

    LogicalAnd,
    LogicalOr,

    NotEquals,
    DoubleEquals,
    LessThan,
    LessThanEquals,
    GreaterThan,
    GreaterThanEquals,

    OpenParen,
    CloseParen,
    OpenSquareBracket,
    CloseSquareBracket,
    OpenBrace,
    CloseBrace,

    Comma,
    Dot,
    Colon,
    Arrow,
    Underscore,

    NewLine,
}

/// The kinds of error the scanner reports.
#[derive(Eq, PartialEq, Debug, Clone)]
pub enum ScanErrorType {
    /// A `0` followed by a letter that is neither `x` nor `b`.
    InvalidNumericPrefix(char),
    /// A numeric literal (its text) that has no digits or does not fit in an `i64`.
    InvalidNumericValue(String),
    InvalidCharacter(char),
    UnterminatedStringLiteral,
}

#[derive(Eq, PartialEq, Debug, Clone)]
pub struct ScanError {
    pub error: ScanErrorType,
    pub lineno: usize,
}

pub struct ScanResult {
    pub tokens: Vec<ScanToken>,
    pub errors: Vec<ScanError>,
}

impl ScanToken {
    /// Tokens that carry no text or number.
    pub open spec fn is_plain(self) -> bool {
        !(self is Identifier || self is StringLiteral || self is Int)
    }

    /// Whether this token is `other`, a token that carries no text or number.
    pub fn is_plain_token(&self, other: &ScanToken) -> (r: bool)
        requires
            other.is_plain(),
        ensures
            r == (*self == *other),
    {
        match other {
            ScanToken::KeywordLet => matches!(self, ScanToken::KeywordLet),
            ScanToken::KeywordFn => matches!(self, ScanToken::KeywordFn),
            ScanToken::KeywordIf => matches!(self, ScanToken::KeywordIf),
            ScanToken::KeywordElif => matches!(self, ScanToken::KeywordElif),
            ScanToken::KeywordElse => matches!(self, ScanToken::KeywordElse),
            ScanToken::KeywordLoop => matches!(self, ScanToken::KeywordLoop),
            ScanToken::KeywordFor => matches!(self, ScanToken::KeywordFor),
            ScanToken::KeywordIn => matches!(self, ScanToken::KeywordIn),
            ScanToken::KeywordIs => matches!(self, ScanToken::KeywordIs),
            ScanToken::KeywordBreak => matches!(self, ScanToken::KeywordBreak),
            ScanToken::KeywordContinue => matches!(self, ScanToken::KeywordContinue),
            ScanToken::KeywordTrue => matches!(self, ScanToken::KeywordTrue),
            ScanToken::KeywordFalse => matches!(self, ScanToken::KeywordFalse),
            ScanToken::KeywordNil => matches!(self, ScanToken::KeywordNil),
            ScanToken::KeywordStruct => matches!(self, ScanToken::KeywordStruct),
            ScanToken::KeywordInt => matches!(self, ScanToken::KeywordInt),
            ScanToken::KeywordStr => matches!(self, ScanToken::KeywordStr),
            ScanToken::KeywordBool => matches!(self, ScanToken::KeywordBool),
            ScanToken::Equals => matches!(self, ScanToken::Equals),
            ScanToken::PlusEquals => matches!(self, ScanToken::PlusEquals),
            ScanToken::MinusEquals => matches!(self, ScanToken::MinusEquals),
            ScanToken::MulEquals => matches!(self, ScanToken::MulEquals),
            ScanToken::DivEquals => matches!(self, ScanToken::DivEquals),
            ScanToken::AndEquals => matches!(self, ScanToken::AndEquals),
            ScanToken::OrEquals => matches!(self, ScanToken::OrEquals),
            ScanToken::XorEquals => matches!(self, ScanToken::XorEquals),
            ScanToken::LeftShiftEquals => matches!(self, ScanToken::LeftShiftEquals),
            ScanToken::RightShiftEquals => matches!(self, ScanToken::RightShiftEquals),
            ScanToken::ModEquals => matches!(self, ScanToken::ModEquals),
            ScanToken::PowEquals => matches!(self, ScanToken::PowEquals),
            ScanToken::Plus => matches!(self, ScanToken::Plus),
            ScanToken::Minus => matches!(self, ScanToken::Minus),
            ScanToken::Mul => matches!(self, ScanToken::Mul),
            ScanToken::Div => matches!(self, ScanToken::Div),
            ScanToken::BitwiseAnd => matches!(self, ScanToken::BitwiseAnd),
            ScanToken::BitwiseOr => matches!(self, ScanToken::BitwiseOr),
            ScanToken::BitwiseXor => matches!(self, ScanToken::BitwiseXor),
            ScanToken::Mod => matches!(self, ScanToken::Mod),
            ScanToken::Pow => matches!(self, ScanToken::Pow),
            ScanToken::LeftShift => matches!(self, ScanToken::LeftShift),
            ScanToken::RightShift => matches!(self, ScanToken::RightShift),
            ScanToken::LogicalNot => matches!(self, ScanToken::LogicalNot),
            ScanToken::BitwiseNot => matches!(self, ScanToken::BitwiseNot),
            ScanToken::LogicalAnd => matches!(self, ScanToken::LogicalAnd),
            ScanToken::LogicalOr => matches!(self, ScanToken::LogicalOr),
            ScanToken::NotEquals => matches!(self, ScanToken::NotEquals),
            ScanToken::DoubleEquals => matches!(self, ScanToken::DoubleEquals),
            ScanToken::LessThan => matches!(self, ScanToken::LessThan),
            ScanToken::LessThanEquals => matches!(self, ScanToken::LessThanEquals),
            ScanToken::GreaterThan => matches!(self, ScanToken::GreaterThan),
            ScanToken::GreaterThanEquals => matches!(self, ScanToken::GreaterThanEquals),
            ScanToken::OpenParen => matches!(self, ScanToken::OpenParen),
            ScanToken::CloseParen => matches!(self, ScanToken::CloseParen),
            ScanToken::OpenSquareBracket => matches!(self, ScanToken::OpenSquareBracket),
            ScanToken::CloseSquareBracket => matches!(self, ScanToken::CloseSquareBracket),
            ScanToken::OpenBrace => matches!(self, ScanToken::OpenBrace),
            ScanToken::CloseBrace => matches!(self, ScanToken::CloseBrace),
            ScanToken::Comma => matches!(self, ScanToken::Comma),
            ScanToken::Dot => matches!(self, ScanToken::Dot),
            ScanToken::Colon => matches!(self, ScanToken::Colon),
            ScanToken::Arrow => matches!(self, ScanToken::Arrow),
            ScanToken::Underscore => matches!(self, ScanToken::Underscore),
            ScanToken::NewLine => matches!(self, ScanToken::NewLine),
            _ => false,
        }
    }

    /// Whether two tokens are the same token: tokens that carry text are the same where their
    /// texts have the same characters; all others where they are equal.
    pub open spec fn same_token(self, other: ScanToken) -> bool {
        match (self, other) {
            (ScanToken::Identifier(a), ScanToken::Identifier(b)) => a@ == b@,
            (ScanToken::StringLiteral(a), ScanToken::StringLiteral(b)) => a@ == b@,
            _ => self == other,
        }
    }

    /// Whether this token is the same token as `other`.
    pub fn is_token(&self, other: &ScanToken) -> (r: bool)
        ensures
            r == self.same_token(*other),
    {
        match other {
            ScanToken::Identifier(b) => match self {
                ScanToken::Identifier(a) => *a == *b,
                _ => false,
            },
            ScanToken::StringLiteral(b) => match self {
                ScanToken::StringLiteral(a) => *a == *b,
                _ => false,
            },
            ScanToken::Int(j) => match self {
                ScanToken::Int(i) => *i == *j,
                _ => false,
            },
            _ => self.is_plain_token(other),
        }
    }

    /// A copy of this token.
    pub fn duplicate(&self) -> (r: ScanToken)
        ensures
            r == *self,
    {
        match self {
            ScanToken::Identifier(s) => ScanToken::Identifier(s.clone()),
            ScanToken::StringLiteral(s) => ScanToken::StringLiteral(s.clone()),
            ScanToken::Int(i) => ScanToken::Int(*i),
            ScanToken::KeywordLet => ScanToken::KeywordLet,
            ScanToken::KeywordFn => ScanToken::KeywordFn,
            ScanToken::KeywordIf => ScanToken::KeywordIf,
            ScanToken::KeywordElif => ScanToken::KeywordElif,
            ScanToken::KeywordElse => ScanToken::KeywordElse,
            ScanToken::KeywordLoop => ScanToken::KeywordLoop,
            ScanToken::KeywordFor => ScanToken::KeywordFor,
            ScanToken::KeywordIn => ScanToken::KeywordIn,
            ScanToken::KeywordIs => ScanToken::KeywordIs,
            ScanToken::KeywordBreak => ScanToken::KeywordBreak,
            ScanToken::KeywordContinue => ScanToken::KeywordContinue,
            ScanToken::KeywordTrue => ScanToken::KeywordTrue,
            ScanToken::KeywordFalse => ScanToken::KeywordFalse,
            ScanToken::KeywordNil => ScanToken::KeywordNil,
            ScanToken::KeywordStruct => ScanToken::KeywordStruct,
            ScanToken::KeywordInt => ScanToken::KeywordInt,
            ScanToken::KeywordStr => ScanToken::KeywordStr,
            ScanToken::KeywordBool => ScanToken::KeywordBool,
            ScanToken::Equals => ScanToken::Equals,
            ScanToken::PlusEquals => ScanToken::PlusEquals,
            ScanToken::MinusEquals => ScanToken::MinusEquals,
            ScanToken::MulEquals => ScanToken::MulEquals,
            ScanToken::DivEquals => ScanToken::DivEquals,
            ScanToken::AndEquals => ScanToken::AndEquals,
            ScanToken::OrEquals => ScanToken::OrEquals,
            ScanToken::XorEquals => ScanToken::XorEquals,
            ScanToken::LeftShiftEquals => ScanToken::LeftShiftEquals,
            ScanToken::RightShiftEquals => ScanToken::RightShiftEquals,
            ScanToken::ModEquals => ScanToken::ModEquals,
            ScanToken::PowEquals => ScanToken::PowEquals,
            ScanToken::Plus => ScanToken::Plus,
            ScanToken::Minus => ScanToken::Minus,
            ScanToken::Mul => ScanToken::Mul,
            ScanToken::Div => ScanToken::Div,
            ScanToken::BitwiseAnd => ScanToken::BitwiseAnd,
            ScanToken::BitwiseOr => ScanToken::BitwiseOr,
            ScanToken::BitwiseXor => ScanToken::BitwiseXor,
            ScanToken::Mod => ScanToken::Mod,
            ScanToken::Pow => ScanToken::Pow,
            ScanToken::LeftShift => ScanToken::LeftShift,
            ScanToken::RightShift => ScanToken::RightShift,
            ScanToken::LogicalNot => ScanToken::LogicalNot,
            ScanToken::BitwiseNot => ScanToken::BitwiseNot,
            ScanToken::LogicalAnd => ScanToken::LogicalAnd,
            ScanToken::LogicalOr => ScanToken::LogicalOr,
            ScanToken::NotEquals => ScanToken::NotEquals,
            ScanToken::DoubleEquals => ScanToken::DoubleEquals,
            ScanToken::LessThan => ScanToken::LessThan,
            ScanToken::LessThanEquals => ScanToken::LessThanEquals,
            ScanToken::GreaterThan => ScanToken::GreaterThan,
            ScanToken::GreaterThanEquals => ScanToken::GreaterThanEquals,
            ScanToken::OpenParen => ScanToken::OpenParen,
            ScanToken::CloseParen => ScanToken::CloseParen,
            ScanToken::OpenSquareBracket => ScanToken::OpenSquareBracket,
            ScanToken::CloseSquareBracket => ScanToken::CloseSquareBracket,
            ScanToken::OpenBrace => ScanToken::OpenBrace,
            ScanToken::CloseBrace => ScanToken::CloseBrace,
            ScanToken::Comma => ScanToken::Comma,
            ScanToken::Dot => ScanToken::Dot,
            ScanToken::Colon => ScanToken::Colon,
            ScanToken::Arrow => ScanToken::Arrow,
            ScanToken::Underscore => ScanToken::Underscore,
            ScanToken::NewLine => ScanToken::NewLine,
        }
    }
}

// ===== The lexical grammar, stated over characters ===== //

/// What one step of the scanner produces: a token whose text is viewed as characters,
/// an error, or nothing (white space).
pub enum Lexeme {
    Plain(ScanToken),
    Word(Seq<char>),
    Number(i64),
    Text(Seq<char>),
    Failure(SpecScanErrorType),
    Blank,
}

pub enum SpecScanErrorType {
    InvalidNumericPrefix(char),
    InvalidNumericValue(Seq<char>),
    InvalidCharacter(char),
    UnterminatedStringLiteral,
}

/// `t` is the token that the lexeme `x` stands for.
pub open spec fn token_is(t: ScanToken, x: Lexeme) -> bool {
    match x {
        Lexeme::Plain(p) => p.is_plain() && t == p,
        Lexeme::Word(w) => t matches ScanToken::Identifier(s) && s@ == w,
        Lexeme::Number(n) => t == ScanToken::Int(n),
        Lexeme::Text(w) => t matches ScanToken::StringLiteral(s) && s@ == w,
        _ => false,
    }
}

/// `e` is the error that `x` stands for.
pub open spec fn error_is(e: ScanErrorType, x: SpecScanErrorType) -> bool {
    match x {
        SpecScanErrorType::InvalidNumericPrefix(c) => e == ScanErrorType::InvalidNumericPrefix(c),
        SpecScanErrorType::InvalidNumericValue(w) => e matches ScanErrorType::InvalidNumericValue(s) && s@ == w,
        SpecScanErrorType::InvalidCharacter(c) => e == ScanErrorType::InvalidCharacter(c),
        SpecScanErrorType::UnterminatedStringLiteral => e == ScanErrorType::UnterminatedStringLiteral,
    }
}

pub open spec fn is_alpha(c: char) -> bool {
    ('a' <= c && c <= 'z') || ('A' <= c && c <= 'Z')
}

pub open spec fn is_digit(c: char) -> bool {
    '0' <= c && c <= '9'
}

pub open spec fn is_ident_start(c: char) -> bool {
    is_alpha(c) || c == '_'
}

pub open spec fn is_ident_char(c: char) -> bool {
    is_ident_start(c) || is_digit(c)
}

/// The value of `c` as a digit in `base` (2, 10 or 16), if it is one.
pub open spec fn digit_value(c: char, base: nat) -> Option<nat> {
    let v: int = if is_digit(c) {
        c as int - '0' as int
    } else if 'a' <= c && c <= 'f' {
        c as int - 'a' as int + 10
    } else if 'A' <= c && c <= 'F' {
        c as int - 'A' as int + 10
    } else {
        base as int
    };
    if v < base { Some(v as nat) } else { None }
}

/// The end of the longest run, starting at `i`, of digits in `base`.
pub open spec fn digits_end(cs: Seq<char>, i: nat, base: nat) -> nat
    decreases cs.len() - i,
{
    if i < cs.len() && digit_value(cs[i as int], base) is Some {
        digits_end(cs, i + 1, base)
    } else {
        i
    }
}

/// The end of the longest run, starting at `i`, of identifier characters.
pub open spec fn ident_end(cs: Seq<char>, i: nat) -> nat
    decreases cs.len() - i,
{
    if i < cs.len() && is_ident_char(cs[i as int]) {
        ident_end(cs, i + 1)
    } else {
        i
    }
}

/// The number that a run of digits in `base` denotes.
pub open spec fn digits_number(ds: Seq<char>, base: nat) -> nat
    decreases ds.len(),
{
    if ds.len() == 0 {
        0
    } else {
        digits_number(ds.drop_last(), base) * base + digit_value(ds.last(), base).unwrap_or(0)
    }
}

/// The index of the first `'` or newline at or after `i`, or the end.
pub open spec fn string_end(cs: Seq<char>, i: nat) -> nat
    decreases cs.len() - i,
{
    if i < cs.len() && cs[i as int] != '\'' && cs[i as int] != '\n' {
        string_end(cs, i + 1)
    } else {
        i
    }
}

/// The keyword that a word denotes, if any.
pub open spec fn keyword(w: Seq<char>) -> Option<ScanToken> {
    if w == seq!['l', 'e', 't'] { Some(ScanToken::KeywordLet) }
    else if w == seq!['f', 'n'] { Some(ScanToken::KeywordFn) }
    else if w == seq!['i', 'f'] { Some(ScanToken::KeywordIf) }
    else if w == seq!['e', 'l', 'i', 'f'] { Some(ScanToken::KeywordElif) }
    else if w == seq!['e', 'l', 's', 'e'] { Some(ScanToken::KeywordElse) }
    else if w == seq!['l', 'o', 'o', 'p'] { Some(ScanToken::KeywordLoop) }
    else if w == seq!['f', 'o', 'r'] { Some(ScanToken::KeywordFor) }
    else if w == seq!['i', 'n'] { Some(ScanToken::KeywordIn) }
    else if w == seq!['i', 's'] { Some(ScanToken::KeywordIs) }
    else if w == seq!['b', 'r', 'e', 'a', 'k'] { Some(ScanToken::KeywordBreak) }
    else if w == seq!['c', 'o', 'n', 't', 'i', 'n', 'u', 'e'] { Some(ScanToken::KeywordContinue) }
    else if w == seq!['t', 'r', 'u', 'e'] { Some(ScanToken::KeywordTrue) }
    else if w == seq!['f', 'a', 'l', 's', 'e'] { Some(ScanToken::KeywordFalse) }
    else if w == seq!['n', 'i', 'l'] { Some(ScanToken::KeywordNil) }
    else if w == seq!['s', 't', 'r', 'u', 'c', 't'] { Some(ScanToken::KeywordStruct) }
    else if w == seq!['i', 'n', 't'] { Some(ScanToken::KeywordInt) }
    else if w == seq!['s', 't', 'r'] { Some(ScanToken::KeywordStr) }
    else if w == seq!['b', 'o', 'o', 'l'] { Some(ScanToken::KeywordBool) }
    else if w == seq!['_'] { Some(ScanToken::Underscore) }
    else { None }
}

/// The character at `i`, if there is one.
pub open spec fn char_at(cs: Seq<char>, i: nat) -> Option<char> {
    if i < cs.len() { Some(cs[i as int]) } else { None }
}

/// Operators and punctuation, longest match first: the token and its length.
pub open spec fn symbol(cs: Seq<char>, i: nat) -> Option<(ScanToken, nat)> {
    let c0 = char_at(cs, i);
    let c1 = char_at(cs, i + 1);
    let c2 = char_at(cs, i + 2);
    match c0 {
        Some('+') => if c1 == Some('=') { Some((ScanToken::PlusEquals, 2)) } else { Some((ScanToken::Plus, 1)) },
        Some('-') => if c1 == Some('=') { Some((ScanToken::MinusEquals, 2)) }
            else if c1 == Some('>') { Some((ScanToken::Arrow, 2)) }
            else { Some((ScanToken::Minus, 1)) },
        Some('*') => if c1 == Some('*') {
                if c2 == Some('=') { Some((ScanToken::PowEquals, 3)) } else { Some((ScanToken::Pow, 2)) }
            } else if c1 == Some('=') { Some((ScanToken::MulEquals, 2)) }
            else { Some((ScanToken::Mul, 1)) },
        Some('/') => if c1 == Some('=') { Some((ScanToken::DivEquals, 2)) } else { Some((ScanToken::Div, 1)) },
        Some('%') => if c1 == Some('=') { Some((ScanToken::ModEquals, 2)) } else { Some((ScanToken::Mod, 1)) },
        Some('&') => if c1 == Some('&') { Some((ScanToken::LogicalAnd, 2)) }
            else if c1 == Some('=') { Some((ScanToken::AndEquals, 2)) }
            else { Some((ScanToken::BitwiseAnd, 1)) },
        Some('|') => if c1 == Some('|') { Some((ScanToken::LogicalOr, 2)) }
            else if c1 == Some('=') { Some((ScanToken::OrEquals, 2)) }
            else { Some((ScanToken::BitwiseOr, 1)) },
        Some('^') => if c1 == Some('=') { Some((ScanToken::XorEquals, 2)) } else { Some((ScanToken::BitwiseXor, 1)) },
        Some('<') => if c1 == Some('<') {
                if c2 == Some('=') { Some((ScanToken::LeftShiftEquals, 3)) } else { Some((ScanToken::LeftShift, 2)) }
            } else if c1 == Some('=') { Some((ScanToken::LessThanEquals, 2)) }
            else { Some((ScanToken::LessThan, 1)) },
        Some('>') => if c1 == Some('>') {
                if c2 == Some('=') { Some((ScanToken::RightShiftEquals, 3)) } else { Some((ScanToken::RightShift, 2)) }
            } else if c1 == Some('=') { Some((ScanToken::GreaterThanEquals, 2)) }
            else { Some((ScanToken::GreaterThan, 1)) },
        Some('=') => if c1 == Some('=') { Some((ScanToken::DoubleEquals, 2)) } else { Some((ScanToken::Equals, 1)) },
        Some('!') => if c1 == Some('=') { Some((ScanToken::NotEquals, 2)) } else { Some((ScanToken::LogicalNot, 1)) },
        Some('~') => Some((ScanToken::BitwiseNot, 1)),
        Some('(') => Some((ScanToken::OpenParen, 1)),
        Some(')') => Some((ScanToken::CloseParen, 1)),
        Some('[') => Some((ScanToken::OpenSquareBracket, 1)),
        Some(']') => Some((ScanToken::CloseSquareBracket, 1)),
        Some('{') => Some((ScanToken::OpenBrace, 1)),
        Some('}') => Some((ScanToken::CloseBrace, 1)),
        Some(',') => Some((ScanToken::Comma, 1)),
        Some('.') => Some((ScanToken::Dot, 1)),
        Some(':') => Some((ScanToken::Colon, 1)),
        _ => None,
    }
}

/// A numeric literal whose digits in `base` start at `start`, the literal itself starting at `i`.
pub open spec fn number_lexeme(cs: Seq<char>, i: nat, start: nat, base: nat) -> (nat, Lexeme) {
    let end = digits_end(cs, start, base);
    let n = digits_number(cs.subrange(start as int, end as int), base);
    if end == start || n > i64::MAX {
        (end, Lexeme::Failure(SpecScanErrorType::InvalidNumericValue(cs.subrange(i as int, end as int))))
    } else {
        (end, Lexeme::Number(n as i64))
    }
}

/// One step of the scanner at index `i < cs.len()`: where the next step starts, and what this one produced.
pub open spec fn lex_step(cs: Seq<char>, i: nat) -> (nat, Lexeme) {
    let c = cs[i as int];
    if c == ' ' || c == '\t' || c == '\r' {
        (i + 1, Lexeme::Blank)
    } else if c == '\n' {
        (i + 1, Lexeme::Plain(ScanToken::NewLine))
    } else if is_ident_start(c) {
        let end = ident_end(cs, i);
        let w = cs.subrange(i as int, end as int);
        match keyword(w) {
            Some(k) => (end, Lexeme::Plain(k)),
            None => (end, Lexeme::Word(w)),
        }
    } else if is_digit(c) {
        if c == '0' && i + 1 < cs.len() && is_alpha(cs[i + 1 as int]) {
            let p = cs[i + 1 as int];
            if p == 'x' {
                number_lexeme(cs, i, i + 2, 16)
            } else if p == 'b' {
                number_lexeme(cs, i, i + 2, 2)
            } else {
                (i + 2, Lexeme::Failure(SpecScanErrorType::InvalidNumericPrefix(p)))
            }
        } else {
            number_lexeme(cs, i, i, 10)
        }
    } else if c == '\'' {
        let end = string_end(cs, i + 1);
        if end < cs.len() && cs[end as int] == '\'' {
            (end + 1, Lexeme::Text(cs.subrange(i + 1 as int, end as int)))
        } else {
            (end, Lexeme::Failure(SpecScanErrorType::UnterminatedStringLiteral))
        }
    } else {
        match symbol(cs, i) {
            Some((t, n)) => (i + n, Lexeme::Plain(t)),
            None => (i + 1, Lexeme::Failure(SpecScanErrorType::InvalidCharacter(c))),
        }
    }
}

/// The lexemes produced from index `i` onwards, with the line number of each error.
pub open spec fn lex_from(cs: Seq<char>, i: nat, line: nat) -> (Seq<Lexeme>, Seq<(SpecScanErrorType, nat)>)
    decreases cs.len() - i,
{
    if i >= cs.len() {
        (seq![], seq![])
    } else {
        let (j, x) = lex_step(cs, i);
        if j <= i || j > cs.len() {
            (seq![], seq![])
        } else {
            let next_line = if x == Lexeme::Plain(ScanToken::NewLine) { line + 1 } else { line };
            let (ts, es) = lex_from(cs, j, next_line);
            match x {
                Lexeme::Failure(e) => (ts, seq![(e, line)] + es),
                Lexeme::Blank => (ts, es),
                _ => (seq![x] + ts, es),
            }
        }
    }
}

} // verus!

verus! {

// ===== Facts about the lexical grammar ===== //

proof fn lemma_ident_end(cs: Seq<char>, i: nat)
    requires
        i <= cs.len(),
    ensures
        i <= ident_end(cs, i) <= cs.len(),
        forall|k: int| i <= k < ident_end(cs, i) ==> is_ident_char(#[trigger] cs[k]),
        ident_end(cs, i) < cs.len() ==> !is_ident_char(cs[ident_end(cs, i) as int]),
    decreases cs.len() - i,
{
    if i < cs.len() && is_ident_char(cs[i as int]) {
        lemma_ident_end(cs, i + 1);
    }
}

proof fn lemma_digits_end(cs: Seq<char>, i: nat, base: nat)
    requires
        i <= cs.len(),
    ensures
        i <= digits_end(cs, i, base) <= cs.len(),
        forall|k: int| i <= k < digits_end(cs, i, base) ==> digit_value(#[trigger] cs[k], base) is Some,
        digits_end(cs, i, base) < cs.len() ==> digit_value(cs[digits_end(cs, i, base) as int], base) is None,
    decreases cs.len() - i,
{
    if i < cs.len() && digit_value(cs[i as int], base) is Some {
        lemma_digits_end(cs, i + 1, base);
    }
}

proof fn lemma_string_end(cs: Seq<char>, i: nat)
    requires
        i <= cs.len(),
    ensures
        i <= string_end(cs, i) <= cs.len(),
        string_end(cs, i) < cs.len() ==> (cs[string_end(cs, i) as int] == '\'' || cs[string_end(cs, i) as int] == '\n'),
        forall|k: int| i <= k < string_end(cs, i) ==> #[trigger] cs[k] != '\'' && cs[k] != '\n',
    decreases cs.len() - i,
{
    if i < cs.len() && cs[i as int] != '\'' && cs[i as int] != '\n' {
        lemma_string_end(cs, i + 1);
    }
}

/// Every step of the scanner consumes at least one character and stays within the text.
proof fn lemma_lex_step_advances(cs: Seq<char>, i: nat)
    requires
        i < cs.len(),
    ensures
        i < lex_step(cs, i).0 <= cs.len(),
{
    lemma_ident_end(cs, i);
    lemma_digits_end(cs, i, 10);
    if i + 2 <= cs.len() {
        lemma_digits_end(cs, i + 2, 16);
        lemma_digits_end(cs, i + 2, 2);
    }
    lemma_string_end(cs, i + 1);
}

// ===== The executable scanner ===== //

/// What one step of the executable scanner produced.
pub enum LexItem {
    Token(ScanToken),
    Error(ScanErrorType),
    Blank,
}

pub open spec fn item_is(it: LexItem, x: Lexeme) -> bool {
    match it {
        LexItem::Token(t) => token_is(t, x),
        LexItem::Error(e) => x matches Lexeme::Failure(se) && error_is(e, se),
        LexItem::Blank => x is Blank,
    }
}

fn char_at_exec(cs: &Vec<char>, i: usize) -> (r: Option<char>)
    ensures
        r == char_at(cs@, i as nat),
{
    if i < cs.len() { Some(cs[i]) } else { None }
}

fn is_alpha_exec(c: char) -> (r: bool)
    ensures
        r == is_alpha(c),
{
    ('a' <= c && c <= 'z') || ('A' <= c && c <= 'Z')
}

fn is_digit_exec(c: char) -> (r: bool)
    ensures
        r == is_digit(c),
{
    '0' <= c && c <= '9'
}

fn is_ident_char_exec(c: char) -> (r: bool)
    ensures
        r == is_ident_char(c),
{
    is_alpha_exec(c) || c == '_' || is_digit_exec(c)
}

fn digit_of(c: char, base: u32) -> (r: Option<u32>)
    requires
        base == 2 || base == 10 || base == 16,
    ensures
        r matches Some(v) ==> digit_value(c, base as nat) == Some(v as nat),
        r is None ==> digit_value(c, base as nat) is None,
{
    let v: u32 = if '0' <= c && c <= '9' {
        (c as u32) - ('0' as u32)
    } else if 'a' <= c && c <= 'f' {
        (c as u32) - ('a' as u32) + 10
    } else if 'A' <= c && c <= 'F' {
        (c as u32) - ('A' as u32) + 10
    } else {
        base
    };
    if v < base { Some(v) } else { None }
}

fn ident_end_exec(cs: &Vec<char>, i: usize) -> (r: usize)
    requires
        i <= cs.len(),
    ensures
        r == ident_end(cs@, i as nat),
{
    let mut j = i;
    while j < cs.len() && is_ident_char_exec(cs[j])
        invariant
            i <= j <= cs.len(),
            ident_end(cs@, j as nat) == ident_end(cs@, i as nat),
        decreases cs.len() - j,
    {
        j += 1;
    }
    j
}

fn digits_end_exec(cs: &Vec<char>, i: usize, base: u32) -> (r: usize)
    requires
        i <= cs.len(),
        base == 2 || base == 10 || base == 16,
    ensures
        r == digits_end(cs@, i as nat, base as nat),
{
    let mut j = i;
    while j < cs.len() && digit_of(cs[j], base).is_some()
        invariant
            i <= j <= cs.len(),
            base == 2 || base == 10 || base == 16,
            digits_end(cs@, j as nat, base as nat) == digits_end(cs@, i as nat, base as nat),
        decreases cs.len() - j,
    {
        j += 1;
    }
    j
}

fn string_end_exec(cs: &Vec<char>, i: usize) -> (r: usize)
    requires
        i <= cs.len(),
    ensures
        r == string_end(cs@, i as nat),
{
    let mut j = i;
    while j < cs.len() && cs[j] != '\'' && cs[j] != '\n'
        invariant
            i <= j <= cs.len(),
            string_end(cs@, j as nat) == string_end(cs@, i as nat),
        decreases cs.len() - j,
    {
        j += 1;
    }
    j
}

proof fn lemma_accumulate(v: int, d: int, b: int, m: int)
    requires
        0 <= v,
        0 <= d < b,
        2 <= b,
        0 <= m,
        d <= m,
    ensures
        v <= (m - d) / b ==> v * b + d <= m,
        v > (m - d) / b ==> v * b + d > m,
        v * b + d >= v,
{
    assert(v <= (m - d) / b ==> v * b + d <= m) by (nonlinear_arith)
        requires 0 <= v, 0 <= d < b, 2 <= b, d <= m;
    assert(v > (m - d) / b ==> v * b + d > m) by (nonlinear_arith)
        requires 0 <= v, 0 <= d < b, 2 <= b, d <= m;
    assert(v * b + d >= v) by (nonlinear_arith)
        requires 0 <= v, 0 <= d, 2 <= b;
}

/// The number denoted by the digits `cs[lo..hi]`, unless it does not fit in an `i64`.
fn digits_number_exec(cs: &Vec<char>, lo: usize, hi: usize, base: u32) -> (r: Option<i64>)
    requires
        lo <= hi <= cs.len(),
        base == 2 || base == 10 || base == 16,
        forall|k: int| lo <= k < hi ==> digit_value(#[trigger] cs@[k], base as nat) is Some,
    ensures
        ({
            let n = digits_number(cs@.subrange(lo as int, hi as int), base as nat);
            if n > i64::MAX { r is None } else { r == Some(n as i64) }
        }),
{
    let mut acc: i64 = 0;
    let mut overflow = false;
    let mut k = lo;
    while k < hi
        invariant
            lo <= k <= hi <= cs.len(),
            base == 2 || base == 10 || base == 16,
            forall|q: int| lo <= q < hi ==> digit_value(#[trigger] cs@[q], base as nat) is Some,
            0 <= acc,
            !overflow ==> acc == digits_number(cs@.subrange(lo as int, k as int), base as nat),
            overflow ==> digits_number(cs@.subrange(lo as int, k as int), base as nat) > i64::MAX,
        decreases hi - k,
    {
        let ghost prev = digits_number(cs@.subrange(lo as int, k as int), base as nat);
        let d = match digit_of(cs[k], base) {
            Some(d) => d,
            None => { assert(false); 0 }
        };
        assert(cs@.subrange(lo as int, k + 1 as int).drop_last() =~= cs@.subrange(lo as int, k as int));
        assert(cs@.subrange(lo as int, k + 1 as int).last() == cs@[k as int]);
        let ghost next = digits_number(cs@.subrange(lo as int, k + 1 as int), base as nat);
        assert(next == prev * base + d);
        if !overflow {
            proof {
                lemma_accumulate(acc as int, d as int, base as int, i64::MAX as int);
            }
            if acc > (i64::MAX - d as i64) / (base as i64) {
                overflow = true;
            } else {
                acc = acc * (base as i64) + d as i64;
            }
        } else {
            proof {
                lemma_accumulate(prev as int, d as int, base as int, i64::MAX as int);
            }
        }
        k += 1;
    }
    if overflow { None } else { Some(acc) }
}

fn number_exec(cs: &Vec<char>, i: usize, start: usize, base: u32) -> (r: (usize, LexItem))
    requires
        i <= start <= cs.len(),
        base == 2 || base == 10 || base == 16,
    ensures
        r.0 == number_lexeme(cs@, i as nat, start as nat, base as nat).0,
        item_is(r.1, number_lexeme(cs@, i as nat, start as nat, base as nat).1),
{
    let end = digits_end_exec(cs, start, base);
    proof {
        lemma_digits_end(cs@, start as nat, base as nat);
    }
    let n = if end == start { None } else { digits_number_exec(cs, start, end, base) };
    match n {
        Some(v) => (end, LexItem::Token(ScanToken::Int(v))),
        None => (end, LexItem::Error(ScanErrorType::InvalidNumericValue(string_of_range(cs, i, end)))),
    }
}

fn keyword_exec(cs: &Vec<char>, lo: usize, hi: usize) -> (r: Option<ScanToken>)
    requires
        lo <= hi <= cs.len(),
    ensures
        r == keyword(cs@.subrange(lo as int, hi as int)),
{
    proof {
        assert(['l', 'e', 't']@ =~= seq!['l', 'e', 't']);
        assert(['f', 'n']@ =~= seq!['f', 'n']);
        assert(['i', 'f']@ =~= seq!['i', 'f']);
        assert(['e', 'l', 'i', 'f']@ =~= seq!['e', 'l', 'i', 'f']);
        assert(['e', 'l', 's', 'e']@ =~= seq!['e', 'l', 's', 'e']);
        assert(['l', 'o', 'o', 'p']@ =~= seq!['l', 'o', 'o', 'p']);
        assert(['f', 'o', 'r']@ =~= seq!['f', 'o', 'r']);
        assert(['i', 'n']@ =~= seq!['i', 'n']);
        assert(['i', 's']@ =~= seq!['i', 's']);
        assert(['b', 'r', 'e', 'a', 'k']@ =~= seq!['b', 'r', 'e', 'a', 'k']);
        assert(['c', 'o', 'n', 't', 'i', 'n', 'u', 'e']@ =~= seq!['c', 'o', 'n', 't', 'i', 'n', 'u', 'e']);
        assert(['t', 'r', 'u', 'e']@ =~= seq!['t', 'r', 'u', 'e']);
        assert(['f', 'a', 'l', 's', 'e']@ =~= seq!['f', 'a', 'l', 's', 'e']);
        assert(['n', 'i', 'l']@ =~= seq!['n', 'i', 'l']);
        assert(['s', 't', 'r', 'u', 'c', 't']@ =~= seq!['s', 't', 'r', 'u', 'c', 't']);
        assert(['i', 'n', 't']@ =~= seq!['i', 'n', 't']);
        assert(['s', 't', 'r']@ =~= seq!['s', 't', 'r']);
        assert(['b', 'o', 'o', 'l']@ =~= seq!['b', 'o', 'o', 'l']);
        assert(['_']@ =~= seq!['_']);
    }
    if range_eq(cs, lo, hi, &['l', 'e', 't']) { Some(ScanToken::KeywordLet) }
    else if range_eq(cs, lo, hi, &['f', 'n']) { Some(ScanToken::KeywordFn) }
    else if range_eq(cs, lo, hi, &['i', 'f']) { Some(ScanToken::KeywordIf) }
    else if range_eq(cs, lo, hi, &['e', 'l', 'i', 'f']) { Some(ScanToken::KeywordElif) }
    else if range_eq(cs, lo, hi, &['e', 'l', 's', 'e']) { Some(ScanToken::KeywordElse) }
    else if range_eq(cs, lo, hi, &['l', 'o', 'o', 'p']) { Some(ScanToken::KeywordLoop) }
    else if range_eq(cs, lo, hi, &['f', 'o', 'r']) { Some(ScanToken::KeywordFor) }
    else if range_eq(cs, lo, hi, &['i', 'n']) { Some(ScanToken::KeywordIn) }
    else if range_eq(cs, lo, hi, &['i', 's']) { Some(ScanToken::KeywordIs) }
    else if range_eq(cs, lo, hi, &['b', 'r', 'e', 'a', 'k']) { Some(ScanToken::KeywordBreak) }
    else if range_eq(cs, lo, hi, &['c', 'o', 'n', 't', 'i', 'n', 'u', 'e']) { Some(ScanToken::KeywordContinue) }
    else if range_eq(cs, lo, hi, &['t', 'r', 'u', 'e']) { Some(ScanToken::KeywordTrue) }
    else if range_eq(cs, lo, hi, &['f', 'a', 'l', 's', 'e']) { Some(ScanToken::KeywordFalse) }
    else if range_eq(cs, lo, hi, &['n', 'i', 'l']) { Some(ScanToken::KeywordNil) }
    else if range_eq(cs, lo, hi, &['s', 't', 'r', 'u', 'c', 't']) { Some(ScanToken::KeywordStruct) }
    else if range_eq(cs, lo, hi, &['i', 'n', 't']) { Some(ScanToken::KeywordInt) }
    else if range_eq(cs, lo, hi, &['s', 't', 'r']) { Some(ScanToken::KeywordStr) }
    else if range_eq(cs, lo, hi, &['b', 'o', 'o', 'l']) { Some(ScanToken::KeywordBool) }
    else if range_eq(cs, lo, hi, &['_']) { Some(ScanToken::Underscore) }
    else { None }
}

fn symbol_exec(cs: &Vec<char>, i: usize) -> (r: Option<(ScanToken, usize)>)
    requires
        i < cs.len(),
    ensures
        match symbol(cs@, i as nat) {
            Some((t, n)) => r matches Some((t2, n2)) && t2 == t && n2 == n,
            None => r is None,
        },
{
    let c0 = char_at_exec(cs, i);
    let c1 = char_at_exec(cs, i + 1);
    let c2 = if cs.len() - i >= 2 { char_at_exec(cs, i + 2) } else { None };
    assert(i + 2 > cs.len() ==> char_at(cs@, (i + 2) as nat) is None);
    match c0 {
        Some('+') => if c1 == Some('=') { Some((ScanToken::PlusEquals, 2)) } else { Some((ScanToken::Plus, 1)) },
        Some('-') => if c1 == Some('=') { Some((ScanToken::MinusEquals, 2)) }
            else if c1 == Some('>') { Some((ScanToken::Arrow, 2)) }
            else { Some((ScanToken::Minus, 1)) },
        Some('*') => if c1 == Some('*') {
                if c2 == Some('=') { Some((ScanToken::PowEquals, 3)) } else { Some((ScanToken::Pow, 2)) }
            } else if c1 == Some('=') { Some((ScanToken::MulEquals, 2)) }
            else { Some((ScanToken::Mul, 1)) },
        Some('/') => if c1 == Some('=') { Some((ScanToken::DivEquals, 2)) } else { Some((ScanToken::Div, 1)) },
        Some('%') => if c1 == Some('=') { Some((ScanToken::ModEquals, 2)) } else { Some((ScanToken::Mod, 1)) },
        Some('&') => if c1 == Some('&') { Some((ScanToken::LogicalAnd, 2)) }
            else if c1 == Some('=') { Some((ScanToken::AndEquals, 2)) }
            else { Some((ScanToken::BitwiseAnd, 1)) },
        Some('|') => if c1 == Some('|') { Some((ScanToken::LogicalOr, 2)) }
            else if c1 == Some('=') { Some((ScanToken::OrEquals, 2)) }
            else { Some((ScanToken::BitwiseOr, 1)) },
        Some('^') => if c1 == Some('=') { Some((ScanToken::XorEquals, 2)) } else { Some((ScanToken::BitwiseXor, 1)) },
        Some('<') => if c1 == Some('<') {
                if c2 == Some('=') { Some((ScanToken::LeftShiftEquals, 3)) } else { Some((ScanToken::LeftShift, 2)) }
            } else if c1 == Some('=') { Some((ScanToken::LessThanEquals, 2)) }
            else { Some((ScanToken::LessThan, 1)) },
        Some('>') => if c1 == Some('>') {
                if c2 == Some('=') { Some((ScanToken::RightShiftEquals, 3)) } else { Some((ScanToken::RightShift, 2)) }
            } else if c1 == Some('=') { Some((ScanToken::GreaterThanEquals, 2)) }
            else { Some((ScanToken::GreaterThan, 1)) },
        Some('=') => if c1 == Some('=') { Some((ScanToken::DoubleEquals, 2)) } else { Some((ScanToken::Equals, 1)) },
        Some('!') => if c1 == Some('=') { Some((ScanToken::NotEquals, 2)) } else { Some((ScanToken::LogicalNot, 1)) },
        Some('~') => Some((ScanToken::BitwiseNot, 1)),
        Some('(') => Some((ScanToken::OpenParen, 1)),
        Some(')') => Some((ScanToken::CloseParen, 1)),
        Some('[') => Some((ScanToken::OpenSquareBracket, 1)),
        Some(']') => Some((ScanToken::CloseSquareBracket, 1)),
        Some('{') => Some((ScanToken::OpenBrace, 1)),
        Some('}') => Some((ScanToken::CloseBrace, 1)),
        Some(',') => Some((ScanToken::Comma, 1)),
        Some('.') => Some((ScanToken::Dot, 1)),
        Some(':') => Some((ScanToken::Colon, 1)),
        _ => None,
    }
}

/// One step of the scanner at `i`.
fn lex_one(cs: &Vec<char>, i: usize) -> (r: (usize, LexItem))
    requires
        i < cs.len(),
    ensures
        r.0 == lex_step(cs@, i as nat).0,
        item_is(r.1, lex_step(cs@, i as nat).1),
{
    let c = cs[i];
    if c == ' ' || c == '\t' || c == '\r' {
        (i + 1, LexItem::Blank)
    } else if c == '\n' {
        (i + 1, LexItem::Token(ScanToken::NewLine))
    } else if is_alpha_exec(c) || c == '_' {
        let end = ident_end_exec(cs, i);
        proof {
            lemma_ident_end(cs@, i as nat);
        }
        match keyword_exec(cs, i, end) {
            Some(k) => (end, LexItem::Token(k)),
            None => (end, LexItem::Token(ScanToken::Identifier(string_of_range(cs, i, end)))),
        }
    } else if is_digit_exec(c) {
        if c == '0' && i + 1 < cs.len() && is_alpha_exec(cs[i + 1]) {
            let p = cs[i + 1];
            if p == 'x' {
                number_exec(cs, i, i + 2, 16)
            } else if p == 'b' {
                number_exec(cs, i, i + 2, 2)
            } else {
                (i + 2, LexItem::Error(ScanErrorType::InvalidNumericPrefix(p)))
            }
        } else {
            number_exec(cs, i, i, 10)
        }
    } else if c == '\'' {
        let end = string_end_exec(cs, i + 1);
        proof {
            lemma_string_end(cs@, (i + 1) as nat);
        }
        if end < cs.len() && cs[end] == '\'' {
            (end + 1, LexItem::Token(ScanToken::StringLiteral(string_of_range(cs, i + 1, end))))
        } else {
            (end, LexItem::Error(ScanErrorType::UnterminatedStringLiteral))
        }
    } else {
        match symbol_exec(cs, i) {
            Some((t, n)) => (i + n, LexItem::Token(t)),
            None => (i + 1, LexItem::Error(ScanErrorType::InvalidCharacter(c))),
        }
    }
}

/// The tokens and errors of a text, as the lexical grammar (`lex_from`) describes them.
pub open spec fn scan_matches(text: Seq<char>, r: ScanResult) -> bool {
    let (ts, es) = lex_from(text, 0, 0);
    &&& r.tokens@.len() == ts.len()
    &&& forall|k: int| 0 <= k < ts.len() ==> token_is(#[trigger] r.tokens@[k], ts[k])
    &&& r.errors@.len() == es.len()
    &&& forall|k: int| 0 <= k < es.len() ==> error_is(#[trigger] r.errors@[k].error, es[k].0)
        && r.errors@[k].lineno == es[k].1
}

/// Scans a source text into tokens and errors.
pub fn scan(text: &String) -> (r: ScanResult)
    ensures
        scan_matches(text@, r),
{
    let cs = chars_of(text.as_str());
    let mut tokens: Vec<ScanToken> = Vec::new();
    let mut errors: Vec<ScanError> = Vec::new();
    let mut i: usize = 0;
    let mut line: usize = 0;
    let ghost mut tacc: Seq<Lexeme> = seq![];
    let ghost mut eacc: Seq<(SpecScanErrorType, nat)> = seq![];
    while i < cs.len()
        invariant
            i <= cs.len(),
            line <= i,
            cs@ == text@,
            lex_from(cs@, 0, 0).0 == tacc + lex_from(cs@, i as nat, line as nat).0,
            lex_from(cs@, 0, 0).1 == eacc + lex_from(cs@, i as nat, line as nat).1,
            tokens@.len() == tacc.len(),
            forall|k: int| 0 <= k < tacc.len() ==> token_is(#[trigger] tokens@[k], tacc[k]),
            errors@.len() == eacc.len(),
            forall|k: int| 0 <= k < eacc.len() ==> error_is(#[trigger] errors@[k].error, eacc[k].0)
                && errors@[k].lineno == eacc[k].1,
        decreases cs.len() - i,
    {
        proof {
            lemma_lex_step_advances(cs@, i as nat);
        }
        let (j, item) = lex_one(&cs, i);
        let ghost x = lex_step(cs@, i as nat).1;
        let ghost next_line: nat = if x == Lexeme::Plain(ScanToken::NewLine) { (line + 1) as nat } else { line as nat };
        match item {
            LexItem::Token(t) => {
                let is_newline = match t {
                    ScanToken::NewLine => true,
                    _ => false,
                };
                proof {
                    assert(is_newline == (x == Lexeme::Plain(ScanToken::NewLine)));
                    assert(seq![x] + lex_from(cs@, j as nat, next_line).0 == lex_from(cs@, i as nat, line as nat).0);
                    tacc = tacc.push(x);
                }
                tokens.push(t);
                if is_newline {
                    line = line + 1;
                }
            },
            LexItem::Error(e) => {
                proof {
                    let se = x->Failure_0;
                    assert(seq![(se, line as nat)] + lex_from(cs@, j as nat, next_line).1 == lex_from(cs@, i as nat, line as nat).1);
                    eacc = eacc.push((se, line as nat));
                }
                errors.push(ScanError { error: e, lineno: line });
            },
            LexItem::Blank => {},
        }
        proof {
            assert(tacc + lex_from(cs@, j as nat, line as nat).0 =~= lex_from(cs@, 0, 0).0);
            assert(eacc + lex_from(cs@, j as nat, line as nat).1 =~= lex_from(cs@, 0, 0).1);
        }
        i = j;
    }
    ScanResult { tokens, errors }
}

} // verus!
