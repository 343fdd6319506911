//! Messages for the errors that the scanner and the parser report.
use vstd::prelude::*;

use crate::compiler::parser::{ParserError, ParserErrorType};
use crate::compiler::scanner::{ScanError, ScanErrorType, ScanToken};
use crate::text::{decimal, push_char, push_decimal, push_str};

verus! {

pub trait CompilerError {
    /// The message that `format_error` gives.
    spec fn error_text(&self) -> Seq<char>;

    fn format_error(&self) -> (r: String)
        ensures
            r@ == self.error_text();
}

impl CompilerError for ScanError {
    open spec fn error_text(&self) -> Seq<char> {
        match self.error {
            ScanErrorType::InvalidNumericPrefix(c) => "Invalid numeric prefix: '0"@ + seq![c] + "'"@,
            ScanErrorType::InvalidNumericValue(e) => "Invalid numeric value: "@ + e@,
            ScanErrorType::InvalidCharacter(c) => "Invalid character: '"@ + seq![c] + "'"@,
            ScanErrorType::UnterminatedStringLiteral => "Unterminated string literal (missing a closing single quote)"@,
        }
    }

    fn format_error(&self) -> (r: String) {
        let mut r = String::new();
        match &self.error {
            ScanErrorType::InvalidNumericPrefix(c) => {
                push_str(&mut r, "Invalid numeric prefix: '0");
                push_char(&mut r, *c);
                push_str(&mut r, "'");
            },
            ScanErrorType::InvalidNumericValue(e) => {
                push_str(&mut r, "Invalid numeric value: ");
                push_str(&mut r, e.as_str());
            },
            ScanErrorType::InvalidCharacter(c) => {
                push_str(&mut r, "Invalid character: '");
                push_char(&mut r, *c);
                push_str(&mut r, "'");
            },
            ScanErrorType::UnterminatedStringLiteral => {
                push_str(&mut r, "Unterminated string literal (missing a closing single quote)");
            },
        }
        proof {
            assert(r@ =~= self.error_text());
        }
        r
    }
}

impl CompilerError for ParserError {
    open spec fn error_text(&self) -> Seq<char> {
        match self.error {
            ParserErrorType::UnexpectedEoF => "Unexpected end of file."@,
            ParserErrorType::UnexpectedEoFExpecting(e) => "Unexpected end of file, was expecting "@ + e.error_text() + "."@,
            ParserErrorType::Expecting(e, a) => "Expected a "@ + e.error_text() + ", got "@ + a.error_text() + " instead"@,
            ParserErrorType::ExpectedExpressionTerminal(e) => "Expected an expression terminal, got "@ + e.error_text() + " instead"@,
            ParserErrorType::ExpectedCommaOrEndOfArguments(e) => "Expected a ',' or ')' after function invocation, got "@ + e.error_text() + " instead"@,
        }
    }

    fn format_error(&self) -> (r: String) {
        let mut r = String::new();
        match &self.error {
            ParserErrorType::UnexpectedEoF => push_str(&mut r, "Unexpected end of file."),
            ParserErrorType::UnexpectedEoFExpecting(e) => {
                push_str(&mut r, "Unexpected end of file, was expecting ");
                push_str(&mut r, e.format_error().as_str());
                push_str(&mut r, ".");
            },
            ParserErrorType::Expecting(e, a) => {
                push_str(&mut r, "Expected a ");
                push_str(&mut r, e.format_error().as_str());
                push_str(&mut r, ", got ");
                push_str(&mut r, a.format_error().as_str());
                push_str(&mut r, " instead");
            },
            ParserErrorType::ExpectedExpressionTerminal(e) => {
                push_str(&mut r, "Expected an expression terminal, got ");
                push_str(&mut r, e.format_error().as_str());
                push_str(&mut r, " instead");
            },
            ParserErrorType::ExpectedCommaOrEndOfArguments(e) => {
                push_str(&mut r, "Expected a ',' or ')' after function invocation, got ");
                push_str(&mut r, e.format_error().as_str());
                push_str(&mut r, " instead");
            },
        }
        proof {
            assert(r@ =~= self.error_text());
        }
        r
    }
}

impl CompilerError for ScanToken {
    open spec fn error_text(&self) -> Seq<char> {
        match self {
            ScanToken::Identifier(s) => "identifier '"@ + s@ + "'"@,
            ScanToken::StringLiteral(s) => "string '"@ + s@ + "'"@,
            ScanToken::Int(i) => "integer '"@ + decimal(*i as int) + "'"@,

            ScanToken::KeywordLet => "'let' keyword"@,
            ScanToken::KeywordFn => "'fn' keyword"@,
            ScanToken::KeywordIf => "'if' keyword"@,
            ScanToken::KeywordElif => "'elif' keyword"@,
            ScanToken::KeywordElse => "'else' keyword"@,
            ScanToken::KeywordLoop => "'loop' keyword"@,
            ScanToken::KeywordFor => "'for' keyword"@,
            ScanToken::KeywordIn => "'in' keyword"@,
            ScanToken::KeywordIs => "'is' keyword"@,
            ScanToken::KeywordBreak => "'break' keyword"@,
            ScanToken::KeywordContinue => "'continue' keyword"@,
            ScanToken::KeywordTrue => "'true' keyword"@,
            ScanToken::KeywordFalse => "'false' keyword"@,
            ScanToken::KeywordNil => "'nil' keyword"@,
            ScanToken::KeywordStruct => "'struct' keyword"@,
            ScanToken::KeywordInt => "'int' keyword"@,
            ScanToken::KeywordStr => "'str' keyword"@,
            ScanToken::KeywordBool => "'bool' keyword"@,
            ScanToken::Equals => "'=' token"@,
            ScanToken::PlusEquals => "'+=' token"@,
            ScanToken::MinusEquals => "'-=' token"@,
            ScanToken::MulEquals => "'*=' token"@,
            ScanToken::DivEquals => "'/=' token"@,
            ScanToken::AndEquals => "'&=' token"@,
            ScanToken::OrEquals => "'|=' token"@,
            ScanToken::XorEquals => "'^=' token"@,
            ScanToken::LeftShiftEquals => "'<<=' token"@,
            ScanToken::RightShiftEquals => "'>>=' token"@,
            ScanToken::ModEquals => "'%=' token"@,
            ScanToken::PowEquals => "'**=' token"@,
            ScanToken::Plus => "'+' token"@,
            ScanToken::Minus => "'-' token"@,
            ScanToken::Mul => "'*' token"@,
            ScanToken::Div => "'/' token"@,
            ScanToken::BitwiseAnd => "'&' token"@,
            ScanToken::BitwiseOr => "'|' token"@,
            ScanToken::BitwiseXor => "'^' token"@,
            ScanToken::Mod => "'%' token"@,
            ScanToken::Pow => "'**' token"@,
            ScanToken::LeftShift => "'<<' token"@,
            ScanToken::RightShift => "'>>' token"@,
            ScanToken::LogicalNot => "'!' token"@,
            ScanToken::BitwiseNot => "'~' token"@,
            ScanToken::LogicalAnd => "'&&' token"@,
            ScanToken::LogicalOr => "'||' token"@,
            ScanToken::NotEquals => "'!=' token"@,
            ScanToken::DoubleEquals => "'==' token"@,
            ScanToken::LessThan => "'<' token"@,
            ScanToken::LessThanEquals => "'<=' token"@,
            ScanToken::GreaterThan => "'>' token"@,
            ScanToken::GreaterThanEquals => "'>=' token"@,
            ScanToken::OpenParen => "'(' token"@,
            ScanToken::CloseParen => "')' token"@,
            ScanToken::OpenSquareBracket => "'[' token"@,
            ScanToken::CloseSquareBracket => "']' token"@,
            ScanToken::OpenBrace => "'{' token"@,
            ScanToken::CloseBrace => "'}' token"@,
            ScanToken::Comma => "',' token"@,
            ScanToken::Dot => "'.' token"@,
            ScanToken::Colon => "':' token"@,
            ScanToken::Arrow => "'->' token"@,
            ScanToken::Underscore => "'_' token"@,
            ScanToken::NewLine => "new line"@,
        }
    }

    fn format_error(&self) -> (r: String) {
        let mut r = String::new();
        match self {
            ScanToken::Identifier(s) => {
                push_str(&mut r, "identifier '");
                push_str(&mut r, s.as_str());
                push_str(&mut r, "'");
            },
            ScanToken::StringLiteral(s) => {
                push_str(&mut r, "string '");
                push_str(&mut r, s.as_str());
                push_str(&mut r, "'");
            },
            ScanToken::Int(i) => {
                push_str(&mut r, "integer '");
                push_decimal(&mut r, *i);
                push_str(&mut r, "'");
            },

            ScanToken::KeywordLet => push_str(&mut r, "'let' keyword"),
            ScanToken::KeywordFn => push_str(&mut r, "'fn' keyword"),
            ScanToken::KeywordIf => push_str(&mut r, "'if' keyword"),
            ScanToken::KeywordElif => push_str(&mut r, "'elif' keyword"),
            ScanToken::KeywordElse => push_str(&mut r, "'else' keyword"),
            ScanToken::KeywordLoop => push_str(&mut r, "'loop' keyword"),
            ScanToken::KeywordFor => push_str(&mut r, "'for' keyword"),
            ScanToken::KeywordIn => push_str(&mut r, "'in' keyword"),
            ScanToken::KeywordIs => push_str(&mut r, "'is' keyword"),
            ScanToken::KeywordBreak => push_str(&mut r, "'break' keyword"),
            ScanToken::KeywordContinue => push_str(&mut r, "'continue' keyword"),
            ScanToken::KeywordTrue => push_str(&mut r, "'true' keyword"),
            ScanToken::KeywordFalse => push_str(&mut r, "'false' keyword"),
            ScanToken::KeywordNil => push_str(&mut r, "'nil' keyword"),
            ScanToken::KeywordStruct => push_str(&mut r, "'struct' keyword"),
            ScanToken::KeywordInt => push_str(&mut r, "'int' keyword"),
            ScanToken::KeywordStr => push_str(&mut r, "'str' keyword"),
            ScanToken::KeywordBool => push_str(&mut r, "'bool' keyword"),
            ScanToken::Equals => push_str(&mut r, "'=' token"),
            ScanToken::PlusEquals => push_str(&mut r, "'+=' token"),
            ScanToken::MinusEquals => push_str(&mut r, "'-=' token"),
            ScanToken::MulEquals => push_str(&mut r, "'*=' token"),
            ScanToken::DivEquals => push_str(&mut r, "'/=' token"),
            ScanToken::AndEquals => push_str(&mut r, "'&=' token"),
            ScanToken::OrEquals => push_str(&mut r, "'|=' token"),
            ScanToken::XorEquals => push_str(&mut r, "'^=' token"),
            ScanToken::LeftShiftEquals => push_str(&mut r, "'<<=' token"),
            ScanToken::RightShiftEquals => push_str(&mut r, "'>>=' token"),
            ScanToken::ModEquals => push_str(&mut r, "'%=' token"),
            ScanToken::PowEquals => push_str(&mut r, "'**=' token"),
            ScanToken::Plus => push_str(&mut r, "'+' token"),
            ScanToken::Minus => push_str(&mut r, "'-' token"),
            ScanToken::Mul => push_str(&mut r, "'*' token"),
            ScanToken::Div => push_str(&mut r, "'/' token"),
            ScanToken::BitwiseAnd => push_str(&mut r, "'&' token"),
            ScanToken::BitwiseOr => push_str(&mut r, "'|' token"),
            ScanToken::BitwiseXor => push_str(&mut r, "'^' token"),
            ScanToken::Mod => push_str(&mut r, "'%' token"),
            ScanToken::Pow => push_str(&mut r, "'**' token"),
            ScanToken::LeftShift => push_str(&mut r, "'<<' token"),
            ScanToken::RightShift => push_str(&mut r, "'>>' token"),
            ScanToken::LogicalNot => push_str(&mut r, "'!' token"),
            ScanToken::BitwiseNot => push_str(&mut r, "'~' token"),
            ScanToken::LogicalAnd => push_str(&mut r, "'&&' token"),
            ScanToken::LogicalOr => push_str(&mut r, "'||' token"),
            ScanToken::NotEquals => push_str(&mut r, "'!=' token"),
            ScanToken::DoubleEquals => push_str(&mut r, "'==' token"),
            ScanToken::LessThan => push_str(&mut r, "'<' token"),
            ScanToken::LessThanEquals => push_str(&mut r, "'<=' token"),
            ScanToken::GreaterThan => push_str(&mut r, "'>' token"),
            ScanToken::GreaterThanEquals => push_str(&mut r, "'>=' token"),
            ScanToken::OpenParen => push_str(&mut r, "'(' token"),
            ScanToken::CloseParen => push_str(&mut r, "')' token"),
            ScanToken::OpenSquareBracket => push_str(&mut r, "'[' token"),
            ScanToken::CloseSquareBracket => push_str(&mut r, "']' token"),
            ScanToken::OpenBrace => push_str(&mut r, "'{' token"),
            ScanToken::CloseBrace => push_str(&mut r, "'}' token"),
            ScanToken::Comma => push_str(&mut r, "',' token"),
            ScanToken::Dot => push_str(&mut r, "'.' token"),
            ScanToken::Colon => push_str(&mut r, "':' token"),
            ScanToken::Arrow => push_str(&mut r, "'->' token"),
            ScanToken::Underscore => push_str(&mut r, "'_' token"),
            ScanToken::NewLine => push_str(&mut r, "new line"),
        }
        proof {
            assert(r@ =~= self.error_text());
        }
        r
    }
}

} // verus!
