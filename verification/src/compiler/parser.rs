//! The parser: turns scanned tokens into a postfix stream of `ParserToken`s, recording errors
//! and recovering from them at block boundaries.
use vstd::prelude::*;

use crate::compiler::scanner::{ScanResult, ScanToken};
use crate::reporting::Location;
use crate::vm::error::RuntimeError;
use crate::vm::opcode::Opcode;
use crate::vm::value::Value;

pub mod codegen;
pub mod expr;
pub mod grammar;
pub mod halting;
pub mod laws;
pub mod newlines;
pub mod precedence;
pub mod roundtrip;

verus! {

#[derive(Eq, PartialEq, Debug, Clone)]
pub enum ParserToken {
    // Stack Operations
    StoreValue,
    Dupe,

    // Push
    Nil,
    True,
    False,
    Int(i64),
    Str(String),
    Identifier(String),

    // Unary Operators
    UnarySub,
    UnaryLogicalNot,
    UnaryBitwiseNot,

    // Binary Operators
    OpFuncEval(u8),
    OpArrayEval(u8),

    OpMul,
    OpDiv,
    OpMod,
    OpPow,

    OpAdd,
    OpSub,

    OpLeftShift,
    OpRightShift,

    OpLessThan,
    OpGreaterThan,
    OpLessThanEqual,
    OpGreaterThanEqual,
    OpEqual,
    OpNotEqual,

    OpBitwiseAnd,
    OpBitwiseOr,
    OpBitwiseXor,

    OpFuncCompose,

    OpLogicalAnd,
    OpLogicalOr,

    NewLine,
}

#[derive(Eq, PartialEq, Debug, Clone)]
pub struct ParserError {
    pub error: ParserErrorType,
    pub lineno: usize,
}

#[derive(Eq, PartialEq, Debug, Clone)]
pub enum ParserErrorType {
    UnexpectedEoF,
    UnexpectedEoFExpecting(ScanToken),

    Expecting(ScanToken, ScanToken),

    ExpectedExpressionTerminal(ScanToken),
    ExpectedCommaOrEndOfArguments(ScanToken),
}

pub struct ParserResult {
    pub tokens: Vec<ParserToken>,
    pub errors: Vec<ParserError>,
}

} // verus!

verus! {

use crate::compiler::parser::grammar::PState;

pub struct Parser {
    pub input: Vec<ScanToken>,
    pub pos: usize,
    pub output: Vec<ParserToken>,
    pub errors: Vec<ParserError>,

    pub lineno: usize,

    /// If we are in error recover mode, this flag is set
    pub error: bool,
    /// Set where the grammar has no way on: the input can not be parsed to its end.
    pub halted: bool,

    /// Generated code, the location of each opcode, and the constants it refers to.
    pub code: Vec<Opcode>,
    pub locations: Vec<Location>,
    pub constants: Vec<Value>,
    /// Errors found while generating code, with where they were found.
    pub runtime_errors: Vec<(Location, RuntimeError)>,
}

impl View for Parser {
    type V = PState;

    open spec fn view(&self) -> PState {
        PState {
            pos: self.pos as nat,
            output: self.output@,
            errors: self.errors@,
            lineno: self.lineno as nat,
            error: self.error,
            halted: self.halted,
        }
    }
}

/// Parses the scanned tokens as a sequence of statements. The grammar halts only on inputs
/// that hold a `let`, a `[` or at least 255 commas (`halting::law_parse_stops_only_at`);
/// `try_parse` takes every input.
pub fn parse(scan_result: ScanResult) -> (r: ParserResult)
    requires
        !grammar::parse_all(scan_result.tokens@).halted,
    ensures
        r.tokens@ == grammar::parse_all(scan_result.tokens@).output,
        r.errors@ == grammar::parse_all(scan_result.tokens@).errors,
{
    let mut parser = Parser::new(scan_result.tokens);
    parser.parse();
    ParserResult { tokens: parser.output, errors: parser.errors }
}

/// Parses the scanned tokens as a sequence of statements, or gives `None` on the inputs on
/// which `parse` has no way on: a `let` statement, a call with more than 255 arguments, or a
/// `[` after an expression.
pub fn try_parse(scan_result: ScanResult) -> (r: Option<ParserResult>)
    ensures
        r is None <==> grammar::parse_all(scan_result.tokens@).halted,
        r matches Some(x) ==> x.tokens@ == grammar::parse_all(scan_result.tokens@).output
            && x.errors@ == grammar::parse_all(scan_result.tokens@).errors,
{
    let mut parser = Parser::new(scan_result.tokens);
    parser.parse();
    if parser.halted {
        None
    } else {
        Some(ParserResult { tokens: parser.output, errors: parser.errors })
    }
}

fn op_at_exec(level: u8, t: &ScanToken) -> (r: Option<ParserToken>)
    ensures
        r == grammar::op_at(level as nat, *t),
{
    if level == 3 {
        match t {
            ScanToken::Mul => Some(ParserToken::OpMul),
            ScanToken::Div => Some(ParserToken::OpDiv),
            ScanToken::Mod => Some(ParserToken::OpMod),
            _ => None,
        }
    } else if level == 4 {
        match t {
            ScanToken::Plus => Some(ParserToken::OpAdd),
            ScanToken::Minus => Some(ParserToken::OpSub),
            _ => None,
        }
    } else if level == 5 {
        match t {
            ScanToken::LeftShift => Some(ParserToken::OpLeftShift),
            ScanToken::RightShift => Some(ParserToken::OpRightShift),
            _ => None,
        }
    } else if level == 6 {
        match t {
            ScanToken::LessThan => Some(ParserToken::OpLessThan),
            ScanToken::LessThanEquals => Some(ParserToken::OpLessThanEqual),
            ScanToken::GreaterThan => Some(ParserToken::OpGreaterThan),
            ScanToken::GreaterThanEquals => Some(ParserToken::OpGreaterThanEqual),
            ScanToken::DoubleEquals => Some(ParserToken::OpEqual),
            ScanToken::NotEquals => Some(ParserToken::OpNotEqual),
            _ => None,
        }
    } else if level == 7 {
        match t {
            ScanToken::BitwiseAnd => Some(ParserToken::OpBitwiseAnd),
            ScanToken::BitwiseOr => Some(ParserToken::OpBitwiseOr),
            ScanToken::BitwiseXor => Some(ParserToken::OpBitwiseXor),
            _ => None,
        }
    } else if level == 8 {
        match t {
            ScanToken::Dot => Some(ParserToken::OpFuncCompose),
            _ => None,
        }
    } else if level == 9 {
        match t {
            ScanToken::LogicalAnd => Some(ParserToken::OpLogicalAnd),
            ScanToken::LogicalOr => Some(ParserToken::OpLogicalOr),
            _ => None,
        }
    } else {
        None
    }
}

impl Parser {
    /// What parsing leaves as it is: the input, and the generated code with its locations,
    /// constants and the errors found generating it, are those of `before`.
    pub open spec fn rest_unchanged(self, before: Parser) -> bool {
        &&& self.input == before.input
        &&& self.code == before.code
        &&& self.locations == before.locations
        &&& self.constants == before.constants
        &&& self.runtime_errors == before.runtime_errors
    }

    /// `self` is what reading the next token past new lines leaves of `before`.
    pub open spec fn advanced_from(self, before: Parser) -> bool {
        &&& self@ == grammar::advance(before.input@, before@).0
        &&& self.rest_unchanged(before)
    }

    /// `skip` is `advance` with the token it reads dropped: both leave a parser in the same
    /// state, field by field (the output and the errors by their contents).
    pub proof fn law_skip_is_advance(p: Parser, q1: Parser, q2: Parser)
        requires
            q1.advanced_from(p),
            q2.advanced_from(p),
        ensures
            q1@ == q2@,
            q1.pos == q2.pos,
            q1.output@ == q2.output@,
            q1.errors@ == q2.errors@,
            q1.lineno == q2.lineno,
            q1.error == q2.error,
            q1.halted == q2.halted,
            q1.rest_unchanged(q2),
    {
    }

    /// The position and line number stay within the input.
    pub open spec fn wf(&self) -> bool {
        self.lineno <= self.pos <= self.input.len()
    }

    /// A parser at the start of `tokens`.
    pub fn new(tokens: Vec<ScanToken>) -> (r: Parser)
        ensures
            r.wf(),
            r.input@ == tokens@,
            r@ == grammar::initial(),
            r.code@.len() == 0,
            r.locations@.len() == 0,
            r.constants@.len() == 0,
            r.runtime_errors@.len() == 0,
    {
        Parser {
            input: tokens,
            pos: 0,
            output: Vec::new(),
            errors: Vec::new(),
            lineno: 0,
            error: false,
            halted: false,
            code: Vec::new(),
            locations: Vec::new(),
            constants: Vec::new(),
            runtime_errors: Vec::new(),
        }
    }

    fn parse(&mut self)
        requires
            old(self).wf(),
        ensures
            final(self).rest_unchanged(*old(self)),
            final(self).wf(),
            final(self).input@ == old(self).input@,
            final(self)@ == grammar::statements(old(self).input@, old(self)@),
    {
        self.parse_statements();
    }

    // ===== Parser Core ===== //

    #[verifier::loop_isolation(false)]
    fn skip_new_line(&mut self)
        requires
            old(self).wf(),
        ensures
            final(self).rest_unchanged(*old(self)),
            old(self).pos <= final(self).pos,
            final(self).wf(),
            final(self).input@ == old(self).input@,
            final(self)@ == grammar::skip_new_line(old(self).input@, old(self)@),
    {
        let ghost toks = self.input@;
        let ghost s0 = self@;
        while self.pos < self.input.len() && matches!(self.input[self.pos], ScanToken::NewLine)
            invariant
                self.rest_unchanged(*old(self)),
                self.wf(),
                self.input@ == toks,
                s0.pos <= self.pos,
                grammar::skip_new_line(toks, self@) == grammar::skip_new_line(toks, s0),
            decreases self.input.len() - self.pos,
        {
            self.pos = self.pos + 1;
            self.lineno = self.lineno + 1;
            self.output.push(ParserToken::NewLine);
        }
    }

    /// Peeks at the next incoming token (past new lines), unless recovering from an error.
    fn peek(&mut self) -> (r: Option<ScanToken>)
        requires
            old(self).wf(),
        ensures
            final(self).rest_unchanged(*old(self)),
            old(self).pos <= final(self).pos,
            final(self).wf(),
            final(self).input@ == old(self).input@,
            final(self)@ == grammar::peek(old(self).input@, old(self)@).0,
            r == grammar::peek(old(self).input@, old(self)@).1,
    {
        if self.error {
            return None;
        }
        self.skip_new_line();
        if self.pos < self.input.len() {
            Some(self.input[self.pos].duplicate())
        } else {
            None
        }
    }

    /// Advances and returns the next incoming token.
    pub fn advance(&mut self) -> (r: Option<ScanToken>)
        requires
            old(self).wf(),
        ensures
            final(self).rest_unchanged(*old(self)),
            old(self).pos <= final(self).pos,
            final(self).wf(),
            final(self).input@ == old(self).input@,
            final(self).advanced_from(*old(self)),
            r == grammar::advance(old(self).input@, old(self)@).1,
    {
        if self.error {
            return None;
        }
        self.skip_new_line();
        if self.pos < self.input.len() {
            let t = self.input[self.pos].duplicate();
            self.pos = self.pos + 1;
            Some(t)
        } else {
            None
        }
    }

    /// Like `grammar::advance()` but discards the result.
    pub fn skip(&mut self)
        requires
            old(self).wf(),
        ensures
            final(self).rest_unchanged(*old(self)),
            old(self).pos <= final(self).pos,
            final(self).wf(),
            final(self).input@ == old(self).input@,
            final(self).advanced_from(*old(self)),
    {
        self.advance();
    }

    /// Pushes a new token into the output stream
    fn push(&mut self, token: ParserToken)
        ensures
            final(self).rest_unchanged(*old(self)),
            final(self).input@ == old(self).input@,
            final(self).pos == old(self).pos,
            final(self).lineno == old(self).lineno,
            final(self)@ == grammar::push(old(self)@, token),
    {
        self.output.push(token);
    }

    fn push_err(&mut self, error: ParserErrorType)
        ensures
            final(self).rest_unchanged(*old(self)),
            final(self).input@ == old(self).input@,
            final(self).pos == old(self).pos,
            final(self).lineno == old(self).lineno,
            final(self)@ == grammar::push_err(old(self)@, error),
    {
        if !self.error {
            self.errors.push(ParserError { error, lineno: self.lineno });
        }
        self.error = true;
    }

    /// If the given token is present, accept it and return `true`. Otherwise, do nothing and return `false`.
    fn accept(&mut self, token: ScanToken) -> (r: bool)
        requires
            old(self).wf(),
        ensures
            final(self).rest_unchanged(*old(self)),
            old(self).pos <= final(self).pos,
            final(self).wf(),
            final(self).input@ == old(self).input@,
            (final(self)@, r) == grammar::accept(old(self).input@, old(self)@, token),
    {
        match self.peek() {
            Some(t) => {
                if t.is_token(&token) {
                    self.advance();
                    true
                } else {
                    false
                }
            },
            None => false,
        }
    }

    /// If the given token is present, accept it. Otherwise, flag an error and enter error recovery mode.
    fn expect(&mut self, token: ScanToken)
        requires
            old(self).wf(),
        ensures
            final(self).rest_unchanged(*old(self)),
            old(self).pos <= final(self).pos,
            final(self).wf(),
            final(self).input@ == old(self).input@,
            final(self)@ == grammar::expect(old(self).input@, old(self)@, token),
    {
        self.skip_new_line();
        match self.peek() {
            Some(t) => {
                if t.is_token(&token) {
                    self.pos = self.pos + 1;
                } else {
                    self.push_err(ParserErrorType::Expecting(token, t))
                }
            },
            None => self.push_err(ParserErrorType::UnexpectedEoFExpecting(token)),
        }
    }

    /// Acts as a resynchronization point for error mode
    /// Accepts tokens from the input (ignoring the current state of error recovery mode), until we reach the expected token or an empty input.
    /// If we reach the expected token, it is consumed and error mode is unset.
    #[verifier::loop_isolation(false)]
    fn expect_resync(&mut self, token: ScanToken)
        requires
            old(self).wf(),
        ensures
            final(self).rest_unchanged(*old(self)),
            old(self).pos <= final(self).pos,
            final(self).wf(),
            final(self).input@ == old(self).input@,
            final(self)@ == grammar::expect_resync(old(self).input@, old(self)@, token),
    {
        let ghost toks = self.input@;
        self.skip_new_line();
        if let Some(t) = self.peek() { // First, check for grammar::expect() without raising an error
            if t.is_token(&token) {
                self.advance();
                return;
            }
        }
        let ghost s1 = self@;
        // Then if we fail, start resync
        loop
            invariant
                self.rest_unchanged(*old(self)),
                self.wf(),
                self.input@ == toks,
                s1.pos <= self.pos,
                grammar::resync_loop(toks, self@, token) == grammar::resync_loop(toks, s1, token),
            decreases self.input.len() - self.pos,
        {
            let ghost sb = self@;
            self.skip_new_line();
            proof {
                grammar::lemma_skip_new_line(toks, sb);
            }
            if self.pos < self.input.len() {
                if self.input[self.pos].is_token(&token) {
                    self.error = false;
                    self.pos = self.pos + 1;
                    break;
                } else {
                    self.pos = self.pos + 1;
                }
            } else {
                break;
            }
        }
    }

    /// Advances the token stream and pushes the provided token to the output stream.
    fn advance_push(&mut self, token: ParserToken)
        requires
            old(self).wf(),
        ensures
            final(self).rest_unchanged(*old(self)),
            old(self).pos <= final(self).pos,
            final(self).wf(),
            final(self).input@ == old(self).input@,
            final(self)@ == grammar::push(grammar::advance(old(self).input@, old(self)@).0, token),
    {
        self.advance();
        self.push(token);
    }

    /// Like `grammar::advance()`, but returns the boxed `Identifier` token.
    /// **Important**: Must only be called once `grammar::peek()` has identified an `Identifier` token is present.
    fn take_identifier(&mut self) -> (r: String)
        requires
            old(self).wf(),
            grammar::advance(old(self).input@, old(self)@).1 matches Some(ScanToken::Identifier(_)),
        ensures
            final(self).rest_unchanged(*old(self)),
            old(self).pos <= final(self).pos,
            final(self).wf(),
            final(self).input@ == old(self).input@,
            final(self)@ == grammar::advance(old(self).input@, old(self)@).0,
            grammar::advance(old(self).input@, old(self)@).1 == Some(ScanToken::Identifier(r)),
    {
        match self.advance() {
            Some(ScanToken::Identifier(name)) => name,
            _ => {
                proof {
                    assert(false);
                }
                String::new()
            },
        }
    }

    /// Like `grammar::advance()`, but returns the boxed `Int` token.
    /// **Important**: Must only be called once `grammar::peek()` has identified an `Int` token is present.
    fn take_int(&mut self) -> (r: i64)
        requires
            old(self).wf(),
            grammar::advance(old(self).input@, old(self)@).1 matches Some(ScanToken::Int(_)),
        ensures
            final(self).rest_unchanged(*old(self)),
            old(self).pos <= final(self).pos,
            final(self).wf(),
            final(self).input@ == old(self).input@,
            final(self)@ == grammar::advance(old(self).input@, old(self)@).0,
            grammar::advance(old(self).input@, old(self)@).1 == Some(ScanToken::Int(r)),
    {
        match self.advance() {
            Some(ScanToken::Int(i)) => i,
            _ => {
                proof {
                    assert(false);
                }
                0
            },
        }
    }

    /// Like `grammar::advance()`, but returns the boxed `String` literal token.
    /// **Important**: Must only be called once `grammar::peek()` has identified a `StringLiteral` token is present.
    fn take_str(&mut self) -> (r: String)
        requires
            old(self).wf(),
            grammar::advance(old(self).input@, old(self)@).1 matches Some(ScanToken::StringLiteral(_)),
        ensures
            final(self).rest_unchanged(*old(self)),
            old(self).pos <= final(self).pos,
            final(self).wf(),
            final(self).input@ == old(self).input@,
            final(self)@ == grammar::advance(old(self).input@, old(self)@).0,
            grammar::advance(old(self).input@, old(self)@).1 == Some(ScanToken::StringLiteral(r)),
    {
        match self.advance() {
            Some(ScanToken::StringLiteral(s)) => s,
            _ => {
                proof {
                    assert(false);
                }
                String::new()
            },
        }
    }
}

} // verus!

verus! {

impl Parser {
    // ===== Expression Parsing ===== //

    fn parse_expr_1_terminal(&mut self)
        requires
            old(self).wf(),
        ensures
            final(self).rest_unchanged(*old(self)),
            final(self).wf(),
            final(self).input@ == old(self).input@,
            final(self)@ == grammar::expr_terminal(old(self).input@, old(self)@),
            old(self).pos <= final(self).pos,
        decreases grammar::rem(old(self).input@, old(self)@), 1nat, 0nat,
    {
        let ghost toks = self.input@;
        proof {
            grammar::lemma_halting(toks);
        }
        if self.halted {
            return;
        }
        let ghost s0 = self@;
        proof {
            grammar::lemma_peek(toks, s0);
        }
        match self.peek() {
            Some(ScanToken::KeywordNil) => self.advance_push(ParserToken::Nil),
            Some(ScanToken::KeywordTrue) => self.advance_push(ParserToken::True),
            Some(ScanToken::KeywordFalse) => self.advance_push(ParserToken::False),
            Some(ScanToken::Int(_)) => {
                proof {
                    grammar::lemma_advance(toks, self@);
                    grammar::lemma_skip_new_line_idem(toks, s0);
                }
                let value: i64 = self.take_int();
                self.push(ParserToken::Int(value));
            },
            Some(ScanToken::Identifier(_)) => {
                proof {
                    grammar::lemma_advance(toks, self@);
                    grammar::lemma_skip_new_line_idem(toks, s0);
                }
                let string: String = self.take_identifier();
                self.push(ParserToken::Identifier(string));
            },
            Some(ScanToken::StringLiteral(_)) => {
                proof {
                    grammar::lemma_advance(toks, self@);
                    grammar::lemma_skip_new_line_idem(toks, s0);
                }
                let string = self.take_str();
                self.push(ParserToken::Str(string));
            },
            Some(ScanToken::OpenParen) => {
                let ghost s1 = self@;
                proof {
                    grammar::lemma_advance(toks, s1);
                }
                self.advance();
                proof {
                    grammar::lemma_rem(toks, s0, self@);
                }
                self.parse_expr_9();
                self.expect(ScanToken::CloseParen);
            },
            Some(e) => {
                self.push(ParserToken::Nil);
                self.push_err(ParserErrorType::ExpectedExpressionTerminal(e));
            },
            None => {
                self.push(ParserToken::Nil);
                self.push_err(ParserErrorType::UnexpectedEoF)
            },
        }
    }

    /// Reads the prefix operators before an expression terminal, in the order read.
    #[verifier::loop_isolation(false)]
    fn parse_prefix_ops(&mut self) -> (stack: Vec<ParserToken>)
        requires
            old(self).wf(),
        ensures
            final(self).rest_unchanged(*old(self)),
            final(self).wf(),
            final(self).input@ == old(self).input@,
            old(self).pos <= final(self).pos,
            (final(self)@, stack@) == grammar::prefix_ops(old(self).input@, old(self)@),
    {
        let ghost toks = self.input@;
        let ghost s0 = self@;
        let mut stack: Vec<ParserToken> = Vec::new();
        loop
            invariant
                self.rest_unchanged(*old(self)),
                self.wf(),
                self.input@ == toks,
                s0.pos <= self.pos,
                grammar::prefix_ops(toks, s0) == (
                    grammar::prefix_ops(toks, self@).0,
                    stack@ + grammar::prefix_ops(toks, self@).1,
                ),
            decreases self.input.len() - self.pos,
        {
            let ghost sb = self@;
            proof {
                grammar::lemma_peek(toks, sb);
            }
            let maybe_op: Option<ParserToken> = match self.peek() {
                Some(ScanToken::Minus) => Some(ParserToken::UnarySub),
                Some(ScanToken::BitwiseNot) => Some(ParserToken::UnaryBitwiseNot),
                Some(ScanToken::LogicalNot) => Some(ParserToken::UnaryLogicalNot),
                _ => None,
            };
            match maybe_op {
                Some(op) => {
                    proof {
                        grammar::lemma_advance(toks, self@);
                    }
                    self.advance();
                    let ghost ops = stack@;
                    stack.push(op);
                    proof {
                        assert(stack@ + grammar::prefix_ops(toks, self@).1 =~= ops + (seq![op]
                            + grammar::prefix_ops(toks, self@).1));
                    }
                },
                None => {
                    proof {
                        assert(stack@ + seq![] =~= stack@);
                    }
                    break;
                },
            }
        }
        stack
    }

    /// Reads the arguments after the first one, counting from one.
    #[verifier::loop_isolation(false)]
    fn parse_arguments(&mut self) -> (count: u8)
        requires
            old(self).wf(),
        ensures
            final(self).rest_unchanged(*old(self)),
            final(self).wf(),
            final(self).input@ == old(self).input@,
            old(self).pos <= final(self).pos,
            grammar::args(old(self).input@, old(self)@, 1) == (final(self)@, count as nat),
        decreases grammar::rem(old(self).input@, old(self)@), 2nat, 0nat,
    {
        let ghost toks = self.input@;
        let ghost s0 = self@;
        proof {
            grammar::lemma_halting(toks);
            reveal_with_fuel(grammar::args, 2);
        }
        let mut count: u8 = 1;
        loop
            invariant
                self.rest_unchanged(*old(self)),
                self.wf(),
                self.input@ == toks,
                s0.pos <= self.pos,
                1 <= count,
                grammar::args(toks, self@, count as nat) == grammar::args(toks, s0, 1),
            decreases self.input.len() - self.pos,
        {
            if self.halted {
                break;
            }
            let ghost sc = self@;
            proof {
                grammar::lemma_peek(toks, sc);
            }
            match self.peek() {
                Some(ScanToken::Comma) => {
                    proof {
                        grammar::lemma_advance(toks, self@);
                    }
                    self.advance();
                    proof {
                        grammar::lemma_rem(toks, s0, self@);
                    }
                    self.parse_expr_9();
                    if count == 255 {
                        // A 256th argument does not fit the call's count.
                        self.halted = true;
                        break;
                    }
                    count += 1;
                },
                _ => break,
            }
        }
        count
    }

    /// Reads calls after an expression terminal: `(`, arguments separated by `,`, then `)`.
    #[verifier::loop_isolation(false)]
    fn parse_suffix(&mut self)
        requires
            old(self).wf(),
        ensures
            final(self).rest_unchanged(*old(self)),
            final(self).wf(),
            final(self).input@ == old(self).input@,
            old(self).pos <= final(self).pos,
            final(self)@ == grammar::suffix(old(self).input@, old(self)@),
        decreases grammar::rem(old(self).input@, old(self)@), 2nat, 1nat,
    {
        let ghost toks = self.input@;
        let ghost s0 = self@;
        proof {
            grammar::lemma_halting(toks);
            reveal_with_fuel(grammar::suffix, 2);
        }
        loop
            invariant
                self.rest_unchanged(*old(self)),
                self.wf(),
                self.input@ == toks,
                s0.pos <= self.pos,
                grammar::suffix(toks, self@) == grammar::suffix(toks, s0),
            decreases self.input.len() - self.pos,
        {
            if self.halted {
                break;
            }
            let ghost sb = self@;
            proof {
                grammar::lemma_peek(toks, sb);
            }
            match self.peek() {
                Some(ScanToken::OpenParen) => {
                    let mut count: u8 = 0;
                    proof {
                        grammar::lemma_advance(toks, self@);
                    }
                    self.advance();
                    let ghost sa = self@;
                    proof {
                        grammar::lemma_peek(toks, sa);
                    }
                    match self.peek() {
                        Some(ScanToken::CloseParen) => {
                            proof {
                                grammar::lemma_advance(toks, self@);
                            }
                            self.advance();
                        },
                        Some(_) => {
                            let ghost s3 = self@;
                            proof {
                                grammar::lemma_rem(toks, s0, s3);
                                grammar::lemma_rem(toks, sb, s3);
                            }
                            // First argument
                            self.parse_expr_9();
                            let ghost s5 = self@;
                            proof {
                                grammar::lemma_rem(toks, sb, s5);
                            }
                            // Other arguments
                            count = self.parse_arguments();
                            let ghost s6 = self@;
                            proof {
                                grammar::lemma_peek(toks, s6);
                            }
                            match self.peek() {
                                Some(ScanToken::CloseParen) => self.skip(),
                                Some(c) => {
                                    self.push_err(ParserErrorType::ExpectedCommaOrEndOfArguments(c))
                                },
                                _ => self.push_err(ParserErrorType::UnexpectedEoF),
                            }
                        },
                        None => self.push_err(ParserErrorType::UnexpectedEoF),
                    }
                    if self.halted {
                        break;
                    }
                    self.push(ParserToken::OpFuncEval(count));
                },
                Some(ScanToken::OpenSquareBracket) => {
                    // Array and slice syntax is not read yet.
                    self.halted = true;
                    break;
                },
                _ => break,
            }
        }
    }

    fn parse_expr_2_unary(&mut self)
        requires
            old(self).wf(),
        ensures
            final(self).rest_unchanged(*old(self)),
            final(self).wf(),
            final(self).input@ == old(self).input@,
            final(self)@ == grammar::expr_unary(old(self).input@, old(self)@),
            old(self).pos <= final(self).pos,
        decreases grammar::rem(old(self).input@, old(self)@), 2nat, 2nat,
    {
        let ghost toks = self.input@;
        let ghost s0 = self@;
        proof {
            grammar::lemma_halting(toks);
        }
        if self.halted {
            return;
        }
        // Prefix operators
        let mut stack: Vec<ParserToken> = self.parse_prefix_ops();
        let ghost s1 = self@;
        proof {
            grammar::lemma_prefix_ops(toks, s0);
            grammar::lemma_rem(toks, s0, s1);
        }
        self.parse_expr_1_terminal();
        let ghost s2 = self@;
        proof {
            grammar::lemma_rem(toks, s0, s2);
        }
        // Suffix operators
        self.parse_suffix();

        // Prefix operators are lower precedence than suffix operators
        let ghost s3 = self@;
        let ghost ops = stack@;
        while stack.len() > 0
            invariant
                self.rest_unchanged(*old(self)),
                self.wf(),
                self.input@ == toks,
                s3.pos <= self.pos,
                stack@.len() <= ops.len(),
                stack@ == ops.subrange(0, stack@.len() as int),
                self@ == grammar::push_rev(s3, ops.subrange(stack@.len() as int, ops.len() as int)),
            decreases stack.len(),
        {
            let ghost k = stack@.len() - 1;
            match stack.pop() {
                Some(op) => {
                    self.push(op);
                    proof {
                        assert(ops.subrange(k as int, ops.len() as int).reverse() =~= ops.subrange(
                            k + 1 as int,
                            ops.len() as int,
                        ).reverse().push(ops[k as int]));
                        assert(stack@ =~= ops.subrange(0, k as int));
                    }
                },
                None => {},
            }
        }
        proof {
            assert(ops.subrange(0, ops.len() as int) =~= ops);
            assert(ops.subrange(ops.len() as int, ops.len() as int).reverse() =~= Seq::<ParserToken>::empty());
            assert(s3.output + Seq::<ParserToken>::empty() =~= s3.output);
        }
    }

    /// Operands of `level - 1` joined by the operators of `level`, for levels 3 to 9.
    #[verifier::loop_isolation(false)]
    fn parse_binary(&mut self, level: u8)
        requires
            3 <= level <= 9,
            old(self).wf(),
        ensures
            final(self).rest_unchanged(*old(self)),
            final(self).wf(),
            final(self).input@ == old(self).input@,
            final(self)@ == grammar::expr(old(self).input@, old(self)@, level as nat),
            old(self).pos <= final(self).pos,
        decreases grammar::rem(old(self).input@, old(self)@), level as nat, 3nat,
    {
        let ghost toks = self.input@;
        proof {
            grammar::lemma_halting(toks);
            reveal_with_fuel(grammar::expr, 2);
            reveal_with_fuel(grammar::binop_loop, 2);
        }
        if self.halted {
            return;
        }
        let ghost s0 = self@;
        if level == 3 {
            assert(grammar::expr(toks, s0, 2) == grammar::expr_unary(toks, s0));
            self.parse_expr_2_unary();
        } else {
            assert(((level - 1) as u8) as nat == (level as nat - 1) as nat);
            self.parse_binary(level - 1);
        }
        let ghost s1 = self@;
        proof {
            grammar::lemma_rem(toks, s0, s1);
        }
        loop
            invariant
                self.rest_unchanged(*old(self)),
                3 <= level <= 9,
                self.wf(),
                self.input@ == toks,
                s1.pos <= self.pos,
                grammar::binop_loop(toks, self@, level as nat) == grammar::binop_loop(toks, s1, level as nat),
            decreases self.input.len() - self.pos,
        {
            if self.halted {
                break;
            }
            let ghost sb = self@;
            proof {
                grammar::lemma_peek(toks, sb);
            }
            let p = self.peek();
            let maybe_op: Option<ParserToken> = match p {
                Some(t) => op_at_exec(level, &t),
                None => None,
            };
            match maybe_op {
                Some(op) => {
                    proof {
                        grammar::lemma_advance(toks, self@);
                    }
                    self.advance();
                    proof {
                        grammar::lemma_rem(toks, sb, self@);
                    }
                    let ghost s2 = self@;
                    if level == 3 {
                        assert(grammar::expr(toks, s2, 2) == grammar::expr_unary(toks, s2));
                        self.parse_expr_2_unary();
                    } else {
                        assert(((level - 1) as u8) as nat == (level as nat - 1) as nat);
                        self.parse_binary(level - 1);
                    }
                    self.push(op);
                },
                None => break,
            }
        }
    }

    fn parse_expr_3(&mut self)
        requires
            old(self).wf(),
        ensures
            final(self).rest_unchanged(*old(self)),
            final(self).wf(),
            final(self).input@ == old(self).input@,
            final(self)@ == grammar::expr(old(self).input@, old(self)@, 3),
    {
        self.parse_binary(3);
    }

    fn parse_expr_4(&mut self)
        requires
            old(self).wf(),
        ensures
            final(self).rest_unchanged(*old(self)),
            final(self).wf(),
            final(self).input@ == old(self).input@,
            final(self)@ == grammar::expr(old(self).input@, old(self)@, 4),
    {
        self.parse_binary(4);
    }

    fn parse_expr_5(&mut self)
        requires
            old(self).wf(),
        ensures
            final(self).rest_unchanged(*old(self)),
            final(self).wf(),
            final(self).input@ == old(self).input@,
            final(self)@ == grammar::expr(old(self).input@, old(self)@, 5),
    {
        self.parse_binary(5);
    }

    fn parse_expr_6(&mut self)
        requires
            old(self).wf(),
        ensures
            final(self).rest_unchanged(*old(self)),
            final(self).wf(),
            final(self).input@ == old(self).input@,
            final(self)@ == grammar::expr(old(self).input@, old(self)@, 6),
    {
        self.parse_binary(6);
    }

    fn parse_expr_7(&mut self)
        requires
            old(self).wf(),
        ensures
            final(self).rest_unchanged(*old(self)),
            final(self).wf(),
            final(self).input@ == old(self).input@,
            final(self)@ == grammar::expr(old(self).input@, old(self)@, 7),
    {
        self.parse_binary(7);
    }

    fn parse_expr_8(&mut self)
        requires
            old(self).wf(),
        ensures
            final(self).rest_unchanged(*old(self)),
            final(self).wf(),
            final(self).input@ == old(self).input@,
            final(self)@ == grammar::expr(old(self).input@, old(self)@, 8),
    {
        self.parse_binary(8);
    }

    fn parse_expr_9(&mut self)
        requires
            old(self).wf(),
        ensures
            final(self).rest_unchanged(*old(self)),
            final(self).wf(),
            final(self).input@ == old(self).input@,
            final(self)@ == grammar::expr(old(self).input@, old(self)@, 9),
            old(self).pos <= final(self).pos,
        decreases grammar::rem(old(self).input@, old(self)@), 10nat, 0nat,
    {
        self.parse_binary(9);
    }

    /// Parses one expression, emitting it in postfix order.
    pub fn parse_expression(&mut self)
        requires
            old(self).wf(),
            !grammar::expr(old(self).input@, old(self)@, 9).halted,
        ensures
            final(self).rest_unchanged(*old(self)),
            final(self).wf(),
            final(self).input@ == old(self).input@,
            final(self)@ == grammar::expr(old(self).input@, old(self)@, 9),
            old(self).pos <= final(self).pos,
        decreases grammar::rem(old(self).input@, old(self)@), 11nat, 0nat,
    {
        self.parse_expr_9();
    }
}

} // verus!

verus! {

impl Parser {
    // ===== Statements ===== //

    #[verifier::loop_isolation(false)]
    fn parse_statements(&mut self)
        requires
            old(self).wf(),
        ensures
            final(self).rest_unchanged(*old(self)),
            final(self).wf(),
            final(self).input@ == old(self).input@,
            final(self)@ == grammar::statements(old(self).input@, old(self)@),
            old(self).pos <= final(self).pos,
        decreases grammar::rem(old(self).input@, old(self)@), 3nat,
    {
        let ghost toks = self.input@;
        proof {
            grammar::lemma_halting(toks);
            reveal_with_fuel(grammar::statements, 2);
        }
        let ghost s0 = self@;
        loop
            invariant
                self.rest_unchanged(*old(self)),
                self.wf(),
                self.input@ == toks,
                s0.pos <= self.pos,
                grammar::statements(toks, self@) == grammar::statements(toks, s0),
            decreases self.input.len() - self.pos,
        {
            if self.halted {
                break;
            }
            let ghost sb = self@;
            proof {
                grammar::lemma_peek(toks, sb);
            }
            let p = self.peek();
            let ghost s1 = self@;
            let before: usize = self.pos;
            proof {
                grammar::lemma_rem(toks, sb, s1);
            }
            match p {
                Some(ScanToken::KeywordFn) => self.parse_function(),
                Some(ScanToken::KeywordLet) => self.parse_let(),
                Some(ScanToken::KeywordIf) => self.parse_if(),
                Some(ScanToken::KeywordLoop) => self.parse_loop(),
                Some(ScanToken::KeywordFor) => self.parse_for(),
                Some(ScanToken::Identifier(_)) => self.parse_assignment(),
                Some(ScanToken::OpenBrace) => self.parse_block_statement(),
                _ => break,
            }
            proof {
                grammar::lemma_rem(toks, s1, self@);
            }
            if self.pos == before {
                // A statement that reads nothing and records no error would be read again
                // forever.
                if !self.error && !self.halted {
                    self.halted = true;
                }
                break;
            }
        }
    }

    fn parse_block_statement(&mut self)
        requires
            old(self).wf(),
        ensures
            final(self).rest_unchanged(*old(self)),
            final(self).wf(),
            final(self).input@ == old(self).input@,
            final(self)@ == grammar::block_statement(old(self).input@, old(self)@),
            old(self).pos <= final(self).pos,
        decreases grammar::rem(old(self).input@, old(self)@), 1nat,
    {
        let ghost toks = self.input@;
        proof {
            grammar::lemma_halting(toks);
            reveal_with_fuel(grammar::block_statement, 2);
        }
        if self.halted {
            return;
        }
        let ghost s0 = self@;
        proof {
            grammar::lemma_expect(toks, s0, ScanToken::OpenBrace);
        }
        self.expect(ScanToken::OpenBrace);
        proof {
            grammar::lemma_rem(toks, s0, self@);
        }
        if !self.error {
            self.parse_statements();
        }
        if self.halted {
            return;
        }
        proof {
            grammar::lemma_expect_resync(toks, self@, ScanToken::CloseBrace);
        }
        self.expect_resync(ScanToken::CloseBrace);
    }

    fn parse_function(&mut self)
        requires
            old(self).wf(),
        ensures
            final(self).rest_unchanged(*old(self)),
            final(self).wf(),
            final(self).input@ == old(self).input@,
            final(self)@ == grammar::function(old(self).input@, old(self)@),
            old(self).pos <= final(self).pos,
        decreases grammar::rem(old(self).input@, old(self)@), 2nat,
    {
        let ghost toks = self.input@;
        proof {
            grammar::lemma_halting(toks);
            reveal_with_fuel(grammar::function, 2);
        }
        if self.halted {
            return;
        }
        proof {
            grammar::lemma_accept(toks, self@, ScanToken::OpenParen);
        }
        if self.accept(ScanToken::OpenParen) {
            // Parameters are not read yet.
        }
        self.parse_block_statement();
    }

    fn parse_let(&mut self)
        requires
            old(self).wf(),
        ensures
            final(self).rest_unchanged(*old(self)),
            final(self).wf(),
            final(self).input@ == old(self).input@,
            final(self)@ == grammar::let_statement(old(self).input@, old(self)@),
            old(self).pos <= final(self).pos,
    {
        let ghost toks = self.input@;
        proof {
            grammar::lemma_halting(toks);
        }
        proof {
            grammar::lemma_accept(toks, self@, ScanToken::Equals);
        }
        self.parse_pattern();
        if self.accept(ScanToken::Equals) {
            self.parse_expr_9();
        }
    }

    #[verifier::loop_isolation(false)]
    fn parse_if(&mut self)
        requires
            old(self).wf(),
        ensures
            final(self).rest_unchanged(*old(self)),
            final(self).wf(),
            final(self).input@ == old(self).input@,
            final(self)@ == grammar::if_statement(old(self).input@, old(self)@),
            old(self).pos <= final(self).pos,
        decreases grammar::rem(old(self).input@, old(self)@), 2nat,
    {
        let ghost toks = self.input@;
        proof {
            grammar::lemma_halting(toks);
            reveal_with_fuel(grammar::elif_loop, 2);
            reveal_with_fuel(grammar::if_statement, 2);
        }
        if self.halted {
            return;
        }
        let ghost s0 = self@;
        self.parse_expr_9();
        proof {
            grammar::lemma_rem(toks, s0, self@);
        }
        self.parse_block_statement();
        let ghost s2 = self@;
        proof {
            grammar::lemma_rem(toks, s0, s2);
        }
        loop
            invariant
                self.rest_unchanged(*old(self)),
                self.wf(),
                self.input@ == toks,
                s2.pos <= self.pos,
                grammar::elif_loop(toks, self@) == grammar::elif_loop(toks, s2),
            decreases self.input.len() - self.pos,
        {
            if self.halted {
                break;
            }
            let ghost sb = self@;
            proof {
                grammar::lemma_accept(toks, sb, ScanToken::KeywordElif);
            }
            if self.accept(ScanToken::KeywordElif) {
                self.parse_block_statement();
                proof {
                    grammar::lemma_rem(toks, sb, self@);
                }
            } else {
                break;
            }
        }
        let ghost s3 = self@;
        proof {
            grammar::lemma_rem(toks, s0, s3);
            grammar::lemma_accept(toks, s3, ScanToken::KeywordElse);
        }
        if self.accept(ScanToken::KeywordElse) {
            self.parse_block_statement();
        }
    }

    fn parse_loop(&mut self)
        requires
            old(self).wf(),
        ensures
            final(self).rest_unchanged(*old(self)),
            final(self).wf(),
            final(self).input@ == old(self).input@,
            final(self)@ == grammar::block_statement(old(self).input@, old(self)@),
            old(self).pos <= final(self).pos,
        decreases grammar::rem(old(self).input@, old(self)@), 2nat,
    {
        self.parse_block_statement()
    }

    fn parse_for(&mut self)
        requires
            old(self).wf(),
        ensures
            final(self).rest_unchanged(*old(self)),
            final(self).wf(),
            final(self).input@ == old(self).input@,
            final(self)@ == grammar::for_statement(old(self).input@, old(self)@),
            old(self).pos <= final(self).pos,
        decreases grammar::rem(old(self).input@, old(self)@), 2nat,
    {
        let ghost toks = self.input@;
        proof {
            grammar::lemma_halting(toks);
            reveal_with_fuel(grammar::for_statement, 2);
        }
        if self.halted {
            return;
        }
        let ghost s0 = self@;
        proof {
            grammar::lemma_expect(toks, s0, ScanToken::KeywordIn);
        }
        self.parse_pattern();
        self.expect(ScanToken::KeywordIn);
        self.parse_expr_9();
        proof {
            grammar::lemma_rem(toks, s0, self@);
        }
        self.parse_block_statement();
    }

    fn parse_assignment(&mut self)
        requires
            old(self).wf(),
            grammar::advance(old(self).input@, old(self)@).1 matches Some(ScanToken::Identifier(_)),
        ensures
            final(self).rest_unchanged(*old(self)),
            final(self).wf(),
            final(self).input@ == old(self).input@,
            final(self)@ == grammar::assignment(old(self).input@, old(self)@),
            old(self).pos <= final(self).pos,
    {
        let ghost toks = self.input@;
        proof {
            grammar::lemma_halting(toks);
        }
        let name: String = self.take_identifier();
        let ghost s1 = self@;
        proof {
            grammar::lemma_peek(toks, s1);
        }
        let p = self.peek();
        if let Some(ScanToken::Equals) = p { // Assignment Statement
            self.push(ParserToken::Identifier(name));
            proof {
                grammar::lemma_advance(toks, self@);
            }
            self.advance();
            self.parse_expr_9();
            self.push(ParserToken::StoreValue);
            return
        }
        let maybe_op: Option<ParserToken> = match p {
            Some(ScanToken::PlusEquals) => Some(ParserToken::OpAdd),
            Some(ScanToken::MinusEquals) => Some(ParserToken::OpSub),
            Some(ScanToken::MulEquals) => Some(ParserToken::OpMul),
            Some(ScanToken::DivEquals) => Some(ParserToken::OpDiv),
            Some(ScanToken::AndEquals) => Some(ParserToken::OpBitwiseAnd),
            Some(ScanToken::OrEquals) => Some(ParserToken::OpBitwiseOr),
            Some(ScanToken::XorEquals) => Some(ParserToken::OpBitwiseXor),
            Some(ScanToken::LeftShiftEquals) => Some(ParserToken::OpLeftShift),
            Some(ScanToken::RightShiftEquals) => Some(ParserToken::OpRightShift),
            Some(ScanToken::ModEquals) => Some(ParserToken::OpMod),
            Some(ScanToken::PowEquals) => Some(ParserToken::OpPow),
            _ => None,
        };
        if let Some(op) = maybe_op { // Assignment Expression i.e. a += 3
            self.push(ParserToken::Identifier(name));
            self.push(ParserToken::Dupe);
            proof {
                grammar::lemma_advance(toks, self@);
            }
            self.advance();
            self.parse_expr_9();
            self.push(op);
            self.push(ParserToken::StoreValue);
        }
    }

    /// Patterns are not read yet.
    fn parse_pattern(&mut self)
        ensures
            *final(self) == *old(self),
    {
    }
}

} // verus!
