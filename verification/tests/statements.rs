use cordy::compiler::error_reporter::CompilerError;
use cordy::compiler::parser::ParserToken::{Dupe, Identifier, Int, NewLine, Nil, OpAdd, StoreValue};
use cordy::compiler::parser::{parse, ParserError, ParserErrorType, ParserResult};
use cordy::compiler::scanner::{self, ScanErrorType, ScanToken};

fn parse_text(text: &str) -> ParserResult {
    let scanned = scanner::scan(&String::from(text));
    assert!(scanned.errors.is_empty());
    parse(scanned)
}

fn name(x: &str) -> cordy::compiler::parser::ParserToken {
    Identifier(String::from(x))
}

#[test]
fn assignments_in_postfix_order() {
    let r = parse_text("x = 1 + 2\ny += 3");
    assert_eq!(r.tokens, vec![name("x"), Int(1), Int(2), NewLine, OpAdd, StoreValue, name("y"), Dupe, Int(3), OpAdd, StoreValue]);
    assert!(r.errors.is_empty());
}

#[test]
fn error_records_its_line() {
    let r = parse_text("x = 1\ny = )");
    assert_eq!(r.tokens, vec![name("x"), Int(1), NewLine, StoreValue, name("y"), Nil, StoreValue]);
    assert_eq!(r.errors, vec![ParserError { error: ParserErrorType::ExpectedExpressionTerminal(ScanToken::CloseParen), lineno: 1 }]);
}

#[test]
fn block_recovers_at_its_end() {
    let r = parse_text("{ x = ) } y = 2");
    assert_eq!(r.tokens, vec![name("x"), Nil, StoreValue, name("y"), Int(2), StoreValue]);
    assert_eq!(r.errors, vec![ParserError { error: ParserErrorType::ExpectedExpressionTerminal(ScanToken::CloseParen), lineno: 0 }]);
}

#[test]
fn statement_keyword_is_read_as_its_expression() {
    let r = parse_text("if (1 { }");
    assert_eq!(r.errors[0].format_error(), "Expected an expression terminal, got 'if' keyword instead");
}

#[test]
fn scanning_numbers_and_errors() {
    let r = scanner::scan(&String::from("let x = 0x1F + 0b11"));
    assert_eq!(r.tokens, vec![
        ScanToken::KeywordLet,
        ScanToken::Identifier(String::from("x")),
        ScanToken::Equals,
        ScanToken::Int(31),
        ScanToken::Plus,
        ScanToken::Int(3),
    ]);
    let bad = scanner::scan(&String::from("0q"));
    assert_eq!(bad.errors.len(), 1);
    assert_eq!(bad.errors[0].error, ScanErrorType::InvalidNumericPrefix('q'));
    assert_eq!(bad.errors[0].format_error(), "Invalid numeric prefix: '0q'");
}

#[test]
fn new_lines_between_statements_change_nothing_but_new_line_tokens() {
    let pairs = [
        ("if x {\n  a = 1\n}\nelif y {\n b += 2 }\nelse\n{ c = (\n3 ) }", "if x { a = 1 } elif y { b += 2 } else { c = ( 3 ) }"),
        ("{\nx = )\n}\ny\n=\n2", "{ x = ) } y = 2"),
        ("fn (\n{ for\nin z { w = 1 } }", "fn ( { for in z { w = 1 } }"),
    ];
    for (with, without) in pairs.iter() {
        let a = parse_text(with);
        let b = parse_text(without);
        let kept: Vec<_> = a.tokens.iter().filter(|t| **t != NewLine).cloned().collect();
        assert_eq!(kept, b.tokens);
        let ka: Vec<_> = a.errors.iter().map(|e| e.error.clone()).collect();
        let kb: Vec<_> = b.errors.iter().map(|e| e.error.clone()).collect();
        assert_eq!(ka, kb);
    }
}

#[test]
fn parse_has_no_way_on_where_the_grammar_stops() {
    let try_text = |text: &str| {
        let scanned = scanner::scan(&String::from(text));
        assert!(scanned.errors.is_empty());
        cordy::compiler::parser::try_parse(scanned)
    };
    assert!(try_text("let x = 1").is_none());
    assert!(try_text("x = f(1)[2]").is_none());
    let args = |n: usize| format!("x = f({})", vec!["1"; n].join(", "));
    assert!(try_text(&args(256)).is_none());
    let r = try_text(&args(255)).unwrap();
    assert_eq!(r.tokens[r.tokens.len() - 2], cordy::compiler::parser::ParserToken::OpFuncEval(255));
    let r = try_text("x = 1 + 2\ny += 3").unwrap();
    assert_eq!(r.tokens, parse_text("x = 1 + 2\ny += 3").tokens);
    assert!(r.errors.is_empty());
}

#[test]
fn inputs_without_let_bracket_or_many_commas_parse_to_their_end() {
    let programs = ["x = f(1, 2, 3)", "if a { b = -c } else { d += e . g }", "fn ( { x = ) }", "{ { } } y = (1"];
    for text in programs.iter() {
        let scanned = scanner::scan(&String::from(*text));
        assert!(scanned.errors.is_empty());
        assert!(cordy::compiler::parser::try_parse(scanned).is_some());
    }
    let args = |n: usize| format!("x = f({})", vec!["1"; n].join(", "));
    let scanned = scanner::scan(&args(255));
    assert!(cordy::compiler::parser::try_parse(scanned).is_some());
}

#[test]
fn skip_is_advance_without_its_token() {
    for text in ["\n\n x = 1", "", "if\n{", "\n"].iter() {
        let scanned = scanner::scan(&String::from(*text));
        let mut p1 = cordy::compiler::parser::Parser::new(scanned.tokens.clone());
        let mut p2 = cordy::compiler::parser::Parser::new(scanned.tokens);
        for _ in 0..3 {
            p1.skip();
            let _ = p2.advance();
            assert_eq!(p1.pos, p2.pos);
            assert_eq!(p1.output, p2.output);
            assert_eq!(p1.errors, p2.errors);
            assert_eq!(p1.lineno, p2.lineno);
            assert_eq!(p1.error, p2.error);
            assert_eq!(p1.halted, p2.halted);
            assert_eq!(p1.input, p2.input);
            assert_eq!(p1.code, p2.code);
            assert_eq!(p1.locations, p2.locations);
            assert_eq!(p1.constants.len(), p2.constants.len());
            assert_eq!(p1.runtime_errors.len(), p2.runtime_errors.len());
        }
    }
}
