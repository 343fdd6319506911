use cordy::compiler::parser::expr::{Expr, ExprType};
use cordy::compiler::parser::ParserToken::{Identifier, Int, OpAdd, OpLessThan, OpMul, OpSub, UnarySub};
use cordy::compiler::parser::{Parser, ParserErrorType};
use cordy::compiler::scanner;
use cordy::reporting::Location;
use cordy::stdlib::lib_list::{list_slice, push};
use cordy::stdlib::strings::format_string;
use cordy::vm::opcode::Opcode;
use cordy::vm::value::Value;

fn parse_expression(text: &str) -> Parser {
    let scanned = scanner::scan(&String::from(text));
    assert!(scanned.errors.is_empty());
    let mut parser = Parser::new(scanned.tokens);
    parser.parse_expression();
    parser
}

#[test]
fn written_tree_reads_back_in_postfix_order() {
    let p = parse_expression("((1) * (2)) - (x)");
    assert_eq!(p.output, vec![Int(1), Int(2), OpMul, Identifier(String::from("x")), OpSub]);
    assert!(p.errors.is_empty());
    assert_eq!(p.pos, 13);
}

#[test]
fn expression_records_at_most_one_error() {
    let p = parse_expression("(1 + (2 * ");
    assert_eq!(p.errors.len(), 1);
    assert_eq!(p.errors[0].error, ParserErrorType::UnexpectedEoF);
    assert!(p.error);
}

#[test]
fn emitting_only_appends() {
    let mut p = Parser::new(vec![]);
    let loc = Location { start: 3, width: 2 };
    p.emit_expr(Expr(loc, ExprType::Int(7)));
    let before = p.code.clone();
    p.emit_expr(Expr(loc, ExprType::LogicalOr(
        Box::new(Expr(loc, ExprType::Bool(false))),
        Box::new(Expr(loc, ExprType::Nil)),
    )));
    assert_eq!(&p.code[..before.len()], &before[..]);
    assert_eq!(p.code.len(), p.locations.len());
    assert_eq!(p.code[2], Opcode::JumpIfTrue(2));
}

#[test]
fn full_and_reversed_slices() {
    let xs = || Value::List(vec![Value::Int(1), Value::Int(2), Value::Int(3)]);
    match list_slice(xs(), Value::Nil, Value::Nil, Value::Nil) {
        Ok(Value::List(ys)) => assert!(Value::List(ys).equals(&xs())),
        other => panic!("unexpected: {:?}", other),
    }
    match list_slice(xs(), Value::Nil, Value::Nil, Value::Int(-1)) {
        Ok(Value::List(ys)) => assert!(Value::List(ys).equals(&Value::List(vec![Value::Int(3), Value::Int(2), Value::Int(1)]))),
        other => panic!("unexpected: {:?}", other),
    }
}

#[test]
fn set_push_twice_is_push_once() {
    let once = push(Value::Int(5), Value::LinkedSet(vec![Value::Int(1)])).unwrap();
    let twice = push(Value::Int(5), push(Value::Int(5), Value::LinkedSet(vec![Value::Int(1)])).unwrap()).unwrap();
    assert!(once.equals(&twice));
    assert!(once.equals(&once));
}

#[test]
fn plain_text_formats_to_itself() {
    match format_string(&String::from("no directives here"), Value::Vector(vec![])) {
        Ok(Value::Str(s)) => assert_eq!(s, "no directives here"),
        other => panic!("unexpected: {:?}", other),
    }
}

#[test]
fn composition_chains_left_to_right() {
    let p = parse_expression("a . b . c");
    let n = |x: &str| Identifier(String::from(x));
    assert_eq!(p.output, vec![n("a"), n("b"), cordy::compiler::parser::ParserToken::OpFuncCompose, n("c"), cordy::compiler::parser::ParserToken::OpFuncCompose]);
}

#[test]
fn precedence_and_left_associativity() {
    let p = parse_expression("a - b - c * - d < e + 1");
    let n = |x: &str| Identifier(String::from(x));
    assert_eq!(p.output, vec![n("a"), n("b"), OpSub, n("c"), n("d"), UnarySub, OpMul, OpSub, n("e"), Int(1), OpAdd, OpLessThan]);
    assert!(p.errors.is_empty());
}

#[test]
fn new_lines_inside_an_expression_change_nothing_but_new_line_tokens() {
    use_new_lines_case("1 +\n2 *\n\n3", "1 + 2 * 3");
    use_new_lines_case("(\nx\n<\n-y\n", "( x < -y");
}

fn use_new_lines_case(with: &str, without: &str) {
    let a = parse_expression(with);
    let b = parse_expression(without);
    let kept: Vec<_> = a.output.iter().filter(|t| **t != cordy::compiler::parser::ParserToken::NewLine).cloned().collect();
    assert_eq!(kept, b.output);
    assert!(a.output.len() > b.output.len());
    let ka: Vec<_> = a.errors.iter().map(|e| e.error.clone()).collect();
    let kb: Vec<_> = b.errors.iter().map(|e| e.error.clone()).collect();
    assert_eq!(ka, kb);
    assert_eq!(a.error, b.error);
}
