use cordy::compiler::parser::ParserToken::{
    Identifier, Int, Nil, OpAdd, OpBitwiseAnd, OpBitwiseOr, OpDiv, OpFuncCompose, OpFuncEval,
    OpLeftShift, OpMod, OpMul, OpRightShift, OpSub, Str, UnaryBitwiseNot, UnaryLogicalNot,
    UnarySub,
};
use cordy::compiler::parser::{Parser, ParserToken};
use cordy::compiler::scanner::{self, ScanResult};

fn run_expr(text: &str, tokens: Vec<ParserToken>) {
    let result: ScanResult = scanner::scan(&String::from(text));
    assert!(result.errors.is_empty());

    let mut parser: Parser = Parser::new(result.tokens);

    parser.parse_expression();

    assert_eq!(tokens, parser.output);
}

#[test] fn test_str_empty() { run_expr("", vec![Nil]); }
#[test] fn test_str_int() { run_expr("123", vec![Int(123)]); }
#[test] fn test_str_str() { run_expr("'abc'", vec![Str(String::from("abc"))]); }
#[test] fn test_str_unary_minus() { run_expr("-3", vec![Int(3), UnarySub]); }
#[test] fn test_str_binary_mul() { run_expr("3 * 6", vec![Int(3), Int(6), OpMul]); }
#[test] fn test_str_binary_div() { run_expr("20 / 4 / 5", vec![Int(20), Int(4), OpDiv, Int(5), OpDiv]); }
#[test] fn test_str_binary_minus() { run_expr("6 - 7", vec![Int(6), Int(7), OpSub]); }
#[test] fn test_str_binary_and_unary_minus() { run_expr("15 -- 7", vec![Int(15), Int(7), UnarySub, OpSub]); }
#[test] fn test_str_binary_add_and_mod() { run_expr("1 + 2 % 3", vec![Int(1), Int(2), Int(3), OpMod, OpAdd]); }
#[test] fn test_str_binary_add_and_mod_rev() { run_expr("1 % 2 + 3", vec![Int(1), Int(2), OpMod, Int(3), OpAdd]); }
#[test] fn test_str_binary_shifts() { run_expr("1 << 2 >> 3", vec![Int(1), Int(2), OpLeftShift, Int(3), OpRightShift]); }
#[test] fn test_str_binary_shifts_and_operators() { run_expr("1 & 2 << 3 | 5", vec![Int(1), Int(2), Int(3), OpLeftShift, OpBitwiseAnd, Int(5), OpBitwiseOr]); }
#[test] fn test_str_function_composition() { run_expr("a . b", vec![Identifier(String::from("a")), Identifier(String::from("b")), OpFuncCompose]); }
#[test] fn test_str_precedence_with_parens() { run_expr("(1 + 2) * 3", vec![Int(1), Int(2), OpAdd, Int(3), OpMul]); }
#[test] fn test_str_precedence_with_parens_2() { run_expr("6 / (5 - 3)", vec![Int(6), Int(5), Int(3), OpSub, OpDiv]); }
#[test] fn test_str_precedence_with_parens_3() { run_expr("-(1 - 3)", vec![Int(1), Int(3), OpSub, UnarySub]); }
#[test] fn test_str_function_no_args() { run_expr("foo", vec![Identifier(String::from("foo"))]); }
#[test] fn test_str_function_one_arg() { run_expr("foo(1)", vec![Identifier(String::from("foo")), Int(1), OpFuncEval(1)]); }
#[test] fn test_str_function_many_args() { run_expr("foo(1,2,3)", vec![Identifier(String::from("foo")), Int(1), Int(2), Int(3), OpFuncEval(3)]); }
#[test] fn test_str_multiple_unary_ops() { run_expr("- ~ ! 1", vec![Int(1), UnaryLogicalNot, UnaryBitwiseNot, UnarySub]); }
#[test] fn test_str_multiple_function_calls() { run_expr("foo (1) (2) (3)", vec![Identifier(String::from("foo")), Int(1), OpFuncEval(1), Int(2), OpFuncEval(1), Int(3), OpFuncEval(1)]); }
#[test] fn test_str_multiple_function_calls_some_args() { run_expr("foo () (1) (2, 3)", vec![Identifier(String::from("foo")), OpFuncEval(0), Int(1), OpFuncEval(1), Int(2), Int(3), OpFuncEval(2)]); }
#[test] fn test_str_multiple_function_calls_no_args() { run_expr("foo () () ()", vec![Identifier(String::from("foo")), OpFuncEval(0), OpFuncEval(0), OpFuncEval(0)]); }
#[test] fn test_str_function_call_unary_op_precedence() { run_expr("- foo ()", vec![Identifier(String::from("foo")), OpFuncEval(0), UnarySub]); }
#[test] fn test_str_function_call_unary_op_precedence_with_parens() { run_expr("(- foo) ()", vec![Identifier(String::from("foo")), UnarySub, OpFuncEval(0)]); }
#[test] fn test_str_function_call_unary_op_precedence_with_parens_2() { run_expr("- (foo () )", vec![Identifier(String::from("foo")), OpFuncEval(0), UnarySub]); }
#[test] fn test_str_function_call_binary_op_precedence() { run_expr("foo ( 1 ) + ( 2 ( 3 ) )", vec![Identifier(String::from("foo")), Int(1), OpFuncEval(1), Int(2), Int(3), OpFuncEval(1), OpAdd]); }
