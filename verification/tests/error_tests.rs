use wmd::ast::Unit;
use wmd::interpreter::Interpreter;
use wmd::lexer::Lexer;
use wmd::parser::Parser;
use wmd::reporting::SilentReporter;
use wmd::ast::Stmt;
use wmd::WmdError;

fn eval_err(src: &str) -> WmdError {
    let tokens = Lexer::new(src, SilentReporter).scan_tokens();
    let mut parser = Parser::new(tokens, SilentReporter);
    let stmts = parser.parse().unwrap();
    match stmts.into_iter().next().unwrap() {
        Stmt::Expr(e) => Interpreter::new().evaluate(&e).unwrap_err(),
        other => panic!("expected an expression statement, got {other:?}"),
    }
}

#[test]
fn runtime_error_messages_cite_line_and_operator() {
    assert_eq!(
        eval_err("-nil;").message(),
        "[line 1] Unary operator '-' requires number operand"
    );
    assert_eq!(
        eval_err("nil - 1;").message(),
        "[line 1] Binary operator '-' requires number operands"
    );
    assert_eq!(
        eval_err("nil + 1;").message(),
        "[line 1] Operator '+' requires number or string operands"
    );
    assert_eq!(eval_err("1 / 0;").message(), "[line 1] Division by zero");
    // the line cited is the operator's own
    assert_eq!(
        eval_err("1 +\n\nnil;").message(),
        "[line 1] Operator '+' requires number or string operands"
    );
    assert_eq!(
        eval_err("nil\n< 1;").message(),
        "[line 2] Binary operator '<' requires number operands"
    );
}

#[test]
fn unit_and_parse_error_messages() {
    let err = Unit::from_suffix('q').unwrap_err();
    assert_eq!(err.message(), "invalid unit, expected x, %, s or m");
    assert_eq!(WmdError::ParseError.message(), "error parsing");
}

#[test]
fn overflow_error_message() {
    let big = "99999999999999999999999999999999999999";
    let err = eval_err(&format!("{big} * {big};"));
    assert_eq!(err.message(), "[line 1] Number out of decimal range");
}
