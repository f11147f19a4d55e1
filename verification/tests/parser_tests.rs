use wmd::ast::{BinaryOp, Expr, Literal, LogicalOp, OpToken, Stmt, UnaryOp};
use wmd::lexer::Lexer;
use wmd::number::Decimal;
use wmd::parser::Parser;
use wmd::reporting::{CollectingReporter, SilentReporter};

fn parse_with_errors(src: &str) -> (Vec<Stmt>, usize) {
    let tokens = Lexer::new(src, SilentReporter).scan_tokens();
    let mut parser = Parser::new(tokens, CollectingReporter::new());
    let stmts = parser.parse().unwrap();
    let errors = parser.reporter().count();
    (stmts, errors)
}

fn parse_ok(src: &str) -> Vec<Stmt> {
    let (stmts, errors) = parse_with_errors(src);
    assert_eq!(errors, 0, "unexpected parse errors in {src:?}");
    stmts
}

fn num(n: u128) -> Expr {
    Expr::Literal(Literal::Number(Decimal { neg: false, m: n, e: 0 }))
}

fn bin(l: Expr, op: BinaryOp, line: usize, r: Expr) -> Expr {
    Expr::Binary(Box::new(l), OpToken { typ: op, line }, Box::new(r))
}

#[test]
fn parser() {
    // an expression without its closing semicolon: one error is reported and
    // the malformed statement stands as the inert placeholder
    let content = "true";
    let (stmts, errors) = parse_with_errors(content);
    assert_eq!(stmts, vec![Stmt::Skipped]);
    assert_eq!(errors, 1);
}

#[test]
fn star_binds_tighter_than_plus() {
    let stmts = parse_ok("1 + 2 * 3;");
    let expected = Stmt::Expr(bin(
        num(1),
        BinaryOp::Plus,
        1,
        bin(num(2), BinaryOp::Star, 1, num(3)),
    ));
    assert_eq!(stmts, vec![expected]);
}

#[test]
fn minus_is_left_associative() {
    let stmts = parse_ok("1 - 2 - 3;");
    let expected = Stmt::Expr(bin(
        bin(num(1), BinaryOp::Minus, 1, num(2)),
        BinaryOp::Minus,
        1,
        num(3),
    ));
    assert_eq!(stmts, vec![expected]);
}

#[test]
fn malformed_let_reports_one_error_and_synchronizes() {
    let (stmts, errors) = parse_with_errors("let ;");
    assert_eq!(errors, 1);
    assert_eq!(stmts, vec![Stmt::Skipped]);

    let (stmts, errors) = parse_with_errors("let ; let x = 1;");
    assert_eq!(errors, 1);
    assert_eq!(stmts, vec![Stmt::Skipped, Stmt::Let("x".to_string(), num(1))]);
}

#[test]
fn let_without_initializer_defaults_to_nil() {
    let stmts = parse_ok("let x;");
    assert_eq!(
        stmts,
        vec![Stmt::Let("x".to_string(), Expr::Literal(Literal::Nil))]
    );
}

#[test]
fn grouping_and_unary() {
    let stmts = parse_ok("-(1 + 2);");
    let expected = Stmt::Expr(Expr::Unary(
        OpToken { typ: UnaryOp::Minus, line: 1 },
        Box::new(Expr::Grouping(Box::new(bin(num(1), BinaryOp::Plus, 1, num(2))))),
    ));
    assert_eq!(stmts, vec![expected]);
}

#[test]
fn logical_operators_build_logical_nodes() {
    let stmts = parse_ok("true and false or nil;");
    let expected = Stmt::Expr(Expr::Logical(
        Box::new(Expr::Logical(
            Box::new(Expr::Literal(Literal::Bool(true))),
            OpToken { typ: LogicalOp::And, line: 1 },
            Box::new(Expr::Literal(Literal::Bool(false))),
        )),
        OpToken { typ: LogicalOp::Or, line: 1 },
        Box::new(Expr::Literal(Literal::Nil)),
    ));
    assert_eq!(stmts, vec![expected]);
}

#[test]
fn list_literals_allow_trailing_comma() {
    let stmts = parse_ok("[1, 2,];");
    assert_eq!(stmts, vec![Stmt::Expr(Expr::List(vec![num(1), num(2)]))]);
    let stmts = parse_ok("[];");
    assert_eq!(stmts, vec![Stmt::Expr(Expr::List(vec![]))]);
}

#[test]
fn list_without_comma_is_an_error() {
    let (stmts, errors) = parse_with_errors("[1 2];");
    assert_eq!(errors, 1);
    assert_eq!(stmts, vec![Stmt::Skipped]);
}

#[test]
fn identifier_parses_to_variable() {
    let stmts = parse_ok("foo;");
    assert_eq!(stmts, vec![Stmt::Expr(Expr::Var("foo".to_string()))]);
}

#[test]
fn comparison_chain_is_left_associative() {
    let stmts = parse_ok("1 < 2 == true;");
    let expected = Stmt::Expr(bin(
        bin(num(1), BinaryOp::Less, 1, num(2)),
        BinaryOp::EqualEqual,
        1,
        Expr::Literal(Literal::Bool(true)),
    ));
    assert_eq!(stmts, vec![expected]);
}

#[test]
fn missing_closing_paren_is_an_error() {
    let (stmts, errors) = parse_with_errors("(1 + 2;");
    assert_eq!(errors, 1);
    assert_eq!(stmts, vec![Stmt::Skipped]);
}

#[test]
fn error_cites_the_offending_token() {
    let tokens = Lexer::new("let ;", SilentReporter).scan_tokens();
    let mut parser = Parser::new(tokens, CollectingReporter::new());
    parser.parse().unwrap();
    let entries = &parser.reporter().entries;
    assert_eq!(entries.len(), 1);
    let (line, location, message) = &entries[0];
    assert_eq!(*line, 1);
    assert_eq!(location, " at ';'");
    assert_eq!(message, "Expect variable name.");
}

#[test]
fn parse_never_aborts_on_multiple_errors() {
    let (stmts, errors) = parse_with_errors("let ; + ; 1 + 2; let ;");
    assert_eq!(errors, 3);
    assert_eq!(stmts.len(), 4);
    assert_eq!(stmts[0], Stmt::Skipped);
    assert_eq!(stmts[1], Stmt::Skipped);
    assert_eq!(stmts[2], Stmt::Expr(bin(num(1), BinaryOp::Plus, 1, num(2))));
    assert_eq!(stmts[3], Stmt::Skipped);
}
