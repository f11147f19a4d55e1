use wmd::ast::{BinaryOp, Expr, Literal, Stmt, UnaryOp};
use wmd::interpreter::Interpreter;
use wmd::lexer::Lexer;
use wmd::number::Decimal;
use wmd::parser::Parser;
use wmd::reporting::SilentReporter;
use wmd::WmdError;

fn dec(neg: bool, m: u128, e: u32) -> Decimal {
    Decimal { neg, m, e }
}

/// Scan, parse, and evaluate a single expression statement.
fn eval(src: &str) -> Result<Literal, WmdError> {
    let tokens = Lexer::new(src, SilentReporter).scan_tokens();
    let mut parser = Parser::new(tokens, SilentReporter);
    let stmts = parser.parse().unwrap();
    assert_eq!(stmts.len(), 1, "expected one statement in {src:?}");
    match stmts.into_iter().next().unwrap() {
        Stmt::Expr(e) => {
            assert!(e.is_evaluable());
            Interpreter::new().evaluate(&e)
        }
        other => panic!("expected an expression statement, got {other:?}"),
    }
}

fn eval_num(src: &str) -> Decimal {
    match eval(src) {
        Ok(Literal::Number(d)) => d,
        other => panic!("expected a number from {src:?}, got {other:?}"),
    }
}

#[test]
fn precedence_evaluates_to_seven() {
    assert_eq!(eval_num("1 + 2 * 3;"), dec(false, 7, 0));
}

#[test]
fn left_associativity_evaluates_to_minus_four() {
    assert_eq!(eval_num("1 - 2 - 3;"), dec(true, 4, 0));
}

#[test]
fn plus_concatenates_strings_with_numbers_both_ways() {
    assert_eq!(eval("\"n=\" + 5;"), Ok(Literal::String("n=5".to_string())));
    assert_eq!(eval("5 + \"x\";"), Ok(Literal::String("5x".to_string())));
}

#[test]
fn plus_concatenates_two_strings() {
    assert_eq!(eval("\"ab\" + \"cd\";"), Ok(Literal::String("abcd".to_string())));
}

#[test]
fn concatenation_uses_display_forms() {
    // non-string operands print as they display: nil, booleans, quantities,
    // and a nested string keeps its quotes
    assert_eq!(eval("\"v=\" + nil;"), Ok(Literal::String("v=nil".to_string())));
    assert_eq!(eval("\"v=\" + true;"), Ok(Literal::String("v=true".to_string())));
    assert_eq!(eval("\"t=\" + 30.5s;"), Ok(Literal::String("t=30.5s".to_string())));
    assert_eq!(eval("\"x=\" + 0.5;"), Ok(Literal::String("x=0.5".to_string())));
}

#[test]
fn truthiness_of_nil_and_zero() {
    assert_eq!(eval("!nil;"), Ok(Literal::Bool(true)));
    assert_eq!(eval("!0;"), Ok(Literal::Bool(false)));
    assert_eq!(eval("!false;"), Ok(Literal::Bool(true)));
    assert_eq!(eval("!\"\";"), Ok(Literal::Bool(false)));
    assert_eq!(eval("!3x;"), Ok(Literal::Bool(false)));
}

#[test]
fn and_short_circuits_on_falsy_left() {
    // the right operand would divide by zero; it is never evaluated
    assert_eq!(eval("false and (1/0);"), Ok(Literal::Bool(false)));
    assert_eq!(eval("true and false;"), Ok(Literal::Bool(false)));
}

#[test]
fn or_short_circuits_on_truthy_left() {
    assert_eq!(eval("true or (1/0);"), Ok(Literal::Bool(true)));
    // a falsy left hands the right operand's value through
    assert_eq!(eval("false or 7;"), Ok(Literal::Number(dec(false, 7, 0))));
    // logical operators yield the deciding operand itself, not a boolean
    assert_eq!(eval("nil and 1;"), Ok(Literal::Nil));
    assert_eq!(eval("5 or 1;"), Ok(Literal::Number(dec(false, 5, 0))));
}

#[test]
fn unary_minus_negates_numbers_only() {
    assert_eq!(eval("-4;"), Ok(Literal::Number(dec(true, 4, 0))));
    assert_eq!(eval("--4;"), Ok(Literal::Number(dec(false, 4, 0))));
    match eval("-nil;") {
        Err(WmdError::UnaryNumberRequired(op)) => {
            assert_eq!(op.typ, UnaryOp::Minus);
            assert_eq!(op.line, 1);
        }
        other => panic!("expected a unary operand error, got {other:?}"),
    }
    // a quantity is not a number for arithmetic purposes
    assert!(matches!(eval("-3x;"), Err(WmdError::UnaryNumberRequired(_))));
}

#[test]
fn arithmetic_is_exact_decimal() {
    assert_eq!(eval_num("0.1 + 0.2;"), dec(false, 3, 1));
    assert_eq!(eval_num("2.5 + 2.5;"), dec(false, 5, 0));
    assert_eq!(eval_num("10 - 2.5;"), dec(false, 75, 1));
    assert_eq!(eval_num("1.5 * 1.5;"), dec(false, 225, 2));
    assert_eq!(eval_num("1 / 2;"), dec(false, 5, 1));
    assert_eq!(eval_num("7 / 2;"), dec(false, 35, 1));
    assert_eq!(eval_num("(1 + 2) * 3;"), dec(false, 9, 0));
}

#[test]
fn division_truncates_toward_zero() {
    // 1/3 is carried to nineteen fractional digits and truncated
    assert_eq!(eval_num("1 / 3;"), dec(false, 3_333_333_333_333_333_333, 19));
    assert_eq!(eval_num("-1 / 3;"), dec(true, 3_333_333_333_333_333_333, 19));
}

#[test]
fn division_by_zero_is_an_error() {
    assert!(matches!(eval("1 / 0;"), Err(WmdError::DivisionByZero(_))));
}

#[test]
fn arithmetic_overflow_is_an_error() {
    let big = "99999999999999999999999999999999999999";
    assert!(matches!(
        eval(&format!("{big} * {big};")),
        Err(WmdError::NumberOverflow(_))
    ));
}

#[test]
fn comparisons_require_numbers() {
    assert_eq!(eval("1 < 2;"), Ok(Literal::Bool(true)));
    assert_eq!(eval("2 <= 2;"), Ok(Literal::Bool(true)));
    assert_eq!(eval("3 > 4;"), Ok(Literal::Bool(false)));
    assert_eq!(eval("1 >= 1;"), Ok(Literal::Bool(true)));
    assert_eq!(eval("0.5 < 0.25;"), Ok(Literal::Bool(false)));
    assert!(matches!(
        eval("1 < \"2\";"),
        Err(WmdError::BinaryNumberRequired(_))
    ));
    assert!(matches!(
        eval("30s > 2m;"),
        Err(WmdError::BinaryNumberRequired(_))
    ));
}

#[test]
fn equality_is_structural_and_never_errs() {
    assert_eq!(eval("1 == 1.0;"), Ok(Literal::Bool(true)));
    assert_eq!(eval("1 != 2;"), Ok(Literal::Bool(true)));
    assert_eq!(eval("\"a\" == \"a\";"), Ok(Literal::Bool(true)));
    assert_eq!(eval("\"a\" == \"b\";"), Ok(Literal::Bool(false)));
    // cross-kind comparisons are simply unequal
    assert_eq!(eval("1 == \"1\";"), Ok(Literal::Bool(false)));
    assert_eq!(eval("nil == false;"), Ok(Literal::Bool(false)));
    assert_eq!(eval("30s == 30s;"), Ok(Literal::Bool(true)));
    assert_eq!(eval("30s == 30x;"), Ok(Literal::Bool(false)));
    // one minute and sixty seconds are different quantities
    assert_eq!(eval("1m == 60s;"), Ok(Literal::Bool(false)));
}

#[test]
fn plus_on_mismatched_kinds_is_an_error() {
    assert!(matches!(
        eval("nil + 1;"),
        Err(WmdError::NumberOrStringRequired(_))
    ));
    // a quantity is not a number, and + does not add quantities
    match eval("3x + 1;") {
        Err(WmdError::NumberOrStringRequired(op)) => {
            assert_eq!(op.typ, BinaryOp::Plus);
        }
        other => panic!("expected a number-or-string error, got {other:?}"),
    }
}

#[test]
fn binary_operands_evaluate_left_before_right() {
    // both operands are evaluated for arithmetic: the right-hand error shows
    assert!(matches!(
        eval("1 + (nil - 1);"),
        Err(WmdError::BinaryNumberRequired(_))
    ));
}

#[test]
fn grouping_and_literals_pass_through() {
    assert_eq!(eval("(nil);"), Ok(Literal::Nil));
    assert_eq!(eval("\"hi\";"), Ok(Literal::String("hi".to_string())));
    assert_eq!(
        eval("30.5s;"),
        Ok(Literal::Quantity(wmd::ast::Quantity::new(
            dec(false, 305, 1),
            wmd::ast::Unit::Time(wmd::ast::TimeUnit::Second)
        )))
    );
}

#[test]
fn display_texts() {
    assert_eq!(Literal::Number(dec(false, 555, 2)).to_text(), "5.55");
    assert_eq!(Literal::Number(dec(false, 0, 0)).to_text(), "0");
    assert_eq!(Literal::Number(dec(true, 5, 1)).to_text(), "-0.5");
    assert_eq!(Literal::Number(dec(false, 1005, 3)).to_text(), "1.005");
    assert_eq!(Literal::Nil.to_text(), "nil");
    assert_eq!(Literal::Bool(true).to_text(), "true");
    assert_eq!(Literal::String("hi".to_string()).to_text(), "\"hi\"");
    assert_eq!(
        Literal::Quantity(wmd::ast::Quantity::new(dec(false, 305, 1), wmd::ast::Unit::Rep))
            .to_text(),
        "30.5x"
    );
}

#[test]
fn lists_and_variables_are_not_evaluable() {
    let tokens = Lexer::new("[1, 2];", SilentReporter).scan_tokens();
    let mut parser = Parser::new(tokens, SilentReporter);
    let stmts = parser.parse().unwrap();
    match &stmts[0] {
        Stmt::Expr(e) => assert!(!e.is_evaluable()),
        other => panic!("expected an expression statement, got {other:?}"),
    }
    let tokens = Lexer::new("foo;", SilentReporter).scan_tokens();
    let mut parser = Parser::new(tokens, SilentReporter);
    let stmts = parser.parse().unwrap();
    match &stmts[0] {
        Stmt::Expr(e) => assert!(!e.is_evaluable()),
        other => panic!("expected an expression statement, got {other:?}"),
    }
}

#[test]
fn number_helpers() {
    // truthiness and numeric extraction on the value type itself
    assert!(!Literal::Nil.is_truthy());
    assert!(!Literal::Bool(false).is_truthy());
    assert!(Literal::Number(dec(false, 0, 0)).is_truthy());
    assert!(Literal::String(String::new()).is_truthy());
    assert_eq!(Literal::Number(dec(false, 3, 0)).as_number(), Some(dec(false, 3, 0)));
    assert_eq!(
        Literal::Quantity(wmd::ast::Quantity::new(dec(false, 3, 0), wmd::ast::Unit::Rep))
            .as_number(),
        None
    );
}
