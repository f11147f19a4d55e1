use wmd::ast::{Quantity, TimeUnit, Unit};
use wmd::lexer::{Lexer, Token, TokenLiteral, TokenType};
use wmd::number::Decimal;
use wmd::reporting::SilentReporter;

fn scan(src: &str) -> Vec<Token> {
    Lexer::new(src, SilentReporter).scan_tokens()
}

fn types(tokens: &[Token]) -> Vec<TokenType> {
    tokens.iter().map(|t| t.typ).collect()
}

fn dec(neg: bool, m: u128, e: u32) -> Decimal {
    Decimal { neg, m, e }
}

#[test]
fn lexer() {
    let wmd_content = r#"// this is a comment
            (( )){} // grouping stuff
            !*+-/=<> <= == // operators
            "this is a string"
            123 + 5.55
            ident_test
            and else false
            for fn if nil or
            true while
            30s 2m 30x 50%
            "#;
    let tokens = scan(wmd_content);
    let expected = vec![
        TokenType::LParen,
        TokenType::LParen,
        TokenType::RParen,
        TokenType::RParen,
        TokenType::LBrace,
        TokenType::RBrace,
        TokenType::Bang,
        TokenType::Star,
        TokenType::Plus,
        TokenType::Minus,
        TokenType::Slash,
        TokenType::Equal,
        TokenType::Less,
        TokenType::Greater,
        TokenType::LessEqual,
        TokenType::EqualEqual,
        TokenType::String,
        TokenType::Number,
        TokenType::Plus,
        TokenType::Number,
        TokenType::Identifier,
        TokenType::And,
        TokenType::Else,
        TokenType::False,
        TokenType::For,
        TokenType::Fn,
        TokenType::If,
        TokenType::Nil,
        TokenType::Or,
        TokenType::True,
        TokenType::While,
        TokenType::Quantity,
        TokenType::Quantity,
        TokenType::Quantity,
        TokenType::Quantity,
        TokenType::Eof,
    ];
    assert_eq!(types(&tokens), expected);
    // the string literal: quotes trimmed, on line 4
    let string_tok = &tokens[16];
    assert_eq!(
        string_tok.literal,
        Some(TokenLiteral::String("this is a string".to_string()))
    );
    assert_eq!(string_tok.lexeme, "\"this is a string\"");
    assert_eq!(string_tok.line, 4);
    // the numbers on line 5
    assert_eq!(tokens[17].literal, Some(TokenLiteral::Number(dec(false, 123, 0))));
    assert_eq!(tokens[19].literal, Some(TokenLiteral::Number(dec(false, 555, 2))));
    // the identifier
    assert_eq!(tokens[20].lexeme, "ident_test");
    // the quantities on line 10
    assert_eq!(
        tokens[31].literal,
        Some(TokenLiteral::Quantity(Quantity::new(
            dec(false, 30, 0),
            Unit::Time(TimeUnit::Second)
        )))
    );
    assert_eq!(
        tokens[32].literal,
        Some(TokenLiteral::Quantity(Quantity::new(
            dec(false, 2, 0),
            Unit::Time(TimeUnit::Minute)
        )))
    );
    assert_eq!(
        tokens[33].literal,
        Some(TokenLiteral::Quantity(Quantity::new(dec(false, 30, 0), Unit::Rep)))
    );
    assert_eq!(
        tokens[34].literal,
        Some(TokenLiteral::Quantity(Quantity::new(dec(false, 50, 0), Unit::Percent)))
    );
    assert_eq!(tokens[31].line, 10);
    // the end-of-input token sits on the final line
    assert_eq!(tokens[35].line, 11);
}

#[test]
fn unit_suffix_scans_to_quantity() {
    // every unit suffix, with integral and fractional values
    let cases: Vec<(&str, Decimal, Unit)> = vec![
        ("3x", dec(false, 3, 0), Unit::Rep),
        ("50%", dec(false, 50, 0), Unit::Percent),
        ("30s", dec(false, 30, 0), Unit::Time(TimeUnit::Second)),
        ("2m", dec(false, 2, 0), Unit::Time(TimeUnit::Minute)),
        ("30.5s", dec(false, 305, 1), Unit::Time(TimeUnit::Second)),
        ("0.25x", dec(false, 25, 2), Unit::Rep),
    ];
    for (src, value, unit) in cases {
        let tokens = scan(src);
        assert_eq!(tokens.len(), 2, "{src}");
        assert_eq!(tokens[0].typ, TokenType::Quantity);
        assert_eq!(
            tokens[0].literal,
            Some(TokenLiteral::Quantity(Quantity::new(value, unit)))
        );
        assert_eq!(tokens[1].typ, TokenType::Eof);
    }
}

#[test]
fn quantity_round_trip_through_text() {
    // the text of a quantity scans back to the same quantity
    let quantities = vec![
        Quantity::new(dec(false, 7, 0), Unit::Rep),
        Quantity::new(dec(false, 125, 2), Unit::Percent),
        Quantity::new(dec(false, 305, 1), Unit::Time(TimeUnit::Second)),
        Quantity::new(dec(false, 90, 0), Unit::Time(TimeUnit::Minute)),
    ];
    for q in quantities {
        let text = q.to_text();
        let tokens = scan(&text);
        assert_eq!(tokens.len(), 2);
        assert_eq!(tokens[0].literal, Some(TokenLiteral::Quantity(q)));
    }
}

#[test]
fn number_round_trip_through_text() {
    // the text of a canonical decimal scans back to the same decimal
    let values = vec![
        dec(false, 0, 0),
        dec(false, 7, 0),
        dec(false, 125, 2),
        dec(false, 3, 19),
        dec(false, u128::MAX, 0),
    ];
    for d in values {
        let text = d.to_text();
        let tokens = scan(&text);
        assert_eq!(tokens.len(), 2, "{text}");
        assert_eq!(tokens[0].typ, TokenType::Number);
        assert_eq!(tokens[0].literal, Some(TokenLiteral::Number(d)));
    }
}

#[test]
fn comment_is_discarded_and_newline_counts() {
    let tokens = scan("// comment\n(");
    assert_eq!(tokens.len(), 2);
    assert_eq!(tokens[0].typ, TokenType::LParen);
    assert_eq!(tokens[0].lexeme, "(");
    assert_eq!(tokens[0].line, 2);
    assert_eq!(tokens[1].typ, TokenType::Eof);
    assert_eq!(tokens[1].line, 2);
}

#[test]
fn string_with_embedded_newline_counts_lines() {
    let tokens = scan("\"a\nb\" 1");
    assert_eq!(tokens[0].typ, TokenType::String);
    assert_eq!(tokens[0].literal, Some(TokenLiteral::String("a\nb".to_string())));
    assert_eq!(tokens[0].line, 2);
    assert_eq!(tokens[1].typ, TokenType::Number);
    assert_eq!(tokens[1].line, 2);
}

#[test]
fn unterminated_string_yields_no_token() {
    let tokens = scan("\"never closed");
    assert_eq!(types(&tokens), vec![TokenType::Eof]);
}

#[test]
fn unexpected_character_is_skipped() {
    let tokens = scan("@ 1");
    assert_eq!(types(&tokens), vec![TokenType::Number, TokenType::Eof]);
}

#[test]
fn oversized_number_yields_no_token() {
    // one beyond the largest representable mantissa
    let tokens = scan("340282366920938463463374607431768211456");
    assert_eq!(types(&tokens), vec![TokenType::Eof]);
    // the largest representable mantissa still scans
    let tokens = scan("340282366920938463463374607431768211455");
    assert_eq!(
        tokens[0].literal,
        Some(TokenLiteral::Number(dec(false, u128::MAX, 0)))
    );
}

#[test]
fn number_with_trailing_dot_is_two_tokens() {
    // a dot without a following digit is not a fractional part
    let tokens = scan("12.");
    assert_eq!(types(&tokens), vec![TokenType::Number, TokenType::Dot, TokenType::Eof]);
}

#[test]
fn fractional_number_is_canonicalized() {
    // trailing zeros behind the point are dropped: 5.50 denotes 5.5
    let tokens = scan("5.50");
    assert_eq!(tokens[0].literal, Some(TokenLiteral::Number(dec(false, 55, 1))));
    let tokens = scan("5.0");
    assert_eq!(tokens[0].literal, Some(TokenLiteral::Number(dec(false, 5, 0))));
}

#[test]
fn let_is_a_keyword() {
    let tokens = scan("let x = 1;");
    assert_eq!(
        types(&tokens),
        vec![
            TokenType::Let,
            TokenType::Identifier,
            TokenType::Equal,
            TokenType::Number,
            TokenType::SemiColon,
            TokenType::Eof,
        ]
    );
}

#[test]
fn two_character_operators_are_greedy() {
    let tokens = scan("!= == <= >= ! = < >");
    assert_eq!(
        types(&tokens),
        vec![
            TokenType::BangEqual,
            TokenType::EqualEqual,
            TokenType::LessEqual,
            TokenType::GreaterEqual,
            TokenType::Bang,
            TokenType::Equal,
            TokenType::Less,
            TokenType::Greater,
            TokenType::Eof,
        ]
    );
}

#[test]
fn unit_round_trip() {
    let units = vec![
        Unit::Percent,
        Unit::Rep,
        Unit::Time(TimeUnit::Second),
        Unit::Time(TimeUnit::Minute),
    ];
    for u in units {
        let text = u.to_text();
        assert_eq!(text.chars().count(), 1);
        let c = text.chars().next().unwrap();
        assert_eq!(Unit::from_suffix(c), Ok(u));
    }
}

#[test]
fn bad_unit_suffix_is_rejected() {
    assert_eq!(Unit::from_suffix('q'), Err(wmd::WmdError::BadUnit));
    assert_eq!(Unit::from_suffix('X'), Err(wmd::WmdError::BadUnit));
}
