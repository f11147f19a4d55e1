//! The lexer: turns source text into a sequence of tokens.

use vstd::prelude::*;
use vstd::string::StringExecFns;
use crate::ast::{unit_from_char, Quantity, Unit};
use crate::reporting::ErrorReporter;
use crate::number::{dec_digits_padded, dec_text, is_digit_char, lemma_dec_text_roundtrip, lemma_padded_digits, spec_from_digits, Decimal};

verus! {

/// The kind of a token.
#[derive(Debug, Clone, Copy, PartialEq, Eq, Structural)]
pub enum TokenType {
    // Single character tokens
    LParen,
    RParen,
    LBrace,
    RBrace,
    LBracket,
    RBracket,
    Comma,
    Dot,
    Minus,
    Plus,
    SemiColon,
    Slash,
    Star,
    // One or two character tokens
    Bang,
    BangEqual,
    Equal,
    EqualEqual,
    Greater,
    GreaterEqual,
    Less,
    LessEqual,
    // Literals
    Identifier,
    String,
    Number,
    Quantity,
    // Keywords
    And,
    Else,
    False,
    Fn,
    For,
    If,
    Let,
    Nil,
    Or,
    True,
    While,
    Eof,
}

impl TokenType {
    /// The name of this token type, as diagnostics write it.
    pub open spec fn spec_name(self) -> Seq<char> {
        match self {
            TokenType::LParen => "LParen"@,
            TokenType::RParen => "RParen"@,
            TokenType::LBrace => "LBrace"@,
            TokenType::RBrace => "RBrace"@,
            TokenType::LBracket => "LBracket"@,
            TokenType::RBracket => "RBracket"@,
            TokenType::Comma => "Comma"@,
            TokenType::Dot => "Dot"@,
            TokenType::Minus => "Minus"@,
            TokenType::Plus => "Plus"@,
            TokenType::SemiColon => "SemiColon"@,
            TokenType::Slash => "Slash"@,
            TokenType::Star => "Star"@,
            TokenType::Bang => "Bang"@,
            TokenType::BangEqual => "BangEqual"@,
            TokenType::Equal => "Equal"@,
            TokenType::EqualEqual => "EqualEqual"@,
            TokenType::Greater => "Greater"@,
            TokenType::GreaterEqual => "GreaterEqual"@,
            TokenType::Less => "Less"@,
            TokenType::LessEqual => "LessEqual"@,
            TokenType::Identifier => "Identifier"@,
            TokenType::String => "String"@,
            TokenType::Number => "Number"@,
            TokenType::Quantity => "Quantity"@,
            TokenType::And => "And"@,
            TokenType::Else => "Else"@,
            TokenType::False => "False"@,
            TokenType::Fn => "Fn"@,
            TokenType::For => "For"@,
            TokenType::If => "If"@,
            TokenType::Let => "Let"@,
            TokenType::Nil => "Nil"@,
            TokenType::Or => "Or"@,
            TokenType::True => "True"@,
            TokenType::While => "While"@,
            TokenType::Eof => "Eof"@,
        }
    }

    /// The name of this token type, as diagnostics write it.
    pub fn name(self) -> (r: String)
        ensures
            r@ == self.spec_name(),
    {
        match self {
            TokenType::LParen => String::from_str("LParen"),
            TokenType::RParen => String::from_str("RParen"),
            TokenType::LBrace => String::from_str("LBrace"),
            TokenType::RBrace => String::from_str("RBrace"),
            TokenType::LBracket => String::from_str("LBracket"),
            TokenType::RBracket => String::from_str("RBracket"),
            TokenType::Comma => String::from_str("Comma"),
            TokenType::Dot => String::from_str("Dot"),
            TokenType::Minus => String::from_str("Minus"),
            TokenType::Plus => String::from_str("Plus"),
            TokenType::SemiColon => String::from_str("SemiColon"),
            TokenType::Slash => String::from_str("Slash"),
            TokenType::Star => String::from_str("Star"),
            TokenType::Bang => String::from_str("Bang"),
            TokenType::BangEqual => String::from_str("BangEqual"),
            TokenType::Equal => String::from_str("Equal"),
            TokenType::EqualEqual => String::from_str("EqualEqual"),
            TokenType::Greater => String::from_str("Greater"),
            TokenType::GreaterEqual => String::from_str("GreaterEqual"),
            TokenType::Less => String::from_str("Less"),
            TokenType::LessEqual => String::from_str("LessEqual"),
            TokenType::Identifier => String::from_str("Identifier"),
            TokenType::String => String::from_str("String"),
            TokenType::Number => String::from_str("Number"),
            TokenType::Quantity => String::from_str("Quantity"),
            TokenType::And => String::from_str("And"),
            TokenType::Else => String::from_str("Else"),
            TokenType::False => String::from_str("False"),
            TokenType::Fn => String::from_str("Fn"),
            TokenType::For => String::from_str("For"),
            TokenType::If => String::from_str("If"),
            TokenType::Let => String::from_str("Let"),
            TokenType::Nil => String::from_str("Nil"),
            TokenType::Or => String::from_str("Or"),
            TokenType::True => String::from_str("True"),
            TokenType::While => String::from_str("While"),
            TokenType::Eof => String::from_str("Eof"),
        }
    }
}

/// The payload of a literal token.
#[derive(Debug, Clone, PartialEq)]
pub enum TokenLiteral {
    String(String),
    Number(Decimal),
    Quantity(Quantity),
}

/// The mathematical model of a literal token payload.
pub enum TokenLiteralModel {
    Str(Seq<char>),
    Number(Decimal),
    Quantity(Quantity),
}

impl View for TokenLiteral {
    type V = TokenLiteralModel;

    open spec fn view(&self) -> TokenLiteralModel {
        match self {
            TokenLiteral::String(s) => TokenLiteralModel::Str(s@),
            TokenLiteral::Number(d) => TokenLiteralModel::Number(*d),
            TokenLiteral::Quantity(q) => TokenLiteralModel::Quantity(*q),
        }
    }
}

impl TokenLiteral {
    /// An owned copy of this payload.
    pub fn dup(&self) -> (r: TokenLiteral)
        ensures
            r@ == self@,
    {
        match self {
            TokenLiteral::String(s) => TokenLiteral::String(s.clone()),
            TokenLiteral::Number(d) => TokenLiteral::Number(*d),
            TokenLiteral::Quantity(q) => TokenLiteral::Quantity(*q),
        }
    }
}

/// A token: its kind, the source text it covers, an optional literal payload,
/// and the line it was read on.
#[derive(Debug, Clone, PartialEq)]
pub struct Token {
    pub typ: TokenType,
    pub lexeme: String,
    pub literal: Option<TokenLiteral>,
    pub line: usize,
}

/// The mathematical model of a token.
#[verifier::ext_equal]
pub struct TokenModel {
    pub typ: TokenType,
    pub lexeme: Seq<char>,
    pub literal: Option<TokenLiteralModel>,
    pub line: nat,
}

impl View for Token {
    type V = TokenModel;

    open spec fn view(&self) -> TokenModel {
        TokenModel {
            typ: self.typ,
            lexeme: self.lexeme@,
            literal: match self.literal {
                Option::None => Option::None,
                Option::Some(l) => Option::Some(l@),
            },
            line: self.line as nat,
        }
    }
}

impl DeepView for Token {
    type V = TokenModel;

    open spec fn deep_view(&self) -> TokenModel {
        self.view()
    }
}

/// Whether a token carries the literal payload its type calls for.
pub open spec fn payload_wf(t: TokenModel) -> bool {
    &&& t.typ == TokenType::String ==> (t.literal matches Option::Some(TokenLiteralModel::Str(_)))
    &&& t.typ == TokenType::Number ==> (t.literal matches Option::Some(
        TokenLiteralModel::Number(_),
    ))
    &&& t.typ == TokenType::Quantity ==> (t.literal matches Option::Some(
        TokenLiteralModel::Quantity(_),
    ))
}

/// A well-formed token sequence, as the lexer produces it: non-empty, closed
/// by exactly one end-of-input token, and every literal token carrying its
/// payload.
pub open spec fn toks_wf(toks: Seq<TokenModel>) -> bool {
    &&& toks.len() >= 1
    &&& toks[toks.len() - 1].typ == TokenType::Eof
    &&& forall|i: int| 0 <= i < toks.len() - 1 ==> (#[trigger] toks[i].typ) != TokenType::Eof
    &&& forall|i: int| 0 <= i < toks.len() ==> payload_wf(#[trigger] toks[i])
}

/// Whether a character can start an identifier.
pub open spec fn is_alpha_char(c: char) -> bool {
    (97 <= c as int <= 122) || (65 <= c as int <= 90) || c == '_'
}

/// Whether a character can continue an identifier.
pub open spec fn is_alnum_char(c: char) -> bool {
    is_alpha_char(c) || is_digit_char(c)
}

/// The first position at or after `i` that does not hold a digit.
pub open spec fn digits_end(s: Seq<char>, i: int) -> int
    decreases s.len() - i,
    when 0 <= i <= s.len()
{
    if i >= s.len() {
        s.len() as int
    } else if is_digit_char(s[i]) {
        digits_end(s, i + 1)
    } else {
        i
    }
}

/// The first position at or after `i` that does not continue an identifier.
pub open spec fn alnum_end(s: Seq<char>, i: int) -> int
    decreases s.len() - i,
    when 0 <= i <= s.len()
{
    if i >= s.len() {
        s.len() as int
    } else if is_alnum_char(s[i]) {
        alnum_end(s, i + 1)
    } else {
        i
    }
}

/// The first position at or after `i` holding a newline, or the end of input:
/// where a line comment stops.
pub open spec fn comment_end(s: Seq<char>, i: int) -> int
    decreases s.len() - i,
    when 0 <= i <= s.len()
{
    if i >= s.len() {
        s.len() as int
    } else if s[i] == '\n' {
        i
    } else {
        comment_end(s, i + 1)
    }
}

/// The first position at or after `i` holding a closing double quote, or the
/// end of input.
pub open spec fn string_end(s: Seq<char>, i: int) -> int
    decreases s.len() - i,
    when 0 <= i <= s.len()
{
    if i >= s.len() {
        s.len() as int
    } else if s[i] == '"' {
        i
    } else {
        string_end(s, i + 1)
    }
}

/// How many newline characters stand in `s[i..j)`.
pub open spec fn count_newlines(s: Seq<char>, i: int, j: int) -> nat
    decreases j - i,
    when i <= j
{
    if i >= j {
        0
    } else {
        (if s[i] == '\n' {
            1nat
        } else {
            0nat
        }) + count_newlines(s, i + 1, j)
    }
}

/// What `digits_end` finds: a run of digits ending at a non-digit or the end.
pub proof fn lemma_digits_end(s: Seq<char>, i: int)
    requires
        0 <= i <= s.len(),
    ensures
        i <= digits_end(s, i) <= s.len(),
        forall|k: int| i <= k < digits_end(s, i) ==> is_digit_char(#[trigger] s[k]),
        digits_end(s, i) < s.len() ==> !is_digit_char(s[digits_end(s, i)]),
        i < s.len() && is_digit_char(s[i]) ==> digits_end(s, i) > i,
    decreases s.len() - i,
{
    if i < s.len() && is_digit_char(s[i]) {
        lemma_digits_end(s, i + 1);
    }
}

/// What `alnum_end` finds.
pub proof fn lemma_alnum_end(s: Seq<char>, i: int)
    requires
        0 <= i <= s.len(),
    ensures
        i <= alnum_end(s, i) <= s.len(),
        forall|k: int| i <= k < alnum_end(s, i) ==> is_alnum_char(#[trigger] s[k]),
        alnum_end(s, i) < s.len() ==> !is_alnum_char(s[alnum_end(s, i)]),
    decreases s.len() - i,
{
    if i < s.len() && is_alnum_char(s[i]) {
        lemma_alnum_end(s, i + 1);
    }
}

/// What `comment_end` finds.
pub proof fn lemma_comment_end(s: Seq<char>, i: int)
    requires
        0 <= i <= s.len(),
    ensures
        i <= comment_end(s, i) <= s.len(),
        forall|k: int| i <= k < comment_end(s, i) ==> #[trigger] s[k] != '\n',
        comment_end(s, i) < s.len() ==> s[comment_end(s, i)] == '\n',
    decreases s.len() - i,
{
    if i < s.len() && s[i] != '\n' {
        lemma_comment_end(s, i + 1);
    }
}

/// What `string_end` finds.
pub proof fn lemma_string_end(s: Seq<char>, i: int)
    requires
        0 <= i <= s.len(),
    ensures
        i <= string_end(s, i) <= s.len(),
        forall|k: int| i <= k < string_end(s, i) ==> #[trigger] s[k] != '"',
        string_end(s, i) < s.len() ==> s[string_end(s, i)] == '"',
    decreases s.len() - i,
{
    if i < s.len() && s[i] != '"' {
        lemma_string_end(s, i + 1);
    }
}

/// Extending a newline count by one position on the right.
pub proof fn lemma_count_newlines_snoc(s: Seq<char>, i: int, j: int)
    requires
        i <= j,
    ensures
        count_newlines(s, i, j + 1) == count_newlines(s, i, j) + (if s[j] == '\n' {
            1nat
        } else {
            0nat
        }),
    decreases j - i,
{
    if i < j {
        lemma_count_newlines_snoc(s, i + 1, j);
    } else {
        assert(count_newlines(s, j + 1, j + 1) == 0);
        assert(count_newlines(s, i, j) == 0);
    }
}

/// The token type of an identifier's text: a keyword of the fixed table, or
/// a generic identifier.
pub open spec fn keyword_or_identifier(text: Seq<char>) -> TokenType {
    if text.len() == 2 {
        if text[0] == 'f' && text[1] == 'n' {
            TokenType::Fn
        } else if text[0] == 'i' && text[1] == 'f' {
            TokenType::If
        } else if text[0] == 'o' && text[1] == 'r' {
            TokenType::Or
        } else {
            TokenType::Identifier
        }
    } else if text.len() == 3 {
        if text[0] == 'a' && text[1] == 'n' && text[2] == 'd' {
            TokenType::And
        } else if text[0] == 'f' && text[1] == 'o' && text[2] == 'r' {
            TokenType::For
        } else if text[0] == 'l' && text[1] == 'e' && text[2] == 't' {
            TokenType::Let
        } else if text[0] == 'n' && text[1] == 'i' && text[2] == 'l' {
            TokenType::Nil
        } else {
            TokenType::Identifier
        }
    } else if text.len() == 4 {
        if text[0] == 'e' && text[1] == 'l' && text[2] == 's' && text[3] == 'e' {
            TokenType::Else
        } else if text[0] == 't' && text[1] == 'r' && text[2] == 'u' && text[3] == 'e' {
            TokenType::True
        } else {
            TokenType::Identifier
        }
    } else if text.len() == 5 {
        if text[0] == 'f' && text[1] == 'a' && text[2] == 'l' && text[3] == 's' && text[4] == 'e' {
            TokenType::False
        } else if text[0] == 'w' && text[1] == 'h' && text[2] == 'i' && text[3] == 'l' && text[4]
            == 'e' {
            TokenType::While
        } else {
            TokenType::Identifier
        }
    } else {
        TokenType::Identifier
    }
}

/// A token without a literal payload.
pub open spec fn simple_token(typ: TokenType, lexeme: Seq<char>, line: nat) -> TokenModel {
    TokenModel { typ, lexeme, literal: Option::None, line }
}

/// The synthetic end-of-input token.
pub open spec fn eof_token(line: nat) -> TokenModel {
    simple_token(TokenType::Eof, Seq::empty(), line)
}

/// One scanning step at position `i`: the tokens it emits (none or one), the
/// position it leaves off at, and the line it leaves off on.
pub open spec fn scan_step(s: Seq<char>, i: int, line: nat) -> (Seq<TokenModel>, int, nat)
    recommends
        0 <= i < s.len(),
{
    let c = s[i];
    if c == '(' {
        (seq![simple_token(TokenType::LParen, s.subrange(i, i + 1), line)], i + 1, line)
    } else if c == ')' {
        (seq![simple_token(TokenType::RParen, s.subrange(i, i + 1), line)], i + 1, line)
    } else if c == '{' {
        (seq![simple_token(TokenType::LBrace, s.subrange(i, i + 1), line)], i + 1, line)
    } else if c == '}' {
        (seq![simple_token(TokenType::RBrace, s.subrange(i, i + 1), line)], i + 1, line)
    } else if c == '[' {
        (seq![simple_token(TokenType::LBracket, s.subrange(i, i + 1), line)], i + 1, line)
    } else if c == ']' {
        (seq![simple_token(TokenType::RBracket, s.subrange(i, i + 1), line)], i + 1, line)
    } else if c == ',' {
        (seq![simple_token(TokenType::Comma, s.subrange(i, i + 1), line)], i + 1, line)
    } else if c == '.' {
        (seq![simple_token(TokenType::Dot, s.subrange(i, i + 1), line)], i + 1, line)
    } else if c == '-' {
        (seq![simple_token(TokenType::Minus, s.subrange(i, i + 1), line)], i + 1, line)
    } else if c == '+' {
        (seq![simple_token(TokenType::Plus, s.subrange(i, i + 1), line)], i + 1, line)
    } else if c == ';' {
        (seq![simple_token(TokenType::SemiColon, s.subrange(i, i + 1), line)], i + 1, line)
    } else if c == '*' {
        (seq![simple_token(TokenType::Star, s.subrange(i, i + 1), line)], i + 1, line)
    } else if c == '!' {
        if i + 1 < s.len() && s[i + 1] == '=' {
            (seq![simple_token(TokenType::BangEqual, s.subrange(i, i + 2), line)], i + 2, line)
        } else {
            (seq![simple_token(TokenType::Bang, s.subrange(i, i + 1), line)], i + 1, line)
        }
    } else if c == '=' {
        if i + 1 < s.len() && s[i + 1] == '=' {
            (seq![simple_token(TokenType::EqualEqual, s.subrange(i, i + 2), line)], i + 2, line)
        } else {
            (seq![simple_token(TokenType::Equal, s.subrange(i, i + 1), line)], i + 1, line)
        }
    } else if c == '<' {
        if i + 1 < s.len() && s[i + 1] == '=' {
            (seq![simple_token(TokenType::LessEqual, s.subrange(i, i + 2), line)], i + 2, line)
        } else {
            (seq![simple_token(TokenType::Less, s.subrange(i, i + 1), line)], i + 1, line)
        }
    } else if c == '>' {
        if i + 1 < s.len() && s[i + 1] == '=' {
            (seq![simple_token(TokenType::GreaterEqual, s.subrange(i, i + 2), line)], i + 2, line)
        } else {
            (seq![simple_token(TokenType::Greater, s.subrange(i, i + 1), line)], i + 1, line)
        }
    } else if c == '/' {
        if i + 1 < s.len() && s[i + 1] == '/' {
            (Seq::empty(), comment_end(s, i + 2), line)
        } else {
            (seq![simple_token(TokenType::Slash, s.subrange(i, i + 1), line)], i + 1, line)
        }
    } else if c == ' ' || c == '\r' || c == '\t' {
        (Seq::empty(), i + 1, line)
    } else if c == '\n' {
        (Seq::empty(), i + 1, line + 1)
    } else if c == '"' {
        let j = string_end(s, i + 1);
        let nl = count_newlines(s, i + 1, j);
        if j == s.len() {
            // unterminated string: reported, no token, rest of input consumed
            (Seq::empty(), s.len() as int, line + nl)
        } else {
            (
                seq![
                    TokenModel {
                        typ: TokenType::String,
                        lexeme: s.subrange(i, j + 1),
                        literal: Option::Some(TokenLiteralModel::Str(s.subrange(i + 1, j))),
                        line: line + nl,
                    },
                ],
                j + 1,
                line + nl,
            )
        }
    } else if is_digit_char(c) {
        scan_number_step(s, i, line)
    } else if is_alpha_char(c) {
        let end = alnum_end(s, i + 1);
        (seq![simple_token(keyword_or_identifier(s.subrange(i, end)), s.subrange(i, end), line)], end, line)
    } else {
        // unrecognized character: reported, no token
        (Seq::empty(), i + 1, line)
    }
}

/// The number-scanning step: integer digits, an optional fractional part, and
/// an optional unit suffix. A digit run whose value leaves the mantissa range
/// is reported and emits no token.
pub open spec fn scan_number_step(s: Seq<char>, i: int, line: nat) -> (Seq<TokenModel>, int, nat)
    recommends
        0 <= i < s.len(),
        is_digit_char(s[i]),
{
    let int_end = digits_end(s, i);
    let has_frac = int_end + 1 < s.len() && s[int_end] == '.' && is_digit_char(s[int_end + 1]);
    let frac_start = if has_frac {
        int_end + 1
    } else {
        int_end
    };
    let frac_end = if has_frac {
        digits_end(s, int_end + 1)
    } else {
        int_end
    };
    let digits = s.subrange(i, int_end) + s.subrange(frac_start, frac_end);
    let value = spec_from_digits(digits, (frac_end - frac_start) as nat);
    if frac_end < s.len() && unit_from_char(s[frac_end]) is Some {
        let u = unit_from_char(s[frac_end])->0;
        match value {
            Option::Some(v) => (
                seq![
                    TokenModel {
                        typ: TokenType::Quantity,
                        lexeme: s.subrange(i, frac_end + 1),
                        literal: Option::Some(
                            TokenLiteralModel::Quantity(Quantity { value: v, unit: u }),
                        ),
                        line,
                    },
                ],
                frac_end + 1,
                line,
            ),
            Option::None => (Seq::empty(), frac_end + 1, line),
        }
    } else {
        match value {
            Option::Some(v) => (
                seq![
                    TokenModel {
                        typ: TokenType::Number,
                        lexeme: s.subrange(i, frac_end),
                        literal: Option::Some(TokenLiteralModel::Number(v)),
                        line,
                    },
                ],
                frac_end,
                line,
            ),
            Option::None => (Seq::empty(), frac_end, line),
        }
    }
}

/// Every scanning step moves forward and stays inside the input.
pub proof fn lemma_scan_step_advances(s: Seq<char>, i: int, line: nat)
    requires
        0 <= i < s.len(),
    ensures
        i < scan_step(s, i, line).1 <= s.len(),
{
    let c = s[i];
    if c == '/' && i + 1 < s.len() && s[i + 1] == '/' {
        lemma_comment_end(s, i + 2);
    } else if c == '"' {
        lemma_string_end(s, i + 1);
    } else if !(c == '(' || c == ')' || c == '{' || c == '}' || c == '[' || c == ']' || c == ','
        || c == '.' || c == '-' || c == '+' || c == ';' || c == '*' || c == '!' || c == '=' || c
        == '<' || c == '>' || c == '/' || c == ' ' || c == '\r' || c == '\t' || c == '\n') {
        if is_digit_char(c) {
            lemma_digits_end(s, i);
            let int_end = digits_end(s, i);
            if int_end + 1 < s.len() && s[int_end] == '.' && is_digit_char(s[int_end + 1]) {
                lemma_digits_end(s, int_end + 1);
            }
        } else if is_alpha_char(c) {
            lemma_alnum_end(s, i + 1);
        }
    }
}

/// The tokens of the rest of the input, from position `i` on line `line`:
/// one step after another, closed by the end-of-input token.
pub open spec fn spec_scan(s: Seq<char>, i: int, line: nat) -> Seq<TokenModel>
    decreases s.len() - i,
    when 0 <= i <= s.len()
    via spec_scan_decreases
{
    if i >= s.len() {
        seq![eof_token(line)]
    } else {
        let (ts, i2, l2) = scan_step(s, i, line);
        ts + spec_scan(s, i2, l2)
    }
}

#[via_fn]
proof fn spec_scan_decreases(s: Seq<char>, i: int, line: nat) {
    if i < s.len() {
        lemma_scan_step_advances(s, i, line);
    }
}

/// Whether a character is a decimal digit.
fn is_digit(c: char) -> (r: bool)
    ensures
        r == is_digit_char(c),
{
    let u = c as u32;
    (48 <= u) && (u <= 57)
}

/// Whether a character can start an identifier.
fn is_alpha(c: char) -> (r: bool)
    ensures
        r == is_alpha_char(c),
{
    let u = c as u32;
    ((97 <= u) && (u <= 122)) || ((65 <= u) && (u <= 90)) || c == '_'
}

/// Whether a character can continue an identifier.
fn is_alnum(c: char) -> (r: bool)
    ensures
        r == is_alnum_char(c),
{
    is_alpha(c) || is_digit(c)
}

/// The token type of the identifier text `src[a..b]`.
fn keyword_type(src: &Vec<char>, a: usize, b: usize) -> (r: TokenType)
    requires
        a <= b <= src@.len(),
    ensures
        r == keyword_or_identifier(src@.subrange(a as int, b as int)),
{
    let ghost text = src@.subrange(a as int, b as int);
    let n = b - a;
    if n == 2 {
        if src[a] == 'f' && src[a + 1] == 'n' {
            TokenType::Fn
        } else if src[a] == 'i' && src[a + 1] == 'f' {
            TokenType::If
        } else if src[a] == 'o' && src[a + 1] == 'r' {
            TokenType::Or
        } else {
            TokenType::Identifier
        }
    } else if n == 3 {
        if src[a] == 'a' && src[a + 1] == 'n' && src[a + 2] == 'd' {
            TokenType::And
        } else if src[a] == 'f' && src[a + 1] == 'o' && src[a + 2] == 'r' {
            TokenType::For
        } else if src[a] == 'l' && src[a + 1] == 'e' && src[a + 2] == 't' {
            TokenType::Let
        } else if src[a] == 'n' && src[a + 1] == 'i' && src[a + 2] == 'l' {
            TokenType::Nil
        } else {
            TokenType::Identifier
        }
    } else if n == 4 {
        if src[a] == 'e' && src[a + 1] == 'l' && src[a + 2] == 's' && src[a + 3] == 'e' {
            TokenType::Else
        } else if src[a] == 't' && src[a + 1] == 'r' && src[a + 2] == 'u' && src[a + 3] == 'e' {
            TokenType::True
        } else {
            TokenType::Identifier
        }
    } else if n == 5 {
        if src[a] == 'f' && src[a + 1] == 'a' && src[a + 2] == 'l' && src[a + 3] == 's' && src[a
            + 4] == 'e' {
            TokenType::False
        } else if src[a] == 'w' && src[a + 1] == 'h' && src[a + 2] == 'i' && src[a + 3] == 'l'
            && src[a + 4] == 'e' {
            TokenType::While
        } else {
            TokenType::Identifier
        }
    } else {
        TokenType::Identifier
    }
}

/// The lexer: a single left-to-right pass over the source characters, with
/// one character of lookahead.
pub struct Lexer<R> {
    src: Vec<char>,
    tokens: Vec<Token>,
    start: usize,
    current: usize,
    line: usize,
    reporter: R,
}

impl<R: ErrorReporter> Lexer<R> {
    /// The source characters this lexer scans.
    pub closed spec fn src_chars(self) -> Seq<char> {
        self.src@
    }

    /// A lexer that has not started scanning yet.
    pub closed spec fn fresh(self) -> bool {
        &&& self.tokens@.len() == 0
        &&& self.start == 0
        &&& self.current == 0
        &&& self.line == 1
    }

    /// Ready a lexer over the characters of the source text.
    pub fn new(src: &str, reporter: R) -> (r: Lexer<R>)
        requires
            src@.len() < usize::MAX,
        ensures
            r.src_chars() == src@,
            r.fresh(),
    {
        let n = src.unicode_len();
        let mut chars: Vec<char> = Vec::new();
        let mut i: usize = 0;
        while i < n
            invariant
                i <= n,
                n == src@.len(),
                chars@ == src@.subrange(0, i as int),
            decreases n - i,
        {
            let c = src.get_char(i);
            chars.push(c);
            proof {
                assert(src@.subrange(0, i + 1) =~= src@.subrange(0, i as int).push(
                    src@[i as int],
                ));
            }
            i = i + 1;
        }
        proof {
            assert(src@.subrange(0, src@.len() as int) =~= src@);
        }
        Lexer { src: chars, tokens: Vec::new(), start: 0, current: 0, line: 1, reporter }
    }

    /// Scan the whole source: the resulting token sequence is exactly what
    /// `spec_scan` says the text reads as, closed by an end-of-input token.
    /// Unrecognized characters, unterminated strings and out-of-range numeric
    /// literals are reported to the reporter and yield no token.
    pub fn scan_tokens(self) -> (r: Vec<Token>)
        requires
            self.fresh(),
            self.src_chars().len() < usize::MAX,
        ensures
            r.deep_view() == spec_scan(self.src_chars(), 0, 1),
            toks_wf(r.deep_view()),
    {
        let ghost s = self.src@;
        proof {
            lemma_spec_scan_wf(s, 0, 1);
        }
        let mut this = self;
        proof {
            assert(this.tokens.deep_view() =~= Seq::<TokenModel>::empty());
        }
        while this.current < this.src.len()
            invariant
                this.src@ == s,
                this.current <= s.len(),
                s.len() < usize::MAX,
                1 <= this.line,
                this.line <= 1 + this.current,
                this.tokens.deep_view() + spec_scan(s, this.current as int, this.line as nat)
                    =~= spec_scan(s, 0, 1),
            decreases s.len() - this.current,
        {
            this.start = this.current;
            let ghost pre_tokens = this.tokens.deep_view();
            let ghost pre_current = this.current as int;
            let ghost pre_line = this.line as nat;
            this.scan_token();
            proof {
                lemma_scan_step_advances(s, pre_current, pre_line);
                let (ts, i2, l2) = scan_step(s, pre_current, pre_line);
                assert(spec_scan(s, pre_current, pre_line) == ts + spec_scan(s, i2, l2));
                assert((pre_tokens + ts) + spec_scan(s, i2, l2) =~= pre_tokens + (ts + spec_scan(
                    s,
                    i2,
                    l2,
                )));
            }
        }
        let ghost pre_tokens = this.tokens.deep_view();
        let line = this.line;
        this.tokens.push(Token { typ: TokenType::Eof, lexeme: String::new(), literal: None, line });
        proof {
            assert(this.tokens.deep_view() =~= pre_tokens + seq![eof_token(line as nat)]);
            assert(spec_scan(s, this.current as int, line as nat) == seq![eof_token(line as nat)]);
        }
        this.tokens
    }

    /// Scan one token (or discard whitespace, a comment, or an erroneous
    /// stretch), exactly as one step of `scan_step` describes.
    fn scan_token(&mut self)
        requires
            old(self).start == old(self).current < old(self).src@.len(),
            old(self).src@.len() < usize::MAX,
            1 <= old(self).line,
            old(self).line <= 1 + old(self).current,
        ensures
            final(self).src@ == old(self).src@,
            ({
                let (ts, i2, l2) = scan_step(
                    old(self).src@,
                    old(self).current as int,
                    old(self).line as nat,
                );
                &&& final(self).tokens.deep_view() =~= old(self).tokens.deep_view() + ts
                &&& final(self).current as int == i2
                &&& final(self).line as nat == l2
            }),
            final(self).line <= 1 + final(self).current,
            1 <= final(self).line,
    {
        let ghost s = self.src@;
        let ghost i = self.current as int;
        let ghost line0 = self.line as nat;
        let c = self.src[self.current];
        self.current = self.current + 1;
        if c == '(' {
            self.add_token(TokenType::LParen);
        } else if c == ')' {
            self.add_token(TokenType::RParen);
        } else if c == '{' {
            self.add_token(TokenType::LBrace);
        } else if c == '}' {
            self.add_token(TokenType::RBrace);
        } else if c == '[' {
            self.add_token(TokenType::LBracket);
        } else if c == ']' {
            self.add_token(TokenType::RBracket);
        } else if c == ',' {
            self.add_token(TokenType::Comma);
        } else if c == '.' {
            self.add_token(TokenType::Dot);
        } else if c == '-' {
            self.add_token(TokenType::Minus);
        } else if c == '+' {
            self.add_token(TokenType::Plus);
        } else if c == ';' {
            self.add_token(TokenType::SemiColon);
        } else if c == '*' {
            self.add_token(TokenType::Star);
        } else if c == '!' {
            if self.match_char('=') {
                self.add_token(TokenType::BangEqual);
            } else {
                self.add_token(TokenType::Bang);
            }
        } else if c == '=' {
            if self.match_char('=') {
                self.add_token(TokenType::EqualEqual);
            } else {
                self.add_token(TokenType::Equal);
            }
        } else if c == '<' {
            if self.match_char('=') {
                self.add_token(TokenType::LessEqual);
            } else {
                self.add_token(TokenType::Less);
            }
        } else if c == '>' {
            if self.match_char('=') {
                self.add_token(TokenType::GreaterEqual);
            } else {
                self.add_token(TokenType::Greater);
            }
        } else if c == '/' {
            if self.match_char('/') {
                // a comment runs to the end of the line
                while self.current < self.src.len() && self.src[self.current] != '\n'
                    invariant
                        self.src@ == s,
                        2 <= self.current <= s.len(),
                        i + 2 <= self.current,
                        comment_end(s, i + 2) == comment_end(s, self.current as int),
                        self.tokens == old(self).tokens,
                        self.line == old(self).line,
                        self.start == old(self).start,
                        self.line <= 1 + i,
                    decreases s.len() - self.current,
                {
                    self.current = self.current + 1;
                }
                proof {
                    assert(comment_end(s, self.current as int) == self.current as int);
                }
            } else {
                self.add_token(TokenType::Slash);
            }
        } else if c == ' ' || c == '\r' || c == '\t' {
            // whitespace is discarded
        } else if c == '\n' {
            self.line = self.line + 1;
        } else if c == '"' {
            self.string();
        } else if is_digit(c) {
            self.number();
        } else if is_alpha(c) {
            self.identifier();
        } else {
            let line = self.line;
            self.reporter.error(line, "Unexpected character.");
        }
        proof {
            lemma_scan_step_advances(s, i, line0);
        }
    }

    /// Consume the next character if it is the expected one.
    fn match_char(&mut self, expected: char) -> (r: bool)
        requires
            old(self).current <= old(self).src@.len(),
        ensures
            final(self).src@ == old(self).src@,
            final(self).tokens == old(self).tokens,
            final(self).line == old(self).line,
            final(self).start == old(self).start,
            ({
                if old(self).current < old(self).src@.len() && old(self).src@[old(self).current as int]
                    == expected {
                    r && final(self).current == old(self).current + 1
                } else {
                    !r && final(self).current == old(self).current
                }
            }),
    {
        if self.current >= self.src.len() {
            return false;
        }
        if self.src[self.current] != expected {
            return false;
        }
        self.current = self.current + 1;
        true
    }

    /// Scan the remainder of a string literal; the opening quote has been
    /// consumed. An unterminated string is reported and yields no token.
    fn string(&mut self)
        requires
            old(self).start + 1 == old(self).current <= old(self).src@.len(),
            old(self).src@.len() < usize::MAX,
            1 <= old(self).line,
            old(self).line <= 1 + old(self).start,
        ensures
            final(self).src@ == old(self).src@,
            ({
                let s = old(self).src@;
                let j = string_end(s, old(self).current as int);
                let nl = count_newlines(s, old(self).current as int, j);
                &&& final(self).line as nat == old(self).line as nat + nl
                &&& if j == s.len() {
                    &&& final(self).tokens == old(self).tokens
                    &&& final(self).current as int == s.len()
                } else {
                    &&& final(self).current as int == j + 1
                    &&& final(self).tokens.deep_view() =~= old(self).tokens.deep_view() + seq![
                        TokenModel {
                            typ: TokenType::String,
                            lexeme: s.subrange(old(self).start as int, j + 1),
                            literal: Option::Some(
                                TokenLiteralModel::Str(s.subrange(old(self).current as int, j)),
                            ),
                            line: old(self).line as nat + nl,
                        },
                    ]
                }
            }),
            final(self).line <= 1 + final(self).current,
            1 <= final(self).line,
    {
        let ghost s = self.src@;
        let ghost from = self.current as int;
        proof {
            lemma_string_end(s, from);
        }
        while self.current < self.src.len() && self.src[self.current] != '"'
            invariant
                self.src@ == s,
                from <= self.current <= s.len(),
                s.len() < usize::MAX,
                string_end(s, from) == string_end(s, self.current as int),
                self.line as nat == old(self).line as nat + count_newlines(
                    s,
                    from,
                    self.current as int,
                ),
                self.tokens == old(self).tokens,
                self.start == old(self).start,
                old(self).line <= 1 + old(self).start,
                old(self).start + 1 == from,
                1 <= self.line,
                self.line <= 1 + self.current,
            decreases s.len() - self.current,
        {
            proof {
                lemma_count_newlines_snoc(s, from, self.current as int);
                lemma_count_newlines_bound(s, from, self.current as int);
            }
            if self.src[self.current] == '\n' {
                self.line = self.line + 1;
            }
            self.current = self.current + 1;
        }
        proof {
            assert(string_end(s, self.current as int) == self.current as int);
        }
        if self.current >= self.src.len() {
            let line = self.line;
            self.reporter.error(line, "Unterminated string.");
            return;
        }
        // the closing quote
        self.current = self.current + 1;
        let ghost j = string_end(s, from);
        let content = crate::text::chars_to_string(&self.src, self.start + 1, self.current - 1);
        self.add_token_with_literal(TokenType::String, Some(TokenLiteral::String(content)));
    }

    /// Scan the remainder of a numeric literal; the first digit has been
    /// consumed. A literal whose value leaves the representable decimal range
    /// is reported and yields no token.
    fn number(&mut self)
        requires
            old(self).start + 1 == old(self).current <= old(self).src@.len(),
            old(self).src@.len() < usize::MAX,
            is_digit_char(old(self).src@[old(self).start as int]),
            1 <= old(self).line,
        ensures
            final(self).src@ == old(self).src@,
            ({
                let (ts, i2, l2) = scan_number_step(
                    old(self).src@,
                    old(self).start as int,
                    old(self).line as nat,
                );
                &&& final(self).tokens.deep_view() =~= old(self).tokens.deep_view() + ts
                &&& final(self).current as int == i2
                &&& final(self).line == old(self).line
            }),
    {
        let ghost s = self.src@;
        let ghost st = self.start as int;
        proof {
            lemma_digits_end(s, st);
            assert(digits_end(s, st) == digits_end(s, st + 1));
        }
        self.run_digits();
        let int_end = self.current;
        let mut frac_start = int_end;
        let mut frac_end = int_end;
        proof {
            lemma_digits_end(s, int_end as int);
        }
        if int_end + 1 < self.src.len() && self.src[int_end] == '.' && is_digit(
            self.src[int_end + 1],
        ) {
            // consume the point, then the fractional digits
            self.current = self.current + 1;
            proof {
                lemma_digits_end(s, int_end + 1);
            }
            self.run_digits();
            frac_start = int_end + 1;
            frac_end = self.current;
        }
        let ghost has_frac = int_end + 1 < s.len() && s[int_end as int] == '.' && is_digit_char(
            s[int_end + 1],
        );
        let num_end = self.current;
        let unit_char_here = self.current < self.src.len() && is_unit_char(self.src[self.current]);
        if unit_char_here {
            let uc = self.src[self.current];
            let unit = match crate::ast::Unit::from_suffix(uc) {
                Ok(u) => u,
                Err(_) => vstd::pervasive::unreached(),
            };
            self.current = self.current + 1;
            match Decimal::from_digit_runs(&self.src, self.start, int_end, frac_start, frac_end) {
                Some(v) => {
                    self.add_token_with_literal(
                        TokenType::Quantity,
                        Some(TokenLiteral::Quantity(Quantity::new(v, unit))),
                    );
                },
                None => {
                    let line = self.line;
                    self.reporter.error(line, "Number is too large.");
                },
            }
        } else {
            match Decimal::from_digit_runs(&self.src, self.start, int_end, frac_start, frac_end) {
                Some(v) => {
                    self.add_token_with_literal(
                        TokenType::Number,
                        Some(TokenLiteral::Number(v)),
                    );
                },
                None => {
                    let line = self.line;
                    self.reporter.error(line, "Number is too large.");
                },
            }
        }
    }

    /// Scan the remainder of an identifier or keyword; the first character
    /// has been consumed.
    fn identifier(&mut self)
        requires
            old(self).start + 1 == old(self).current <= old(self).src@.len(),
            old(self).src@.len() < usize::MAX,
            is_alpha_char(old(self).src@[old(self).start as int]),
        ensures
            final(self).src@ == old(self).src@,
            final(self).line == old(self).line,
            ({
                let s = old(self).src@;
                let st = old(self).start as int;
                let end = alnum_end(s, st + 1);
                &&& final(self).current as int == end
                &&& final(self).tokens.deep_view() =~= old(self).tokens.deep_view() + seq![
                    simple_token(
                        keyword_or_identifier(s.subrange(st, end)),
                        s.subrange(st, end),
                        old(self).line as nat,
                    ),
                ]
            }),
    {
        let ghost s = self.src@;
        proof {
            lemma_alnum_end(s, self.current as int);
        }
        while self.current < self.src.len() && is_alnum(self.src[self.current])
            invariant
                self.src@ == s,
                old(self).current <= self.current <= s.len(),
                alnum_end(s, old(self).current as int) == alnum_end(s, self.current as int),
                self.tokens == old(self).tokens,
                self.line == old(self).line,
                self.start == old(self).start,
            decreases s.len() - self.current,
        {
            self.current = self.current + 1;
        }
        proof {
            assert(alnum_end(s, self.current as int) == self.current as int);
        }
        let typ = keyword_type(&self.src, self.start, self.current);
        self.add_token(typ);
    }

    /// Advance past any digits standing at the cursor.
    fn run_digits(&mut self)
        requires
            old(self).current <= old(self).src@.len(),
        ensures
            final(self).src@ == old(self).src@,
            final(self).tokens == old(self).tokens,
            final(self).line == old(self).line,
            final(self).start == old(self).start,
            final(self).current as int == digits_end(old(self).src@, old(self).current as int),
    {
        let ghost s = self.src@;
        while self.current < self.src.len() && is_digit(self.src[self.current])
            invariant
                self.src@ == s,
                old(self).current <= self.current <= s.len(),
                digits_end(s, old(self).current as int) == digits_end(s, self.current as int),
                self.tokens == old(self).tokens,
                self.line == old(self).line,
                self.start == old(self).start,
            decreases s.len() - self.current,
        {
            self.current = self.current + 1;
        }
        proof {
            assert(digits_end(s, self.current as int) == self.current as int);
        }
    }

    /// Append a token without a literal payload, covering `src[start..current]`.
    fn add_token(&mut self, typ: TokenType)
        requires
            old(self).start <= old(self).current <= old(self).src@.len(),
        ensures
            final(self).src@ == old(self).src@,
            final(self).line == old(self).line,
            final(self).start == old(self).start,
            final(self).current == old(self).current,
            final(self).tokens.deep_view() =~= old(self).tokens.deep_view() + seq![
                simple_token(
                    typ,
                    old(self).src@.subrange(old(self).start as int, old(self).current as int),
                    old(self).line as nat,
                ),
            ],
    {
        self.add_token_with_literal(typ, None);
    }

    /// Append a token covering `src[start..current]` with the given payload.
    fn add_token_with_literal(&mut self, typ: TokenType, literal: Option<TokenLiteral>)
        requires
            old(self).start <= old(self).current <= old(self).src@.len(),
        ensures
            final(self).src@ == old(self).src@,
            final(self).line == old(self).line,
            final(self).start == old(self).start,
            final(self).current == old(self).current,
            final(self).tokens.deep_view() =~= old(self).tokens.deep_view() + seq![
                TokenModel {
                    typ,
                    lexeme: old(self).src@.subrange(
                        old(self).start as int,
                        old(self).current as int,
                    ),
                    literal: match literal {
                        Option::None => Option::None,
                        Option::Some(l) => Option::Some(l@),
                    },
                    line: old(self).line as nat,
                },
            ],
    {
        let lexeme = crate::text::chars_to_string(&self.src, self.start, self.current);
        let line = self.line;
        self.tokens.push(Token { typ, lexeme, literal, line });
    }
}

/// Whether a character is one of the four unit suffixes.
fn is_unit_char(c: char) -> (r: bool)
    ensures
        r == (unit_from_char(c) is Some),
{
    c == 's' || c == 'm' || c == '%' || c == 'x'
}

/// A newline count never exceeds the width of the range counted.
pub proof fn lemma_count_newlines_bound(s: Seq<char>, i: int, j: int)
    requires
        i <= j,
    ensures
        count_newlines(s, i, j) <= j - i,
    decreases j - i,
{
    if i < j {
        lemma_count_newlines_bound(s, i + 1, j);
    }
}

/// Where a run of digits bounded on the right actually ends.
pub proof fn lemma_digits_end_exact(s: Seq<char>, i: int, j: int)
    requires
        0 <= i <= j <= s.len(),
        forall|k: int| i <= k < j ==> is_digit_char(#[trigger] s[k]),
        j < s.len() ==> !is_digit_char(s[j]),
    ensures
        digits_end(s, i) == j,
    decreases j - i,
{
    if i < j {
        lemma_digits_end_exact(s, i + 1, j);
    }
}

/// Every scan yields a well-formed token sequence: non-empty, closed by
/// exactly one end-of-input token, every literal token carrying its payload.
pub proof fn lemma_spec_scan_wf(s: Seq<char>, i: int, line: nat)
    requires
        0 <= i <= s.len(),
    ensures
        toks_wf(spec_scan(s, i, line)),
    decreases s.len() - i,
{
    let toks = spec_scan(s, i, line);
    if i >= s.len() {
        assert(toks.len() == 1);
        assert(payload_wf(toks[0]));
    } else {
        lemma_scan_step_advances(s, i, line);
        let (ts, i2, l2) = scan_step(s, i, line);
        lemma_spec_scan_wf(s, i2, l2);
        let rest = spec_scan(s, i2, l2);
        assert(toks == ts + rest);
        assert(forall|k: int|
            0 <= k < ts.len() ==> (#[trigger] ts[k].typ) != TokenType::Eof && payload_wf(ts[k]));
        assert(toks[toks.len() - 1] == rest[rest.len() - 1]);
        assert forall|k: int| 0 <= k < toks.len() - 1 implies (#[trigger] toks[k].typ)
            != TokenType::Eof by {
            if k < ts.len() {
                assert(toks[k] == ts[k]);
            } else {
                assert(toks[k] == rest[k - ts.len()]);
            }
        }
        assert forall|k: int| 0 <= k < toks.len() implies payload_wf(#[trigger] toks[k]) by {
            if k < ts.len() {
                assert(toks[k] == ts[k]);
            } else {
                assert(toks[k] == rest[k - ts.len()]);
            }
        }
    }
}

/// No unit suffix character is a digit.
proof fn lemma_unit_char_not_digit(u: Unit)
    ensures
        !is_digit_char(u.spec_char()),
{
    match u {
        Unit::Percent => {
            assert(!is_digit_char('%'));
        },
        Unit::Rep => {
            assert(!is_digit_char('x'));
        },
        Unit::Time(t) => {
            match t {
                crate::ast::TimeUnit::Second => {
                    assert(!is_digit_char('s'));
                },
                crate::ast::TimeUnit::Minute => {
                    assert(!is_digit_char('m'));
                },
            }
        },
    }
}

/// Scanning the text of a nonnegative canonical decimal yields exactly one
/// number token carrying that value, then the end of the input: display and
/// scanning round-trip.
#[verifier::rlimit(60)]
pub proof fn lemma_scan_number_literal(v: Decimal)
    requires
        v.wf(),
        !v.neg,
    ensures
        ({
            let text = dec_text(v);
            spec_scan(text, 0, 1) == seq![
                TokenModel {
                    typ: TokenType::Number,
                    lexeme: text,
                    literal: Option::Some(TokenLiteralModel::Number(v)),
                    line: 1,
                },
                eof_token(1),
            ]
        }),
{
    let text = dec_text(v);
    let pad = dec_digits_padded(v);
    let lp = pad.len() as int;
    lemma_padded_digits(v);
    lemma_dec_text_roundtrip(v);
    let expected = TokenModel {
        typ: TokenType::Number,
        lexeme: text,
        literal: Option::Some(TokenLiteralModel::Number(v)),
        line: 1,
    };
    if v.e == 0 {
        assert(text == pad);
        lemma_digits_end_exact(text, 0, lp);
        assert(is_digit_char(text[0]));
        let ns = scan_number_step(text, 0, 1);
        assert(digits_end(text, 0) == lp);
        assert(!(lp + 1 < text.len()));
        assert(text.subrange(0, lp) =~= pad);
        assert(text.subrange(lp, lp) =~= Seq::<char>::empty());
        assert(text.subrange(0, lp) + text.subrange(lp, lp) =~= pad);
        assert(spec_from_digits(pad, 0) == Option::Some(Decimal { neg: false, m: v.m, e: v.e }));
        assert(Decimal { neg: false, m: v.m, e: v.e } == v);
        assert(ns.0.len() == 1);
        assert(ns.0[0] =~= expected);
        assert(ns.0 =~= seq![expected]);
        assert(ns.1 == lp);
        assert(scan_step(text, 0, 1) == ns);
        assert(spec_scan(text, 0, 1) == ns.0 + spec_scan(text, lp, 1));
        assert(spec_scan(text, lp, 1) == seq![eof_token(1)]);
        assert(seq![expected] + seq![eof_token(1)] =~= seq![expected, eof_token(1)]);
    } else {
        let il = lp - v.e;
        assert(lp >= v.e + 1);
        assert(il >= 1);
        assert(text == pad.take(il) + seq!['.'] + pad.skip(il));
        assert(text.len() == lp + 1);
        assert(forall|k: int| 0 <= k < il ==> text[k] == pad[k]);
        assert(text[il] == '.');
        assert(forall|k: int| il + 1 <= k < lp + 1 ==> text[k] == pad[k - 1]);
        assert(!is_digit_char('.'));
        lemma_digits_end_exact(text, 0, il);
        assert(is_digit_char(text[0]));
        let ns = scan_number_step(text, 0, 1);
        assert(digits_end(text, 0) == il);
        assert(il + 1 < text.len());
        assert(is_digit_char(text[il + 1]));
        lemma_digits_end_exact(text, il + 1, lp + 1);
        assert(digits_end(text, il + 1) == lp + 1);
        let digits = text.subrange(0, il) + text.subrange(il + 1, lp + 1);
        assert(digits =~= pad);
        assert((lp + 1) - (il + 1) == v.e);
        assert(spec_from_digits(pad, v.e as nat) == Option::Some(
            Decimal { neg: false, m: v.m, e: v.e },
        ));
        assert(Decimal { neg: false, m: v.m, e: v.e } == v);
        assert(!(lp + 1 < text.len()));
        assert(ns.0.len() == 1);
        assert(ns.0[0] =~= expected);
        assert(ns.0 =~= seq![expected]);
        assert(ns.1 == lp + 1);
        assert(scan_step(text, 0, 1) == ns);
        assert(spec_scan(text, 0, 1) == ns.0 + spec_scan(text, lp + 1, 1));
        assert(spec_scan(text, lp + 1, 1) == seq![eof_token(1)]);
        assert(seq![expected] + seq![eof_token(1)] =~= seq![expected, eof_token(1)]);
    }
}

/// Scanning the text of a nonnegative quantity literal -- the text of a
/// canonical decimal followed by a unit suffix -- yields exactly one quantity
/// token carrying that value and unit, then the end of the input. (The text
/// of a negative decimal starts with a minus sign, which scans as its own
/// token in front of the quantity.)
#[verifier::rlimit(60)]
pub proof fn lemma_scan_quantity_literal(v: Decimal, u: Unit)
    requires
        v.wf(),
        !v.neg,
    ensures
        ({
            let text = dec_text(v).push(u.spec_char());
            spec_scan(text, 0, 1) == seq![
                TokenModel {
                    typ: TokenType::Quantity,
                    lexeme: text,
                    literal: Option::Some(
                        TokenLiteralModel::Quantity(Quantity { value: v, unit: u }),
                    ),
                    line: 1,
                },
                eof_token(1),
            ]
        }),
{
    let text = dec_text(v).push(u.spec_char());
    let pad = dec_digits_padded(v);
    let lp = pad.len() as int;
    let uc = u.spec_char();
    lemma_padded_digits(v);
    crate::ast::lemma_unit_round_trip(u);
    lemma_unit_char_not_digit(u);
    lemma_dec_text_roundtrip(v);
    let expected = TokenModel {
        typ: TokenType::Quantity,
        lexeme: text,
        literal: Option::Some(TokenLiteralModel::Quantity(Quantity { value: v, unit: u })),
        line: 1,
    };
    if v.e == 0 {
        assert(dec_text(v) == pad);
        assert(text.len() == lp + 1);
        assert(forall|k: int| 0 <= k < lp ==> text[k] == pad[k]);
        assert(text[lp] == uc);
        lemma_digits_end_exact(text, 0, lp);
        assert(is_digit_char(text[0]));
        let ns = scan_number_step(text, 0, 1);
        assert(digits_end(text, 0) == lp);
        assert(!(lp + 1 < text.len()));
        assert(text.subrange(0, lp) =~= pad);
        assert(text.subrange(lp, lp) =~= Seq::<char>::empty());
        assert(text.subrange(0, lp) + text.subrange(lp, lp) =~= pad);
        assert(spec_from_digits(pad, 0) == Option::Some(Decimal { neg: false, m: v.m, e: v.e }));
        assert(Decimal { neg: false, m: v.m, e: v.e } == v);
        assert(unit_from_char(text[lp]) == Option::Some(u));
        assert(text.subrange(0, lp + 1) =~= text);
        assert(ns.0 == seq![expected]);
        assert(ns.1 == lp + 1);
        assert(scan_step(text, 0, 1) == ns);
        assert(spec_scan(text, 0, 1) == ns.0 + spec_scan(text, lp + 1, 1));
        assert(spec_scan(text, lp + 1, 1) == seq![eof_token(1)]);
        assert(seq![expected] + seq![eof_token(1)] =~= seq![expected, eof_token(1)]);
    } else {
        let il = lp - v.e;
        assert(lp >= v.e + 1);
        assert(il >= 1);
        assert(dec_text(v) == pad.take(il) + seq!['.'] + pad.skip(il));
        assert(text.len() == lp + 2);
        assert(forall|k: int| 0 <= k < il ==> text[k] == pad[k]);
        assert(text[il] == '.');
        assert(forall|k: int| il + 1 <= k < lp + 1 ==> text[k] == pad[k - 1]);
        assert(text[lp + 1] == uc);
        assert(!is_digit_char('.'));
        lemma_digits_end_exact(text, 0, il);
        assert(is_digit_char(text[0]));
        let ns = scan_number_step(text, 0, 1);
        assert(digits_end(text, 0) == il);
        assert(il + 1 < text.len());
        assert(is_digit_char(text[il + 1]));
        lemma_digits_end_exact(text, il + 1, lp + 1);
        assert(digits_end(text, il + 1) == lp + 1);
        let digits = text.subrange(0, il) + text.subrange(il + 1, lp + 1);
        assert(digits =~= pad);
        assert((lp + 1) - (il + 1) == v.e);
        assert(spec_from_digits(pad, v.e as nat) == Option::Some(
            Decimal { neg: false, m: v.m, e: v.e },
        ));
        assert(Decimal { neg: false, m: v.m, e: v.e } == v);
        assert(unit_from_char(text[lp + 1]) == Option::Some(u));
        assert(text.subrange(0, lp + 2) =~= text);
        assert(ns.0 == seq![expected]);
        assert(ns.1 == lp + 2);
        assert(scan_step(text, 0, 1) == ns);
        assert(spec_scan(text, 0, 1) == ns.0 + spec_scan(text, lp + 2, 1));
        assert(spec_scan(text, lp + 2, 1) == seq![eof_token(1)]);
        assert(seq![expected] + seq![eof_token(1)] =~= seq![expected, eof_token(1)]);
    }
}

} // verus!
