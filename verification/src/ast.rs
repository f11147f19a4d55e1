//! The data model: units, quantities, runtime values, operator tags, and the
//! expression and statement trees.

use vstd::prelude::*;
use crate::WmdError;
use crate::lexer::{TokenLiteral, TokenLiteralModel, TokenType};
use crate::number::{dec_text, Decimal};
use crate::text::push_char;
use vstd::string::StringExecFns;

verus! {

/// A unit of time.
#[derive(Debug, Clone, Copy, PartialEq, Eq, Structural)]
pub enum TimeUnit {
    Second,
    Minute,
}

impl TimeUnit {
    /// The suffix character that writes this unit.
    pub open spec fn spec_char(self) -> char {
        match self {
            TimeUnit::Second => 's',
            TimeUnit::Minute => 'm',
        }
    }

    /// The textual form of this unit.
    pub fn to_text(self) -> (r: String)
        ensures
            r@ == seq![self.spec_char()],
    {
        let mut s = String::new();
        match self {
            TimeUnit::Second => push_char(&mut s, 's'),
            TimeUnit::Minute => push_char(&mut s, 'm'),
        }
        proof {
            assert(s@ =~= seq![self.spec_char()]);
        }
        s
    }
}

/// The unit carried by a quantity literal.
#[derive(Debug, Clone, Copy, PartialEq, Eq, Structural)]
pub enum Unit {
    Percent,
    Rep,
    Time(TimeUnit),
}

/// The unit written by a suffix character, if any.
pub open spec fn unit_from_char(c: char) -> Option<Unit> {
    if c == 'x' {
        Option::Some(Unit::Rep)
    } else if c == '%' {
        Option::Some(Unit::Percent)
    } else if c == 's' {
        Option::Some(Unit::Time(TimeUnit::Second))
    } else if c == 'm' {
        Option::Some(Unit::Time(TimeUnit::Minute))
    } else {
        Option::None
    }
}

impl Unit {
    /// The suffix character that writes this unit.
    pub open spec fn spec_char(self) -> char {
        match self {
            Unit::Percent => '%',
            Unit::Rep => 'x',
            Unit::Time(t) => t.spec_char(),
        }
    }

    /// The textual form of this unit.
    pub fn to_text(self) -> (r: String)
        ensures
            r@ == seq![self.spec_char()],
    {
        match self {
            Unit::Percent => {
                let mut s = String::new();
                push_char(&mut s, '%');
                proof {
                    assert(s@ =~= seq![self.spec_char()]);
                }
                s
            },
            Unit::Rep => {
                let mut s = String::new();
                push_char(&mut s, 'x');
                proof {
                    assert(s@ =~= seq![self.spec_char()]);
                }
                s
            },
            Unit::Time(t) => t.to_text(),
        }
    }

    /// Parse a unit suffix character; every character besides the four unit
    /// suffixes is rejected as a bad unit.
    pub fn from_suffix(c: char) -> (r: Result<Unit, WmdError>)
        ensures
            match unit_from_char(c) {
                Option::Some(u) => r == Ok::<Unit, WmdError>(u),
                Option::None => r == Err::<Unit, WmdError>(WmdError::BadUnit),
            },
    {
        if c == 'x' {
            Ok(Unit::Rep)
        } else if c == '%' {
            Ok(Unit::Percent)
        } else if c == 's' {
            Ok(Unit::Time(TimeUnit::Second))
        } else if c == 'm' {
            Ok(Unit::Time(TimeUnit::Minute))
        } else {
            Err(WmdError::BadUnit)
        }
    }
}

/// Round trip: the suffix character of every unit parses back to that unit.
pub proof fn lemma_unit_round_trip(u: Unit)
    ensures
        unit_from_char(u.spec_char()) == Option::Some(u),
{
}

/// A number paired with a unit. The value is not unit-normalized: one minute
/// and sixty seconds are different quantities.
#[derive(Debug, Clone, Copy, PartialEq, Eq, Structural)]
pub struct Quantity {
    pub value: Decimal,
    pub unit: Unit,
}

impl Quantity {
    /// Pair a value with a unit.
    pub fn new(value: Decimal, unit: Unit) -> (r: Quantity)
        ensures
            r == (Quantity { value, unit }),
    {
        Quantity { value, unit }
    }

    /// Canonical representation of the value.
    pub open spec fn wf(self) -> bool {
        self.value.wf()
    }

    /// The textual form of a quantity: the value's text followed by the
    /// unit's suffix character.
    pub open spec fn spec_text(self) -> Seq<char> {
        dec_text(self.value).push(self.unit.spec_char())
    }

    /// The textual form of this quantity.
    pub fn to_text(self) -> (r: String)
        ensures
            r@ == self.spec_text(),
    {
        let mut s = self.value.to_text();
        match self.unit {
            Unit::Percent => push_char(&mut s, '%'),
            Unit::Rep => push_char(&mut s, 'x'),
            Unit::Time(TimeUnit::Second) => push_char(&mut s, 's'),
            Unit::Time(TimeUnit::Minute) => push_char(&mut s, 'm'),
        }
        s
    }
}

/// A unary operator tag.
#[derive(Debug, Clone, Copy, PartialEq, Eq, Structural)]
pub enum UnaryOp {
    Minus,
    Bang,
}

/// The unary operator written by a token type, if any.
pub open spec fn unary_op_of_token_type(t: TokenType) -> Option<UnaryOp> {
    match t {
        TokenType::Minus => Option::Some(UnaryOp::Minus),
        TokenType::Bang => Option::Some(UnaryOp::Bang),
        _ => Option::None,
    }
}

impl UnaryOp {
    /// Convert a token type into a unary operator tag.
    pub fn from_token_type(t: TokenType) -> (r: Result<UnaryOp, WmdError>)
        ensures
            match unary_op_of_token_type(t) {
                Option::Some(op) => r == Ok::<UnaryOp, WmdError>(op),
                Option::None => r == Err::<UnaryOp, WmdError>(WmdError::UnexpectedTokenOp(t)),
            },
    {
        match t {
            TokenType::Minus => Ok(UnaryOp::Minus),
            TokenType::Bang => Ok(UnaryOp::Bang),
            _ => Err(WmdError::UnexpectedTokenOp(t)),
        }
    }
}

impl UnaryOp {
    /// The source symbol of this operator.
    pub open spec fn spec_symbol(self) -> Seq<char> {
        match self {
            UnaryOp::Minus => seq!['-'],
            UnaryOp::Bang => seq!['!'],
        }
    }

    /// The source symbol of this operator.
    pub fn symbol_text(self) -> (r: String)
        ensures
            r@ == self.spec_symbol(),
    {
        let mut s = String::new();
        match self {
            UnaryOp::Minus => push_char(&mut s, '-'),
            UnaryOp::Bang => push_char(&mut s, '!'),
        }
        proof {
            assert(s@ =~= self.spec_symbol());
        }
        s
    }
}

/// A binary operator tag.
#[derive(Debug, Clone, Copy, PartialEq, Eq, Structural)]
pub enum BinaryOp {
    Plus,
    Minus,
    Slash,
    Star,
    Less,
    LessEqual,
    Greater,
    GreaterEqual,
    EqualEqual,
    BangEqual,
}

/// The binary operator written by a token type, if any.
pub open spec fn binary_op_of_token_type(t: TokenType) -> Option<BinaryOp> {
    match t {
        TokenType::Plus => Option::Some(BinaryOp::Plus),
        TokenType::Minus => Option::Some(BinaryOp::Minus),
        TokenType::Slash => Option::Some(BinaryOp::Slash),
        TokenType::Star => Option::Some(BinaryOp::Star),
        TokenType::Less => Option::Some(BinaryOp::Less),
        TokenType::LessEqual => Option::Some(BinaryOp::LessEqual),
        TokenType::Greater => Option::Some(BinaryOp::Greater),
        TokenType::GreaterEqual => Option::Some(BinaryOp::GreaterEqual),
        TokenType::EqualEqual => Option::Some(BinaryOp::EqualEqual),
        TokenType::BangEqual => Option::Some(BinaryOp::BangEqual),
        _ => Option::None,
    }
}

impl BinaryOp {
    /// Convert a token type into a binary operator tag.
    pub fn from_token_type(t: TokenType) -> (r: Result<BinaryOp, WmdError>)
        ensures
            match binary_op_of_token_type(t) {
                Option::Some(op) => r == Ok::<BinaryOp, WmdError>(op),
                Option::None => r == Err::<BinaryOp, WmdError>(WmdError::UnexpectedTokenOp(t)),
            },
    {
        match t {
            TokenType::Plus => Ok(BinaryOp::Plus),
            TokenType::Minus => Ok(BinaryOp::Minus),
            TokenType::Slash => Ok(BinaryOp::Slash),
            TokenType::Star => Ok(BinaryOp::Star),
            TokenType::Less => Ok(BinaryOp::Less),
            TokenType::LessEqual => Ok(BinaryOp::LessEqual),
            TokenType::Greater => Ok(BinaryOp::Greater),
            TokenType::GreaterEqual => Ok(BinaryOp::GreaterEqual),
            TokenType::EqualEqual => Ok(BinaryOp::EqualEqual),
            TokenType::BangEqual => Ok(BinaryOp::BangEqual),
            _ => Err(WmdError::UnexpectedTokenOp(t)),
        }
    }
}

impl BinaryOp {
    /// The source symbol of this operator.
    pub open spec fn spec_symbol(self) -> Seq<char> {
        match self {
            BinaryOp::Plus => seq!['+'],
            BinaryOp::Minus => seq!['-'],
            BinaryOp::Slash => seq!['/'],
            BinaryOp::Star => seq!['*'],
            BinaryOp::Less => seq!['<'],
            BinaryOp::LessEqual => seq!['<', '='],
            BinaryOp::Greater => seq!['>'],
            BinaryOp::GreaterEqual => seq!['>', '='],
            BinaryOp::EqualEqual => seq!['=', '='],
            BinaryOp::BangEqual => seq!['!', '='],
        }
    }

    /// The source symbol of this operator.
    pub fn symbol_text(self) -> (r: String)
        ensures
            r@ == self.spec_symbol(),
    {
        let mut s = String::new();
        match self {
            BinaryOp::Plus => push_char(&mut s, '+'),
            BinaryOp::Minus => push_char(&mut s, '-'),
            BinaryOp::Slash => push_char(&mut s, '/'),
            BinaryOp::Star => push_char(&mut s, '*'),
            BinaryOp::Less => push_char(&mut s, '<'),
            BinaryOp::LessEqual => {
                push_char(&mut s, '<');
                push_char(&mut s, '=');
            },
            BinaryOp::Greater => push_char(&mut s, '>'),
            BinaryOp::GreaterEqual => {
                push_char(&mut s, '>');
                push_char(&mut s, '=');
            },
            BinaryOp::EqualEqual => {
                push_char(&mut s, '=');
                push_char(&mut s, '=');
            },
            BinaryOp::BangEqual => {
                push_char(&mut s, '!');
                push_char(&mut s, '=');
            },
        }
        proof {
            assert(s@ =~= self.spec_symbol());
        }
        s
    }
}

/// A logical operator tag.
#[derive(Debug, Clone, Copy, PartialEq, Eq, Structural)]
pub enum LogicalOp {
    And,
    Or,
}

/// The logical operator written by a token type, if any.
pub open spec fn logical_op_of_token_type(t: TokenType) -> Option<LogicalOp> {
    match t {
        TokenType::And => Option::Some(LogicalOp::And),
        TokenType::Or => Option::Some(LogicalOp::Or),
        _ => Option::None,
    }
}

impl LogicalOp {
    /// Convert a token type into a logical operator tag.
    pub fn from_token_type(t: TokenType) -> (r: Result<LogicalOp, WmdError>)
        ensures
            match logical_op_of_token_type(t) {
                Option::Some(op) => r == Ok::<LogicalOp, WmdError>(op),
                Option::None => r == Err::<LogicalOp, WmdError>(WmdError::UnexpectedTokenOp(t)),
            },
    {
        match t {
            TokenType::And => Ok(LogicalOp::And),
            TokenType::Or => Ok(LogicalOp::Or),
            _ => Err(WmdError::UnexpectedTokenOp(t)),
        }
    }
}

impl LogicalOp {
    /// The source word of this operator.
    pub open spec fn spec_symbol(self) -> Seq<char> {
        match self {
            LogicalOp::And => seq!['a', 'n', 'd'],
            LogicalOp::Or => seq!['o', 'r'],
        }
    }

    /// The source word of this operator.
    pub fn symbol_text(self) -> (r: String)
        ensures
            r@ == self.spec_symbol(),
    {
        let mut s = String::new();
        match self {
            LogicalOp::And => {
                push_char(&mut s, 'a');
                push_char(&mut s, 'n');
                push_char(&mut s, 'd');
            },
            LogicalOp::Or => {
                push_char(&mut s, 'o');
                push_char(&mut s, 'r');
            },
        }
        proof {
            assert(s@ =~= self.spec_symbol());
        }
        s
    }
}

/// An operator tag paired with the source line it was parsed at, so that
/// runtime errors can cite a location.
#[derive(Debug, Clone, Copy, PartialEq, Eq)]
pub struct OpToken<T> {
    pub typ: T,
    pub line: usize,
}

/// A runtime value, which is also the literal leaf of the expression tree.
#[derive(Debug, Clone, PartialEq)]
pub enum Literal {
    Nil,
    Bool(bool),
    Number(Decimal),
    Quantity(Quantity),
    String(String),
}

/// The mathematical model of a runtime value.
pub enum LiteralModel {
    Nil,
    Bool(bool),
    Number(Decimal),
    Quantity(Quantity),
    Str(Seq<char>),
}

impl View for Literal {
    type V = LiteralModel;

    open spec fn view(&self) -> LiteralModel {
        match self {
            Literal::Nil => LiteralModel::Nil,
            Literal::Bool(b) => LiteralModel::Bool(*b),
            Literal::Number(d) => LiteralModel::Number(*d),
            Literal::Quantity(q) => LiteralModel::Quantity(*q),
            Literal::String(s) => LiteralModel::Str(s@),
        }
    }
}

impl LiteralModel {
    /// Truthiness: nil and false are falsy; every other value, zero and the
    /// empty string included, is truthy.
    pub open spec fn spec_truthy(self) -> bool {
        match self {
            LiteralModel::Nil => false,
            LiteralModel::Bool(b) => b,
            _ => true,
        }
    }

    /// The number a value carries, for arithmetic: only the number variant
    /// counts; a quantity is not a number.
    pub open spec fn spec_as_number(self) -> Option<Decimal> {
        match self {
            LiteralModel::Number(d) => Option::Some(d),
            _ => Option::None,
        }
    }

    /// Every decimal inside the value is canonical.
    pub open spec fn wf(self) -> bool {
        match self {
            LiteralModel::Number(d) => d.wf(),
            LiteralModel::Quantity(q) => q.wf(),
            _ => true,
        }
    }
}

/// The display text of a runtime value.
pub open spec fn lit_text(l: LiteralModel) -> Seq<char> {
    match l {
        LiteralModel::Nil => seq!['n', 'i', 'l'],
        LiteralModel::Bool(b) => if b {
            seq!['t', 'r', 'u', 'e']
        } else {
            seq!['f', 'a', 'l', 's', 'e']
        },
        LiteralModel::Number(d) => dec_text(d),
        LiteralModel::Quantity(q) => q.spec_text(),
        LiteralModel::Str(s) => seq!['"'] + s + seq!['"'],
    }
}

/// How a value prints inside a string concatenation: a string contributes its
/// bare characters, every other value its display text.
pub open spec fn concat_text(l: LiteralModel) -> Seq<char> {
    match l {
        LiteralModel::Str(s) => s,
        _ => lit_text(l),
    }
}

impl Literal {
    /// The number this value carries, if it is a number; a quantity is not a
    /// number for arithmetic purposes.
    pub fn as_number(&self) -> (r: Option<Decimal>)
        ensures
            r == self@.spec_as_number(),
    {
        if let Literal::Number(n) = self {
            Some(*n)
        } else {
            None
        }
    }

    /// Truthiness of this value.
    pub fn is_truthy(&self) -> (r: bool)
        ensures
            r == self@.spec_truthy(),
    {
        match self {
            Literal::Nil => false,
            Literal::Bool(b) => *b,
            _ => true,
        }
    }

    /// An owned copy of this value.
    pub fn dup(&self) -> (r: Literal)
        ensures
            r@ == self@,
    {
        match self {
            Literal::Nil => Literal::Nil,
            Literal::Bool(b) => Literal::Bool(*b),
            Literal::Number(d) => Literal::Number(*d),
            Literal::Quantity(q) => Literal::Quantity(*q),
            Literal::String(s) => Literal::String(s.clone()),
        }
    }

    /// The display text of this value.
    pub fn to_text(&self) -> (r: String)
        ensures
            r@ == lit_text(self@),
    {
        match self {
            Literal::Nil => {
                let mut s = String::new();
                push_char(&mut s, 'n');
                push_char(&mut s, 'i');
                push_char(&mut s, 'l');
                proof {
                    assert(s@ =~= lit_text(self@));
                }
                s
            },
            Literal::Bool(b) => {
                let mut s = String::new();
                if *b {
                    push_char(&mut s, 't');
                    push_char(&mut s, 'r');
                    push_char(&mut s, 'u');
                    push_char(&mut s, 'e');
                } else {
                    push_char(&mut s, 'f');
                    push_char(&mut s, 'a');
                    push_char(&mut s, 'l');
                    push_char(&mut s, 's');
                    push_char(&mut s, 'e');
                }
                proof {
                    assert(s@ =~= lit_text(self@));
                }
                s
            },
            Literal::Number(d) => d.to_text(),
            Literal::Quantity(q) => q.to_text(),
            Literal::String(inner) => {
                let mut s = String::new();
                push_char(&mut s, '"');
                s.append(inner.as_str());
                push_char(&mut s, '"');
                proof {
                    assert(s@ =~= lit_text(self@));
                }
                s
            },
        }
    }

    /// How this value prints inside a string concatenation.
    pub fn to_concat_text(&self) -> (r: String)
        ensures
            r@ == concat_text(self@),
    {
        match self {
            Literal::String(inner) => inner.clone(),
            _ => self.to_text(),
        }
    }

    /// Turn a token's literal payload into a runtime value.
    pub fn from_token_literal(lit: TokenLiteral) -> (r: Literal)
        ensures
            r@ == (match lit@ {
                TokenLiteralModel::Str(s) => LiteralModel::Str(s),
                TokenLiteralModel::Number(d) => LiteralModel::Number(d),
                TokenLiteralModel::Quantity(q) => LiteralModel::Quantity(q),
            }),
    {
        match lit {
            TokenLiteral::String(s) => Literal::String(s),
            TokenLiteral::Number(n) => Literal::Number(n),
            TokenLiteral::Quantity(q) => Literal::Quantity(q),
        }
    }
}

/// A node of the expression tree. The tree owns its subtrees exclusively.
#[derive(Debug, PartialEq)]
pub enum Expr {
    Binary(Box<Expr>, OpToken<BinaryOp>, Box<Expr>),
    Unary(OpToken<UnaryOp>, Box<Expr>),
    Logical(Box<Expr>, OpToken<LogicalOp>, Box<Expr>),
    Grouping(Box<Expr>),
    List(Vec<Expr>),
    Var(String),
    Literal(Literal),
}

/// The mathematical model of an expression tree.
pub enum ExprModel {
    Binary(Box<ExprModel>, OpToken<BinaryOp>, Box<ExprModel>),
    Unary(OpToken<UnaryOp>, Box<ExprModel>),
    Logical(Box<ExprModel>, OpToken<LogicalOp>, Box<ExprModel>),
    Grouping(Box<ExprModel>),
    List(Seq<ExprModel>),
    Var(Seq<char>),
    Literal(LiteralModel),
}

impl Expr {
    /// The model of this expression tree.
    pub open spec fn model(self) -> ExprModel
        decreases self,
    {
        match self {
            Expr::Binary(l, op, r) => ExprModel::Binary(
                Box::new(l.model()),
                op,
                Box::new(r.model()),
            ),
            Expr::Unary(op, e) => ExprModel::Unary(op, Box::new(e.model())),
            Expr::Logical(l, op, r) => ExprModel::Logical(
                Box::new(l.model()),
                op,
                Box::new(r.model()),
            ),
            Expr::Grouping(e) => ExprModel::Grouping(Box::new(e.model())),
            Expr::List(es) => ExprModel::List(exprs_model(es@)),
            Expr::Var(name) => ExprModel::Var(name@),
            Expr::Literal(l) => ExprModel::Literal(l@),
        }
    }
}

/// The models of a sequence of expression trees, in order.
pub open spec fn exprs_model(es: Seq<Expr>) -> Seq<ExprModel>
    decreases es,
{
    if es.len() == 0 {
        Seq::empty()
    } else {
        seq![es[0].model()] + exprs_model(es.drop_first())
    }
}

/// Modelling a sequence of trees commutes with appending one on the right.
pub proof fn lemma_exprs_model_push(es: Seq<Expr>, e: Expr)
    ensures
        exprs_model(es.push(e)) == exprs_model(es).push(e.model()),
    decreases es.len(),
{
    if es.len() == 0 {
        assert(es.push(e).drop_first() =~= Seq::<Expr>::empty());
        assert(es.push(e)[0] == e);
        assert(exprs_model(Seq::<Expr>::empty()) =~= Seq::<ExprModel>::empty());
        assert(exprs_model(es.push(e)) == seq![e.model()] + exprs_model(es.push(e).drop_first()));
        assert(exprs_model(es.push(e)) =~= seq![e.model()]);
        assert(exprs_model(es) =~= Seq::<ExprModel>::empty());
        assert(exprs_model(es).push(e.model()) =~= seq![e.model()]);
    } else {
        lemma_exprs_model_push(es.drop_first(), e);
        assert(es.push(e).drop_first() =~= es.drop_first().push(e));
        assert(es.push(e)[0] == es[0]);
        assert(exprs_model(es.push(e)) == seq![es[0].model()] + exprs_model(
            es.drop_first().push(e),
        ));
        assert(seq![es[0].model()] + exprs_model(es.drop_first()).push(e.model()) =~= (seq![
            es[0].model(),
        ] + exprs_model(es.drop_first())).push(e.model()));
    }
}

/// A statement: a bare expression, a variable declaration, or the inert
/// placeholder (`Skipped`) the parser leaves behind after recovering from an
/// error.
#[derive(Debug, PartialEq)]
pub enum Stmt {
    Expr(Expr),
    Let(String, Expr),
    Skipped,
}

/// The mathematical model of a statement.
pub enum StmtModel {
    Expr(ExprModel),
    Let(Seq<char>, ExprModel),
    Skipped,
}

impl Stmt {
    /// The model of this statement.
    pub open spec fn model(self) -> StmtModel {
        match self {
            Stmt::Expr(e) => StmtModel::Expr(e.model()),
            Stmt::Let(name, e) => StmtModel::Let(name@, e.model()),
            Stmt::Skipped => StmtModel::Skipped,
        }
    }
}

/// The models of a sequence of statements, in order.
pub open spec fn stmts_model(ss: Seq<Stmt>) -> Seq<StmtModel> {
    ss.map_values(|s: Stmt| s.model())
}

} // verus!
