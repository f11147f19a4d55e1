//! The parser: recursive descent with precedence climbing over the token
//! sequence, building statements, with panic-mode error recovery.

use vstd::prelude::*;
use crate::ast::{
    binary_op_of_token_type, exprs_model, logical_op_of_token_type, stmts_model, BinaryOp, Expr,
    ExprModel, Literal, LiteralModel, LogicalOp, OpToken, Stmt, StmtModel, UnaryOp,
};
use crate::lexer::{payload_wf, toks_wf, Token, TokenLiteralModel, TokenModel, TokenType};
use crate::reporting::ErrorReporter;
use crate::WmdError;

verus! {

/// Panic-mode recovery, after the first token past the failure point has been
/// consumed: discard tokens until just past a semicolon, or in front of a
/// token that can begin a new statement, or at the end of the input.
pub open spec fn spec_sync_loop(toks: Seq<TokenModel>, i: int) -> int
    decreases toks.len() - i,
    when 1 <= i < toks.len() && toks_wf(toks)
{
    if toks[i].typ == TokenType::Eof {
        i
    } else if toks[i - 1].typ == TokenType::SemiColon {
        i
    } else if toks[i].typ == TokenType::Fn || toks[i].typ == TokenType::For || toks[i].typ
        == TokenType::If || toks[i].typ == TokenType::While {
        i
    } else {
        spec_sync_loop(toks, i + 1)
    }
}

/// Panic-mode recovery from a failure at position `i`: advance one token,
/// then discard to a statement boundary.
pub open spec fn spec_sync(toks: Seq<TokenModel>, i: int) -> int {
    if toks[i].typ == TokenType::Eof {
        i
    } else {
        spec_sync_loop(toks, i + 1)
    }
}

/// Where synchronization stops: inside the input, never before its start.
pub proof fn lemma_sync_loop_bounds(toks: Seq<TokenModel>, i: int)
    requires
        toks_wf(toks),
        1 <= i < toks.len(),
    ensures
        i <= spec_sync_loop(toks, i) < toks.len(),
    decreases toks.len() - i,
{
    if !(toks[i].typ == TokenType::Eof || toks[i - 1].typ == TokenType::SemiColon || toks[i].typ
        == TokenType::Fn || toks[i].typ == TokenType::For || toks[i].typ == TokenType::If
        || toks[i].typ == TokenType::While) {
        lemma_sync_loop_bounds(toks, i + 1);
    }
}

/// Where recovery stops: inside the input, never before the failure point.
pub proof fn lemma_sync_bounds(toks: Seq<TokenModel>, i: int)
    requires
        toks_wf(toks),
        0 <= i < toks.len(),
    ensures
        i <= spec_sync(toks, i) < toks.len(),
        toks[i].typ != TokenType::Eof ==> i < spec_sync(toks, i),
{
    if toks[i].typ != TokenType::Eof {
        lemma_sync_loop_bounds(toks, i + 1);
    }
}

/// Whether a token type is an operator of the given precedence level, from
/// the loosest-binding level (logical or) down to the tightest (factor).
pub open spec fn level_op(level: int, t: TokenType) -> bool {
    if level == 0 {
        t == TokenType::Or
    } else if level == 1 {
        t == TokenType::And
    } else if level == 2 {
        t == TokenType::BangEqual || t == TokenType::EqualEqual
    } else if level == 3 {
        t == TokenType::Greater || t == TokenType::GreaterEqual || t == TokenType::Less || t
            == TokenType::LessEqual
    } else if level == 4 {
        t == TokenType::Minus || t == TokenType::Plus
    } else {
        t == TokenType::Slash || t == TokenType::Star
    }
}

/// The tree node a precedence level builds: the two loosest levels build
/// short-circuiting logical nodes, the rest binary nodes.
pub open spec fn level_node(
    level: int,
    lhs: ExprModel,
    t: TokenType,
    line: nat,
    rhs: ExprModel,
) -> ExprModel {
    if level <= 1 {
        ExprModel::Logical(
            Box::new(lhs),
            OpToken { typ: logical_op_of_token_type(t)->0, line: line as usize },
            Box::new(rhs),
        )
    } else {
        ExprModel::Binary(
            Box::new(lhs),
            OpToken { typ: binary_op_of_token_type(t)->0, line: line as usize },
            Box::new(rhs),
        )
    }
}

/// The literal value a literal token carries.
pub open spec fn token_literal_value(t: TokenModel) -> LiteralModel {
    match t.literal {
        Option::Some(TokenLiteralModel::Str(s)) => LiteralModel::Str(s),
        Option::Some(TokenLiteralModel::Number(d)) => LiteralModel::Number(d),
        Option::Some(TokenLiteralModel::Quantity(q)) => LiteralModel::Quantity(q),
        Option::None => LiteralModel::Nil,
    }
}

/// Parse an expression at position `i`: the whole precedence hierarchy from
/// logical or down. Yields the tree (or nothing, after a reported error) and
/// the position the parse left off at.
pub open spec fn spec_expression(toks: Seq<TokenModel>, i: int) -> (Option<ExprModel>, int)
    decreases toks.len() - i, 70int,
    when toks_wf(toks) && 0 <= i < toks.len()
{
    spec_binary_level(toks, i, 0)
}

/// Parse one precedence level: a run of left-associative applications of the
/// level's operators to operands of the next tighter level.
pub open spec fn spec_binary_level(toks: Seq<TokenModel>, i: int, level: int) -> (
    Option<ExprModel>,
    int,
)
    decreases toks.len() - i, 60int - 2int * level,
    when toks_wf(toks) && 0 <= i < toks.len() && 0 <= level <= 5
{
    let (r, j) = if level == 5 {
        spec_unary(toks, i)
    } else {
        spec_binary_level(toks, i, level + 1)
    };
    match r {
        Option::None => (Option::None, j),
        Option::Some(e) => if i <= j < toks.len() {
            spec_binary_loop(toks, j, level, e)
        } else {
            (Option::None, j)
        },
    }
}

/// The left-associative fold of one precedence level, with `acc` already
/// parsed on the left.
pub open spec fn spec_binary_loop(toks: Seq<TokenModel>, j: int, level: int, acc: ExprModel) -> (
    Option<ExprModel>,
    int,
)
    decreases toks.len() - j, 59int - 2int * level,
    when toks_wf(toks) && 0 <= j < toks.len() && 0 <= level <= 5
{
    if level_op(level, toks[j].typ) {
        let (r2, j2) = if level == 5 {
            spec_unary(toks, j + 1)
        } else {
            spec_binary_level(toks, j + 1, level + 1)
        };
        match r2 {
            Option::None => (Option::None, j2),
            Option::Some(rhs) => {
                let node = level_node(level, acc, toks[j].typ, toks[j].line, rhs);
                if j < j2 < toks.len() {
                    spec_binary_loop(toks, j2, level, node)
                } else {
                    (Option::None, j2)
                }
            },
        }
    } else {
        (Option::Some(acc), j)
    }
}

/// Parse a unary expression: a run of prefix operators in front of a primary
/// expression.
pub open spec fn spec_unary(toks: Seq<TokenModel>, i: int) -> (Option<ExprModel>, int)
    decreases toks.len() - i, 40int,
    when toks_wf(toks) && 0 <= i < toks.len()
{
    if toks[i].typ == TokenType::Bang || toks[i].typ == TokenType::Minus {
        let op = OpToken {
            typ: crate::ast::unary_op_of_token_type(toks[i].typ)->0,
            line: toks[i].line as usize,
        };
        let (r, j) = if i + 1 < toks.len() {
            spec_unary(toks, i + 1)
        } else {
            (Option::None, i + 1)
        };
        match r {
            Option::None => (Option::None, j),
            Option::Some(e) => (Option::Some(ExprModel::Unary(op, Box::new(e))), j),
        }
    } else {
        spec_primary(toks, i)
    }
}

/// Parse a primary expression: a literal, an identifier, a list, or a
/// parenthesized expression. Anything else is the "expect expression" error,
/// which consumes nothing.
pub open spec fn spec_primary(toks: Seq<TokenModel>, i: int) -> (Option<ExprModel>, int)
    decreases toks.len() - i, 30int,
    when toks_wf(toks) && 0 <= i < toks.len()
{
    let t = toks[i].typ;
    if t == TokenType::False {
        (Option::Some(ExprModel::Literal(LiteralModel::Bool(false))), i + 1)
    } else if t == TokenType::True {
        (Option::Some(ExprModel::Literal(LiteralModel::Bool(true))), i + 1)
    } else if t == TokenType::Nil {
        (Option::Some(ExprModel::Literal(LiteralModel::Nil)), i + 1)
    } else if t == TokenType::Number || t == TokenType::Quantity || t == TokenType::String {
        (Option::Some(ExprModel::Literal(token_literal_value(toks[i]))), i + 1)
    } else if t == TokenType::Identifier {
        (Option::Some(ExprModel::Var(toks[i].lexeme)), i + 1)
    } else if t == TokenType::LBracket {
        if i + 1 < toks.len() {
            let (r, j) = spec_list_elements(toks, i + 1, Seq::empty());
            match r {
                Option::None => (Option::None, j),
                Option::Some(elems) => if 0 <= j < toks.len() && toks[j].typ
                    == TokenType::RBracket {
                    (Option::Some(ExprModel::List(elems)), j + 1)
                } else {
                    (Option::None, j)
                },
            }
        } else {
            (Option::None, i + 1)
        }
    } else if t == TokenType::LParen {
        if i + 1 < toks.len() {
            let (r, j) = spec_expression(toks, i + 1);
            match r {
                Option::None => (Option::None, j),
                Option::Some(e) => if 0 <= j < toks.len() && toks[j].typ == TokenType::RParen {
                    (Option::Some(ExprModel::Grouping(Box::new(e))), j + 1)
                } else {
                    (Option::None, j)
                },
            }
        } else {
            (Option::None, i + 1)
        }
    } else {
        (Option::None, i)
    }
}

/// Parse the comma-separated elements of a list literal, a trailing comma
/// permitted; stops in front of the closing bracket or the end of the input,
/// which the caller then checks.
pub open spec fn spec_list_elements(toks: Seq<TokenModel>, j: int, acc: Seq<ExprModel>) -> (
    Option<Seq<ExprModel>>,
    int,
)
    decreases toks.len() - j, 75int,
    when toks_wf(toks) && 0 <= j < toks.len()
{
    if toks[j].typ == TokenType::RBracket || toks[j].typ == TokenType::Eof {
        (Option::Some(acc), j)
    } else {
        let (r, j2) = spec_expression(toks, j);
        match r {
            Option::None => (Option::None, j2),
            Option::Some(e) => if 0 <= j2 < toks.len() && toks[j2].typ == TokenType::RBracket {
                (Option::Some(acc.push(e)), j2)
            } else if 0 <= j2 < toks.len() && toks[j2].typ == TokenType::Comma {
                if j < j2 + 1 < toks.len() {
                    spec_list_elements(toks, j2 + 1, acc.push(e))
                } else {
                    (Option::None, j2 + 1)
                }
            } else {
                (Option::None, j2)
            },
        }
    }
}

/// Parse an expression statement: an expression closed by a semicolon.
pub open spec fn spec_statement(toks: Seq<TokenModel>, i: int) -> (Option<StmtModel>, int)
    decreases toks.len() - i, 76int,
    when toks_wf(toks) && 0 <= i < toks.len()
{
    let (r, j) = spec_expression(toks, i);
    match r {
        Option::None => (Option::None, j),
        Option::Some(e) => if 0 <= j < toks.len() && toks[j].typ == TokenType::SemiColon {
            (Option::Some(StmtModel::Expr(e)), j + 1)
        } else {
            (Option::None, j)
        },
    }
}

/// Parse the remainder of a variable declaration, the `let` keyword already
/// consumed: a name, an optional initializer (nil when absent), a semicolon.
pub open spec fn spec_let_declaration(toks: Seq<TokenModel>, i: int) -> (Option<StmtModel>, int)
    decreases toks.len() - i, 78int,
    when toks_wf(toks) && 0 <= i < toks.len()
{
    if toks[i].typ == TokenType::Identifier {
        let name = toks[i].lexeme;
        if i + 1 < toks.len() && toks[i + 1].typ == TokenType::Equal {
            if i + 2 < toks.len() {
                let (r, j) = spec_expression(toks, i + 2);
                match r {
                    Option::None => (Option::None, j),
                    Option::Some(e) => if 0 <= j < toks.len() && toks[j].typ
                        == TokenType::SemiColon {
                        (Option::Some(StmtModel::Let(name, e)), j + 1)
                    } else {
                        (Option::None, j)
                    },
                }
            } else {
                (Option::None, i + 2)
            }
        } else {
            if i + 1 < toks.len() && toks[i + 1].typ == TokenType::SemiColon {
                (
                    Option::Some(StmtModel::Let(name, ExprModel::Literal(LiteralModel::Nil))),
                    i + 2,
                )
            } else {
                (Option::None, i + 1)
            }
        }
    } else {
        (Option::None, i)
    }
}

/// Parse one declaration. A failed declaration is reported, recovered from by
/// synchronization, and stands as the inert placeholder statement: parsing
/// never aborts.
pub open spec fn spec_declaration(toks: Seq<TokenModel>, i: int) -> (StmtModel, int)
    decreases toks.len() - i, 80int,
    when toks_wf(toks) && 0 <= i < toks.len()
{
    if toks[i].typ == TokenType::Let {
        if i + 1 < toks.len() {
            let (r, j) = spec_let_declaration(toks, i + 1);
            match r {
                Option::Some(s) => (s, j),
                Option::None => if 0 <= j < toks.len() {
                    (StmtModel::Skipped, spec_sync(toks, j))
                } else {
                    (StmtModel::Skipped, j)
                },
            }
        } else {
            (StmtModel::Skipped, i + 1)
        }
    } else {
        let (r, j) = spec_statement(toks, i);
        match r {
            Option::Some(s) => (s, j),
            Option::None => if 0 <= j < toks.len() {
                (StmtModel::Skipped, spec_sync(toks, j))
            } else {
                (StmtModel::Skipped, j)
            },
        }
    }
}

/// The parser: one forward pass over the token sequence.
pub struct Parser<R> {
    tokens: Vec<Token>,
    current: usize,
    reporter: R,
}

impl<R: ErrorReporter> Parser<R> {
    /// The models of the tokens this parser reads.
    pub closed spec fn toks(self) -> Seq<TokenModel> {
        self.tokens.deep_view()
    }

    /// The cursor: the position of the next token to consider.
    pub closed spec fn pos(self) -> int {
        self.current as int
    }

    /// The cursor stands on a token of a well-formed sequence.
    pub closed spec fn wf(self) -> bool {
        &&& toks_wf(self.toks())
        &&& 0 <= self.pos() < self.toks().len()
    }

    /// The reporter this parser hands diagnostics to.
    pub closed spec fn spec_reporter(self) -> R {
        self.reporter
    }

    /// Read access to the reporter, for callers that collect diagnostics.
    pub fn reporter(&self) -> (r: &R)
        ensures
            *r == self.spec_reporter(),
    {
        &self.reporter
    }

    /// Ready a parser over a token sequence.
    pub fn new(tokens: Vec<Token>, reporter: R) -> (r: Parser<R>)
        requires
            toks_wf(tokens.deep_view()),
        ensures
            r.wf(),
            r.toks() == tokens.deep_view(),
            r.pos() == 0,
    {
        Parser { tokens, current: 0, reporter }
    }

    /// Parse the whole input into statements, one declaration after another.
    /// A malformed declaration is reported, recovered from, and stands as the
    /// placeholder statement, so the parse always runs to the end.
    pub fn parse(&mut self) -> (r: Result<Vec<Stmt>, WmdError>)
        requires
            old(self).wf(),
        ensures
            final(self).toks() == old(self).toks(),
            r is Ok,
            stmts_model(r->Ok_0@) == spec_program(old(self).toks(), old(self).pos()),
    {
        let ghost toks = self.toks();
        let ghost i0 = self.pos();
        let mut stmts: Vec<Stmt> = Vec::new();
        proof {
            assert(stmts_model(stmts@) + spec_program(toks, i0) =~= spec_program(toks, i0));
        }
        while !self.is_at_end()
            invariant
                self.wf(),
                self.toks() == toks,
                toks == old(self).toks(),
                i0 == old(self).pos(),
                i0 <= self.pos(),
                stmts_model(stmts@) + spec_program(toks, self.pos()) =~= spec_program(toks, i0),
            decreases toks.len() - self.pos(),
        {
            let ghost pre = self.pos();
            let ghost pre_models = stmts_model(stmts@);
            let s = match self.declaration() {
                Ok(s) => s,
                Err(_) => vstd::pervasive::unreached(),
            };
            stmts.push(s);
            proof {
                let (sm, j) = spec_declaration(toks, pre);
                assert(stmts_model(stmts@) =~= pre_models.push(sm));
                assert(spec_program(toks, pre) == seq![sm] + spec_program(toks, j));
                assert(pre_models.push(sm) + spec_program(toks, j) =~= pre_models + (seq![sm]
                    + spec_program(toks, j)));
            }
        }
        proof {
            assert(spec_program(toks, self.pos()) =~= Seq::<StmtModel>::empty());
            assert(stmts_model(stmts@) + Seq::<StmtModel>::empty() =~= stmts_model(stmts@));
        }
        Ok(stmts)
    }

    /// Parse one declaration: a `let` declaration or a statement, recovering
    /// from a failure of either by synchronizing and yielding the placeholder.
    fn declaration(&mut self) -> (r: Result<Stmt, WmdError>)
        requires
            old(self).wf(),
            old(self).toks()[old(self).pos()].typ != TokenType::Eof,
        ensures
            final(self).toks() == old(self).toks(),
            final(self).wf(),
            r is Ok,
            ({
                let (sm, j) = spec_declaration(old(self).toks(), old(self).pos());
                &&& r->Ok_0.model() == sm
                &&& final(self).pos() == j
            }),
            old(self).pos() < final(self).pos(),
        decreases old(self).toks().len() - old(self).pos(), 80int,
    {
        let ghost toks = self.toks();
        let ghost i = self.pos();
        let result = if self.match_type(TokenType::Let) {
            self.let_declaration()
        } else {
            self.statement()
        };
        match result {
            Ok(s) => Ok(s),
            Err(_) => {
                proof {
                    lemma_sync_bounds(toks, self.pos());
                }
                self.synchronize();
                Ok(Stmt::Skipped)
            },
        }
    }

    /// Parse the remainder of a `let` declaration, the keyword already
    /// consumed: name, optional initializer (nil when absent), semicolon.
    fn let_declaration(&mut self) -> (r: Result<Stmt, WmdError>)
        requires
            old(self).wf(),
        ensures
            final(self).toks() == old(self).toks(),
            final(self).wf(),
            old(self).pos() <= final(self).pos(),
            ({
                let (rm, j) = spec_let_declaration(old(self).toks(), old(self).pos());
                &&& final(self).pos() == j
                &&& match r {
                    Ok(s) => rm == Option::Some(s.model()) && old(self).pos() < final(self).pos(),
                    Err(e) => rm is None && e == WmdError::ParseError,
                }
            }),
        decreases old(self).toks().len() - old(self).pos(), 78int,
    {
        let ghost toks = self.toks();
        let ghost i = self.pos();
        if !self.check(TokenType::Identifier) {
            return Err(self.error_at_current("Expect variable name."));
        }
        let name = {
            let t = &self.tokens[self.current];
            t.lexeme.clone()
        };
        self.advance_pos();
        let mut initializer = Expr::Literal(Literal::Nil);
        if self.match_type(TokenType::Equal) {
            match self.expression() {
                Ok(e) => {
                    initializer = e;
                },
                Err(e) => {
                    return Err(e);
                },
            }
        }
        match self.consume(TokenType::SemiColon, "Expect ';' after let declaration.") {
            Ok(_) => Ok(Stmt::Let(name, initializer)),
            Err(e) => Err(e),
        }
    }

    /// Parse a statement; the only statement form is the expression statement.
    fn statement(&mut self) -> (r: Result<Stmt, WmdError>)
        requires
            old(self).wf(),
        ensures
            final(self).toks() == old(self).toks(),
            final(self).wf(),
            old(self).pos() <= final(self).pos(),
            ({
                let (rm, j) = spec_statement(old(self).toks(), old(self).pos());
                &&& final(self).pos() == j
                &&& match r {
                    Ok(s) => rm == Option::Some(s.model()) && old(self).pos() < final(self).pos(),
                    Err(e) => rm is None && e == WmdError::ParseError,
                }
            }),
        decreases old(self).toks().len() - old(self).pos(), 76int,
    {
        self.expression_statement()
    }

    /// Parse an expression closed by a semicolon.
    fn expression_statement(&mut self) -> (r: Result<Stmt, WmdError>)
        requires
            old(self).wf(),
        ensures
            final(self).toks() == old(self).toks(),
            final(self).wf(),
            old(self).pos() <= final(self).pos(),
            ({
                let (rm, j) = spec_statement(old(self).toks(), old(self).pos());
                &&& final(self).pos() == j
                &&& match r {
                    Ok(s) => rm == Option::Some(s.model()) && old(self).pos() < final(self).pos(),
                    Err(e) => rm is None && e == WmdError::ParseError,
                }
            }),
        decreases old(self).toks().len() - old(self).pos(), 74int,
    {
        let expr = match self.expression() {
            Ok(e) => e,
            Err(e) => {
                return Err(e);
            },
        };
        match self.consume(TokenType::SemiColon, "Expect ';' after expression.") {
            Ok(_) => Ok(Stmt::Expr(expr)),
            Err(e) => Err(e),
        }
    }

    /// Parse an expression: the whole precedence hierarchy.
    fn expression(&mut self) -> (r: Result<Expr, WmdError>)
        requires
            old(self).wf(),
        ensures
            final(self).toks() == old(self).toks(),
            final(self).wf(),
            old(self).pos() <= final(self).pos(),
            ({
                let (rm, j) = spec_expression(old(self).toks(), old(self).pos());
                &&& final(self).pos() == j
                &&& match r {
                    Ok(e) => rm == Option::Some(e.model()) && old(self).pos() < final(self).pos(),
                    Err(e) => rm is None && e == WmdError::ParseError,
                }
            }),
        decreases old(self).toks().len() - old(self).pos(), 70int,
    {
        self.binary_level(0)
    }

    /// Parse one precedence level: left-associative folding of the level's
    /// operators over operands of the next tighter level.
    fn binary_level(&mut self, level: u8) -> (r: Result<Expr, WmdError>)
        requires
            old(self).wf(),
            level <= 5,
        ensures
            final(self).toks() == old(self).toks(),
            final(self).wf(),
            old(self).pos() <= final(self).pos(),
            ({
                let (rm, j) = spec_binary_level(old(self).toks(), old(self).pos(), level as int);
                &&& final(self).pos() == j
                &&& match r {
                    Ok(e) => rm == Option::Some(e.model()) && old(self).pos() < final(self).pos(),
                    Err(e) => rm is None && e == WmdError::ParseError,
                }
            }),
        decreases old(self).toks().len() - old(self).pos(), 60int - 2int * level,
    {
        let ghost toks = self.toks();
        let ghost i = self.pos();
        let first = if level == 5 {
            self.unary()
        } else {
            self.binary_level(level + 1)
        };
        let mut expr = match first {
            Ok(e) => e,
            Err(e) => {
                return Err(e);
            },
        };
        let ghost acc0 = expr.model();
        let ghost j_entry = self.pos();
        proof {
            if level == 5 {
                assert(spec_unary(toks, i) == (Option::Some(acc0), j_entry));
            } else {
                assert(spec_binary_level(toks, i, level as int + 1) == (
                    Option::Some(acc0),
                    j_entry,
                ));
            }
        }
        while is_level_op(level, self.peek_type())
            invariant
                self.wf(),
                self.toks() == toks,
                toks == old(self).toks(),
                i == old(self).pos(),
                level <= 5,
                0 <= i < toks.len(),
                i < j_entry < toks.len(),
                j_entry <= self.pos(),
                (if level == 5 {
                    spec_unary(toks, i) == (Option::Some(acc0), j_entry)
                } else {
                    spec_binary_level(toks, i, level as int + 1) == (Option::Some(acc0), j_entry)
                }),
                spec_binary_loop(toks, self.pos(), level as int, expr.model())
                    == spec_binary_loop(toks, j_entry, level as int, acc0),
            decreases toks.len() - self.pos(),
        {
            let ghost j_op = self.pos();
            let t = self.peek_type();
            let line = self.peek_line();
            self.advance_pos();
            let next = if level == 5 {
                self.unary()
            } else {
                self.binary_level(level + 1)
            };
            let rhs = match next {
                Ok(e) => e,
                Err(e) => {
                    proof {
                        assert(spec_binary_loop(toks, j_op, level as int, expr.model()) == (
                            Option::<ExprModel>::None,
                            self.pos(),
                        ));
                    }
                    return Err(e);
                },
            };
            expr = make_level_node(level, expr, t, line, rhs);
        }
        proof {
            assert(spec_binary_loop(toks, self.pos(), level as int, expr.model()) == (
                Option::Some(expr.model()),
                self.pos(),
            ));
        }
        Ok(expr)
    }

    /// Parse a unary expression: prefix operators in front of a primary.
    fn unary(&mut self) -> (r: Result<Expr, WmdError>)
        requires
            old(self).wf(),
        ensures
            final(self).toks() == old(self).toks(),
            final(self).wf(),
            old(self).pos() <= final(self).pos(),
            ({
                let (rm, j) = spec_unary(old(self).toks(), old(self).pos());
                &&& final(self).pos() == j
                &&& match r {
                    Ok(e) => rm == Option::Some(e.model()) && old(self).pos() < final(self).pos(),
                    Err(e) => rm is None && e == WmdError::ParseError,
                }
            }),
        decreases old(self).toks().len() - old(self).pos(), 40int,
    {
        if self.check(TokenType::Bang) || self.check(TokenType::Minus) {
            let t = self.peek_type();
            let line = self.peek_line();
            self.advance_pos();
            let op = match UnaryOp::from_token_type(t) {
                Ok(o) => o,
                Err(_) => vstd::pervasive::unreached(),
            };
            let rhs = match self.unary() {
                Ok(e) => e,
                Err(e) => {
                    return Err(e);
                },
            };
            Ok(Expr::Unary(OpToken { typ: op, line }, Box::new(rhs)))
        } else {
            self.primary()
        }
    }

    /// Parse a primary expression: a literal, an identifier, a list, or a
    /// parenthesized expression; anything else is the "expect expression"
    /// error, which consumes nothing.
    fn primary(&mut self) -> (r: Result<Expr, WmdError>)
        requires
            old(self).wf(),
        ensures
            final(self).toks() == old(self).toks(),
            final(self).wf(),
            old(self).pos() <= final(self).pos(),
            ({
                let (rm, j) = spec_primary(old(self).toks(), old(self).pos());
                &&& final(self).pos() == j
                &&& match r {
                    Ok(e) => rm == Option::Some(e.model()) && old(self).pos() < final(self).pos(),
                    Err(e) => rm is None && e == WmdError::ParseError,
                }
            }),
        decreases old(self).toks().len() - old(self).pos(), 30int,
    {
        let ghost toks = self.toks();
        let ghost i = self.pos();
        if self.match_type(TokenType::False) {
            return Ok(Expr::Literal(Literal::Bool(false)));
        }
        if self.match_type(TokenType::True) {
            return Ok(Expr::Literal(Literal::Bool(true)));
        }
        if self.match_type(TokenType::Nil) {
            return Ok(Expr::Literal(Literal::Nil));
        }
        if self.check(TokenType::Number) || self.check(TokenType::Quantity) || self.check(
            TokenType::String,
        ) {
            let lit = {
                let t = &self.tokens[self.current];
                match &t.literal {
                    Some(l) => l.dup(),
                    None => vstd::pervasive::unreached(),
                }
            };
            self.advance_pos();
            return Ok(Expr::Literal(Literal::from_token_literal(lit)));
        }
        if self.check(TokenType::Identifier) {
            let name = {
                let t = &self.tokens[self.current];
                t.lexeme.clone()
            };
            self.advance_pos();
            return Ok(Expr::Var(name));
        }
        if self.match_type(TokenType::LBracket) {
            let mut exprs: Vec<Expr> = Vec::new();
            let ghost j_entry = self.pos();
            proof {
                assert(exprs_model(exprs@) =~= Seq::<ExprModel>::empty());
            }
            while !self.check(TokenType::RBracket) && !self.is_at_end()
                invariant
                    self.wf(),
                    self.toks() == toks,
                    toks == old(self).toks(),
                    i == old(self).pos(),
                    0 <= i < toks.len(),
                    toks[i].typ == TokenType::LBracket,
                    j_entry == i + 1,
                    j_entry < toks.len(),
                    j_entry <= self.pos(),
                    spec_list_elements(toks, self.pos(), exprs_model(exprs@))
                        == spec_list_elements(toks, j_entry, Seq::empty()),
                decreases toks.len() - self.pos(),
            {
                let ghost j_elem = self.pos();
                let ghost pre_models = exprs_model(exprs@);
                let e = match self.expression() {
                    Ok(e) => e,
                    Err(e) => {
                        return Err(e);
                    },
                };
                proof {
                    crate::ast::lemma_exprs_model_push(exprs@, e);
                }
                exprs.push(e);
                if !self.check(TokenType::RBracket) {
                    match self.consume(TokenType::Comma, "Expect ',' between list elements.") {
                        Ok(_) => {},
                        Err(e) => {
                            return Err(e);
                        },
                    }
                }
            }
            match self.consume(TokenType::RBracket, "Expect ']' after list.") {
                Ok(_) => {
                    return Ok(Expr::List(exprs));
                },
                Err(e) => {
                    return Err(e);
                },
            }
        }
        if self.match_type(TokenType::LParen) {
            let e = match self.expression() {
                Ok(e) => e,
                Err(e) => {
                    return Err(e);
                },
            };
            match self.consume(TokenType::RParen, "Expect ')' after expression.") {
                Ok(_) => {
                    return Ok(Expr::Grouping(Box::new(e)));
                },
                Err(e) => {
                    return Err(e);
                },
            }
        }
        Err(self.error_at_current("Expect expression."))
    }

    /// Discard tokens until a statement boundary: panic-mode recovery.
    fn synchronize(&mut self)
        requires
            old(self).wf(),
        ensures
            final(self).toks() == old(self).toks(),
            final(self).wf(),
            final(self).pos() == spec_sync(old(self).toks(), old(self).pos()),
    {
        let ghost toks = self.toks();
        let ghost i = self.pos();
        if self.is_at_end() {
            return;
        }
        self.advance_pos();
        proof {
            lemma_sync_loop_bounds(toks, self.pos());
        }
        while !self.is_at_end()
            invariant
                self.wf(),
                self.toks() == toks,
                toks == old(self).toks(),
                i == old(self).pos(),
                0 <= i < toks.len(),
                toks[i].typ != TokenType::Eof,
                1 <= self.pos(),
                i + 1 <= self.pos(),
                spec_sync_loop(toks, self.pos()) == spec_sync_loop(toks, i + 1),
            decreases toks.len() - self.pos(),
        {
            let prev = {
                let t = &self.tokens[self.current - 1];
                t.typ
            };
            if prev == TokenType::SemiColon {
                return;
            }
            let t = self.peek_type();
            if t == TokenType::Fn || t == TokenType::For || t == TokenType::If || t
                == TokenType::While {
                return;
            }
            self.advance_pos();
        }
    }

    /// The type of the token under the cursor.
    fn peek_type(&self) -> (r: TokenType)
        requires
            self.wf(),
        ensures
            r == self.toks()[self.pos()].typ,
    {
        let t = &self.tokens[self.current];
        t.typ
    }

    /// The line of the token under the cursor.
    fn peek_line(&self) -> (r: usize)
        requires
            self.wf(),
        ensures
            r as nat == self.toks()[self.pos()].line,
    {
        let t = &self.tokens[self.current];
        t.line
    }

    /// Whether the cursor stands on the end-of-input token.
    fn is_at_end(&self) -> (r: bool)
        requires
            self.wf(),
        ensures
            r == (self.toks()[self.pos()].typ == TokenType::Eof),
    {
        let t = self.peek_type();
        t == TokenType::Eof
    }

    /// Whether the cursor stands on a token of the given type (never true at
    /// the end of the input).
    fn check(&self, typ: TokenType) -> (r: bool)
        requires
            self.wf(),
        ensures
            r == (self.toks()[self.pos()].typ == typ && self.toks()[self.pos()].typ
                != TokenType::Eof),
    {
        if self.is_at_end() {
            false
        } else {
            let t = self.peek_type();
            t == typ
        }
    }

    /// Move the cursor forward, unless it stands at the end of the input.
    fn advance_pos(&mut self)
        requires
            old(self).wf(),
        ensures
            final(self).toks() == old(self).toks(),
            final(self).wf(),
            final(self).pos() == if old(self).toks()[old(self).pos()].typ == TokenType::Eof {
                old(self).pos()
            } else {
                old(self).pos() + 1
            },
    {
        if !self.is_at_end() {
            let n = self.tokens.len();
            proof {
                assert(self.toks().len() == self.tokens@.len());
                assert(self.current < n);
            }
            self.current = self.current + 1;
        }
    }

    /// Consume the token under the cursor if it has the given type.
    fn match_type(&mut self, typ: TokenType) -> (r: bool)
        requires
            old(self).wf(),
        ensures
            final(self).toks() == old(self).toks(),
            final(self).wf(),
            ({
                let t = old(self).toks()[old(self).pos()].typ;
                if t == typ && t != TokenType::Eof {
                    r && final(self).pos() == old(self).pos() + 1
                } else {
                    !r && final(self).pos() == old(self).pos()
                }
            }),
    {
        if self.check(typ) {
            self.advance_pos();
            true
        } else {
            false
        }
    }

    /// Consume a token of the given type, or report the given message at the
    /// token under the cursor and fail.
    fn consume(&mut self, typ: TokenType, msg: &str) -> (r: Result<(), WmdError>)
        requires
            old(self).wf(),
        ensures
            final(self).toks() == old(self).toks(),
            final(self).wf(),
            ({
                let t = old(self).toks()[old(self).pos()].typ;
                if t == typ && t != TokenType::Eof {
                    r is Ok && final(self).pos() == old(self).pos() + 1
                } else {
                    r == Err::<(), WmdError>(WmdError::ParseError) && final(self).pos() == old(
                        self,
                    ).pos()
                }
            }),
    {
        if self.check(typ) {
            self.advance_pos();
            Ok(())
        } else {
            Err(self.error_at_current(msg))
        }
    }

    /// Report a parse error at the token under the cursor.
    fn error_at_current(&mut self, msg: &str) -> (r: WmdError)
        requires
            old(self).wf(),
        ensures
            final(self).toks() == old(self).toks(),
            final(self).wf(),
            final(self).pos() == old(self).pos(),
            r == WmdError::ParseError,
    {
        let tok = &self.tokens[self.current];
        self.reporter.error_token(tok, msg);
        WmdError::ParseError
    }
}

/// Whether a token type is an operator of the given precedence level.
fn is_level_op(level: u8, t: TokenType) -> (r: bool)
    requires
        level <= 5,
    ensures
        r == level_op(level as int, t),
{
    if level == 0 {
        t == TokenType::Or
    } else if level == 1 {
        t == TokenType::And
    } else if level == 2 {
        t == TokenType::BangEqual || t == TokenType::EqualEqual
    } else if level == 3 {
        t == TokenType::Greater || t == TokenType::GreaterEqual || t == TokenType::Less || t
            == TokenType::LessEqual
    } else if level == 4 {
        t == TokenType::Minus || t == TokenType::Plus
    } else {
        t == TokenType::Slash || t == TokenType::Star
    }
}

/// Build the tree node one fold step of a precedence level produces.
fn make_level_node(level: u8, lhs: Expr, t: TokenType, line: usize, rhs: Expr) -> (r: Expr)
    requires
        level <= 5,
        level_op(level as int, t),
    ensures
        r.model() == level_node(level as int, lhs.model(), t, line as nat, rhs.model()),
{
    if level <= 1 {
        let op = match LogicalOp::from_token_type(t) {
            Ok(o) => o,
            Err(_) => vstd::pervasive::unreached(),
        };
        Expr::Logical(Box::new(lhs), OpToken { typ: op, line }, Box::new(rhs))
    } else {
        let op = match BinaryOp::from_token_type(t) {
            Ok(o) => o,
            Err(_) => vstd::pervasive::unreached(),
        };
        Expr::Binary(Box::new(lhs), OpToken { typ: op, line }, Box::new(rhs))
    }
}

/// Parse a whole program: one declaration after another until the end of the
/// input.
pub open spec fn spec_program(toks: Seq<TokenModel>, i: int) -> Seq<StmtModel>
    decreases toks.len() - i, 90int,
    when toks_wf(toks) && 0 <= i < toks.len()
{
    if toks[i].typ == TokenType::Eof {
        Seq::empty()
    } else {
        let (s, j) = spec_declaration(toks, i);
        if i < j < toks.len() {
            seq![s] + spec_program(toks, j)
        } else {
            seq![s]
        }
    }
}

} // verus!
