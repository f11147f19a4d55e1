//! The evaluator: walks an expression tree and computes a runtime value or a
//! typed error, with unit-aware, type-aware operator semantics.

use vstd::prelude::*;
use crate::ast::{
    concat_text, BinaryOp, Expr, ExprModel, Literal, LiteralModel, LogicalOp, OpToken, UnaryOp,
};
use crate::number::{
    canon_dec, canon_num, lemma_canon_dec_unique, lemma_canon_dec_wf, lemma_canon_same, diff_fits,
    quot_fits, raw_diff, raw_prod, raw_quot, raw_sum, sum_fits, Decimal, NumError,
};
use crate::WmdError;
use vstd::string::StringExecFns;

verus! {

impl ExprModel {
    /// The fragment of the expression tree the evaluator covers: no list
    /// literals (the runtime value model has no list variant yet), no
    /// variables (an environment is layered on top of this core), and every
    /// numeric literal canonical.
    pub open spec fn evaluable(self) -> bool
        decreases self,
    {
        match self {
            ExprModel::Literal(l) => l.wf(),
            ExprModel::Grouping(e) => e.evaluable(),
            ExprModel::Unary(_, e) => e.evaluable(),
            ExprModel::Binary(l, _, r) => l.evaluable() && r.evaluable(),
            ExprModel::Logical(l, _, r) => l.evaluable() && r.evaluable(),
            ExprModel::List(_) => false,
            ExprModel::Var(_) => false,
        }
    }
}

impl Expr {
    /// Whether the evaluator covers this tree: no list literals, no
    /// variables, every numeric literal canonical. Callers check this before
    /// they ask for an evaluation.
    pub fn is_evaluable(&self) -> (r: bool)
        ensures
            r == self.model().evaluable(),
        decreases *self,
    {
        match self {
            Expr::Literal(l) => {
                match l {
                    Literal::Number(d) => d.is_canonical(),
                    Literal::Quantity(q) => q.value.is_canonical(),
                    _ => true,
                }
            },
            Expr::Grouping(e) => e.is_evaluable(),
            Expr::Unary(_, e) => e.is_evaluable(),
            Expr::Binary(l, _, r) => l.is_evaluable() && r.is_evaluable(),
            Expr::Logical(l, _, r) => l.is_evaluable() && r.is_evaluable(),
            Expr::List(_) => false,
            Expr::Var(_) => false,
        }
    }
}

/// What `+` yields: if either operand is a string, the concatenation of the
/// two display forms; otherwise the numeric sum of two numbers; anything else
/// is the "number or string" error.
pub open spec fn spec_add_or_concat(
    a: LiteralModel,
    op: OpToken<BinaryOp>,
    b: LiteralModel,
) -> Result<LiteralModel, WmdError> {
    if (a matches LiteralModel::Str(_)) || (b matches LiteralModel::Str(_)) {
        Ok(LiteralModel::Str(concat_text(a) + concat_text(b)))
    } else {
        match (a.spec_as_number(), b.spec_as_number()) {
            (Option::Some(x), Option::Some(y)) => if sum_fits(x, y) {
                Ok(LiteralModel::Number(canon_dec(raw_sum(x, y).0, raw_sum(x, y).1)))
            } else {
                Err(WmdError::NumberOverflow(op))
            },
            _ => Err(WmdError::NumberOrStringRequired(op)),
        }
    }
}

/// What a binary operator yields on two fully evaluated operands.
pub open spec fn spec_binary_op(
    a: LiteralModel,
    op: OpToken<BinaryOp>,
    b: LiteralModel,
) -> Result<LiteralModel, WmdError> {
    match op.typ {
        BinaryOp::Plus => spec_add_or_concat(a, op, b),
        BinaryOp::EqualEqual => Ok(LiteralModel::Bool(a == b)),
        BinaryOp::BangEqual => Ok(LiteralModel::Bool(!(a == b))),
        _ => match (a.spec_as_number(), b.spec_as_number()) {
            (Option::Some(x), Option::Some(y)) => match op.typ {
                BinaryOp::Minus => if diff_fits(x, y) {
                    Ok(LiteralModel::Number(canon_dec(raw_diff(x, y).0, raw_diff(x, y).1)))
                } else {
                    Err(WmdError::NumberOverflow(op))
                },
                BinaryOp::Star => if x.m * y.m <= u128::MAX && canon_num(
                    raw_prod(x, y).0,
                    raw_prod(x, y).1,
                ).1 <= u32::MAX {
                    Ok(LiteralModel::Number(canon_dec(raw_prod(x, y).0, raw_prod(x, y).1)))
                } else {
                    Err(WmdError::NumberOverflow(op))
                },
                BinaryOp::Slash => if y.m == 0 {
                    Err(WmdError::DivisionByZero(op))
                } else if quot_fits(x, y) && canon_num(raw_quot(x, y).0, raw_quot(x, y).1).1
                    <= u32::MAX {
                    Ok(LiteralModel::Number(canon_dec(raw_quot(x, y).0, raw_quot(x, y).1)))
                } else {
                    Err(WmdError::NumberOverflow(op))
                },
                BinaryOp::Less => Ok(LiteralModel::Bool(x.lt_value(y))),
                BinaryOp::LessEqual => Ok(LiteralModel::Bool(x.le_value(y))),
                BinaryOp::Greater => Ok(LiteralModel::Bool(y.lt_value(x))),
                BinaryOp::GreaterEqual => Ok(LiteralModel::Bool(y.le_value(x))),
                _ => Err(WmdError::BinaryNumberRequired(op)),
            },
            _ => Err(WmdError::BinaryNumberRequired(op)),
        },
    }
}

/// What an expression of the evaluable fragment evaluates to: a runtime value
/// or a typed error. Binary operands are both evaluated, left before right;
/// logical operators short-circuit. (The list and variable arms lie outside
/// the evaluable fragment; their value here is immaterial.)
pub open spec fn spec_eval(e: ExprModel) -> Result<LiteralModel, WmdError>
    decreases e,
{
    match e {
        ExprModel::Literal(l) => Ok(l),
        ExprModel::Grouping(inner) => spec_eval(*inner),
        ExprModel::Unary(op, inner) => match spec_eval(*inner) {
            Err(err) => Err(err),
            Ok(v) => match op.typ {
                UnaryOp::Bang => Ok(LiteralModel::Bool(!v.spec_truthy())),
                UnaryOp::Minus => match v.spec_as_number() {
                    Option::Some(d) => Ok(LiteralModel::Number(d.spec_negate())),
                    Option::None => Err(WmdError::UnaryNumberRequired(op)),
                },
            },
        },
        ExprModel::Binary(l, op, r) => match spec_eval(*l) {
            Err(err) => Err(err),
            Ok(a) => match spec_eval(*r) {
                Err(err) => Err(err),
                Ok(b) => spec_binary_op(a, op, b),
            },
        },
        ExprModel::Logical(l, op, r) => match spec_eval(*l) {
            Err(err) => Err(err),
            Ok(a) => match op.typ {
                LogicalOp::And => if !a.spec_truthy() {
                    Ok(a)
                } else {
                    spec_eval(*r)
                },
                LogicalOp::Or => if a.spec_truthy() {
                    Ok(a)
                } else {
                    spec_eval(*r)
                },
            },
        },
        ExprModel::List(_) => Ok(LiteralModel::Nil),
        ExprModel::Var(_) => Ok(LiteralModel::Nil),
    }
}

/// The model of an evaluation result.
pub open spec fn res_model(r: Result<Literal, WmdError>) -> Result<LiteralModel, WmdError> {
    match r {
        Ok(l) => Ok(l@),
        Err(e) => Err(e),
    }
}

/// Evaluating an expression of the evaluable fragment keeps every number it
/// yields canonical.
pub proof fn lemma_spec_eval_wf(e: ExprModel)
    requires
        e.evaluable(),
    ensures
        spec_eval(e) is Ok ==> spec_eval(e)->Ok_0.wf(),
    decreases e,
{
    match e {
        ExprModel::Literal(_) => {},
        ExprModel::Grouping(inner) => {
            lemma_spec_eval_wf(*inner);
        },
        ExprModel::Unary(op, inner) => {
            lemma_spec_eval_wf(*inner);
        },
        ExprModel::Binary(l, op, r) => {
            lemma_spec_eval_wf(*l);
            lemma_spec_eval_wf(*r);
            if spec_eval(*l) is Ok && spec_eval(*r) is Ok {
                lemma_binary_op_wf(spec_eval(*l)->Ok_0, op, spec_eval(*r)->Ok_0);
            }
        },
        ExprModel::Logical(l, op, r) => {
            lemma_spec_eval_wf(*l);
            lemma_spec_eval_wf(*r);
        },
        ExprModel::List(_) => {},
        ExprModel::Var(_) => {},
    }
}

/// A binary operator on canonical operands yields a canonical value.
proof fn lemma_binary_op_wf(a: LiteralModel, op: OpToken<BinaryOp>, b: LiteralModel)
    requires
        a.wf(),
        b.wf(),
    ensures
        spec_binary_op(a, op, b) is Ok ==> spec_binary_op(a, op, b)->Ok_0.wf(),
{
    match (a.spec_as_number(), b.spec_as_number()) {
        (Option::Some(x), Option::Some(y)) => {
            let rs = raw_sum(x, y);
            lemma_canon_same(rs.0, rs.1);
            if sum_fits(x, y) {
                lemma_canon_dec_wf(rs.0, rs.1);
            }
            let rd = raw_diff(x, y);
            lemma_canon_same(rd.0, rd.1);
            if diff_fits(x, y) {
                lemma_canon_dec_wf(rd.0, rd.1);
            }
            let rp = raw_prod(x, y);
            lemma_canon_same(rp.0, rp.1);
            if x.m * y.m <= u128::MAX && canon_num(rp.0, rp.1).1 <= u32::MAX {
                assert(vstd::math::abs(rp.0) == x.m * y.m) by (nonlinear_arith)
                    requires
                        rp.0 == x.num() * y.num(),
                        x.num() == if x.neg { -(x.m as int) } else { x.m as int },
                        y.num() == if y.neg { -(y.m as int) } else { y.m as int },
                ;
                lemma_canon_dec_wf(rp.0, rp.1);
            }
            let rq = raw_quot(x, y);
            lemma_canon_same(rq.0, rq.1);
            if y.m != 0 && quot_fits(x, y) && canon_num(rq.0, rq.1).1 <= u32::MAX {
                lemma_canon_dec_wf(rq.0, rq.1);
            }
        },
        _ => {},
    }
}

/// Short-circuit: when the left operand of a logical operator decides the
/// result — a falsy left of `and`, a truthy left of `or` — the right operand
/// plays no part at all: the result is the left operand's value, whatever the
/// right operand is, even one whose evaluation would fail.
pub proof fn lemma_logical_short_circuit(
    l: ExprModel,
    op: OpToken<LogicalOp>,
    r1: ExprModel,
    r2: ExprModel,
)
    requires
        spec_eval(l) is Ok,
        (op.typ == LogicalOp::And && !spec_eval(l)->Ok_0.spec_truthy()) || (op.typ == LogicalOp::Or
            && spec_eval(l)->Ok_0.spec_truthy()),
    ensures
        spec_eval(ExprModel::Logical(Box::new(l), op, Box::new(r1))) == spec_eval(l),
        spec_eval(ExprModel::Logical(Box::new(l), op, Box::new(r1))) == spec_eval(
            ExprModel::Logical(Box::new(l), op, Box::new(r2)),
        ),
{
}

/// The tree-walking evaluator.
pub struct Interpreter;

impl Interpreter {
    /// An evaluator.
    pub fn new() -> (r: Interpreter)
        ensures
            r == (Interpreter {  }),
    {
        Interpreter {  }
    }

    /// Evaluate an expression of the evaluable fragment: the result is
    /// exactly what `spec_eval` says, a runtime value or a typed error.
    pub fn evaluate(&mut self, expr: &Expr) -> (r: Result<Literal, WmdError>)
        requires
            expr.model().evaluable(),
        ensures
            res_model(r) == spec_eval(expr.model()),
        decreases *expr,
    {
        match expr {
            Expr::Literal(l) => Ok(l.dup()),
            Expr::Grouping(inner) => self.evaluate(inner),
            Expr::Unary(op, inner) => {
                let v = match self.evaluate(inner) {
                    Ok(v) => v,
                    Err(e) => {
                        return Err(e);
                    },
                };
                proof {
                    lemma_spec_eval_wf(inner.model());
                }
                match op.typ {
                    UnaryOp::Bang => Ok(Literal::Bool(!v.is_truthy())),
                    UnaryOp::Minus => match v.as_number() {
                        Some(d) => Ok(Literal::Number(d.negate())),
                        None => Err(WmdError::UnaryNumberRequired(*op)),
                    },
                }
            },
            Expr::Binary(l, op, r) => {
                let a = match self.evaluate(l) {
                    Ok(v) => v,
                    Err(e) => {
                        return Err(e);
                    },
                };
                let b = match self.evaluate(r) {
                    Ok(v) => v,
                    Err(e) => {
                        return Err(e);
                    },
                };
                proof {
                    lemma_spec_eval_wf(l.model());
                    lemma_spec_eval_wf(r.model());
                }
                binary_op_values(a, *op, b)
            },
            Expr::Logical(l, op, r) => {
                let a = match self.evaluate(l) {
                    Ok(v) => v,
                    Err(e) => {
                        return Err(e);
                    },
                };
                match op.typ {
                    LogicalOp::And => {
                        if !a.is_truthy() {
                            Ok(a)
                        } else {
                            self.evaluate(r)
                        }
                    },
                    LogicalOp::Or => {
                        if a.is_truthy() {
                            Ok(a)
                        } else {
                            self.evaluate(r)
                        }
                    },
                }
            },
            Expr::List(_) => vstd::pervasive::unreached(),
            Expr::Var(_) => vstd::pervasive::unreached(),
        }
    }
}

/// Apply a binary operator to two fully evaluated operands.
fn binary_op_values(a: Literal, op: OpToken<BinaryOp>, b: Literal) -> (r: Result<
    Literal,
    WmdError,
>)
    requires
        a@.wf(),
        b@.wf(),
    ensures
        res_model(r) == spec_binary_op(a@, op, b@),
{
    match op.typ {
        BinaryOp::Plus => add_or_concat(a, op, b),
        BinaryOp::EqualEqual => {
            let eq = lit_eq(&a, &b);
            Ok(Literal::Bool(eq))
        },
        BinaryOp::BangEqual => {
            let eq = lit_eq(&a, &b);
            Ok(Literal::Bool(!eq))
        },
        _ => {
            let x = match a.as_number() {
                Some(x) => x,
                None => {
                    return Err(WmdError::BinaryNumberRequired(op));
                },
            };
            let y = match b.as_number() {
                Some(y) => y,
                None => {
                    return Err(WmdError::BinaryNumberRequired(op));
                },
            };
            match op.typ {
                BinaryOp::Minus => match x.sub(y) {
                    Ok(d) => {
                        proof {
                            lemma_canon_dec_unique(d, raw_diff(x, y).0, raw_diff(x, y).1);
                        }
                        Ok(Literal::Number(d))
                    },
                    Err(_) => Err(WmdError::NumberOverflow(op)),
                },
                BinaryOp::Star => match x.mul(y) {
                    Ok(d) => {
                        proof {
                            lemma_canon_dec_unique(d, raw_prod(x, y).0, raw_prod(x, y).1);
                        }
                        Ok(Literal::Number(d))
                    },
                    Err(_) => Err(WmdError::NumberOverflow(op)),
                },
                BinaryOp::Slash => match x.div(y) {
                    Ok(d) => {
                        proof {
                            lemma_canon_dec_unique(d, raw_quot(x, y).0, raw_quot(x, y).1);
                        }
                        Ok(Literal::Number(d))
                    },
                    Err(NumError::DivisionByZero) => Err(WmdError::DivisionByZero(op)),
                    Err(NumError::Overflow) => Err(WmdError::NumberOverflow(op)),
                },
                BinaryOp::Less => {
                    let c = x.lt(y);
                    Ok(Literal::Bool(c))
                },
                BinaryOp::LessEqual => {
                    let c = x.le(y);
                    Ok(Literal::Bool(c))
                },
                BinaryOp::Greater => {
                    let c = y.lt(x);
                    Ok(Literal::Bool(c))
                },
                BinaryOp::GreaterEqual => {
                    let c = y.le(x);
                    Ok(Literal::Bool(c))
                },
                _ => vstd::pervasive::unreached(),
            }
        },
    }
}

/// The overloaded `+`: string concatenation through display forms when either
/// operand is a string, numeric addition otherwise.
fn add_or_concat(a: Literal, op: OpToken<BinaryOp>, b: Literal) -> (r: Result<Literal, WmdError>)
    requires
        a@.wf(),
        b@.wf(),
    ensures
        res_model(r) == spec_add_or_concat(a@, op, b@),
{
    let a_is_str = matches!(a, Literal::String(_));
    let b_is_str = matches!(b, Literal::String(_));
    if a_is_str || b_is_str {
        let mut s = a.to_concat_text();
        let t = b.to_concat_text();
        s.append(t.as_str());
        Ok(Literal::String(s))
    } else {
        match (a.as_number(), b.as_number()) {
            (Some(x), Some(y)) => match x.add(y) {
                Ok(d) => {
                    proof {
                        lemma_canon_dec_unique(d, raw_sum(x, y).0, raw_sum(x, y).1);
                    }
                    Ok(Literal::Number(d))
                },
                Err(_) => Err(WmdError::NumberOverflow(op)),
            },
            _ => Err(WmdError::NumberOrStringRequired(op)),
        }
    }
}

/// Structural equality of two runtime values; values of different kinds are
/// simply unequal.
fn lit_eq(a: &Literal, b: &Literal) -> (r: bool)
    ensures
        r <==> a@ == b@,
{
    match (a, b) {
        (Literal::Nil, Literal::Nil) => true,
        (Literal::Bool(x), Literal::Bool(y)) => *x == *y,
        (Literal::Number(x), Literal::Number(y)) => *x == *y,
        (Literal::Quantity(x), Literal::Quantity(y)) => *x == *y,
        (Literal::String(x), Literal::String(y)) => *x == *y,
        _ => false,
    }
}

} // verus!
