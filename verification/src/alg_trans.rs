//! Algebraic simplification of expressions (`x + 0 -> x`, `x * 1 -> x`,
//! `-(-x) -> x`, `x & x -> x`, ...) and the structural equality it relies on.
//!
//! The simplification is stated over `SExpr`, a mathematical view of the
//! parts of an expression it looks into, and is proved to keep the value of
//! every expression over the integers and booleans (`lemma_transform_keeps_value`).

use vstd::prelude::*;
use crate::ast::{
    BinaryExpr, BinaryOp, CasesArm, Expr, Ident, Literal, SimplePattern, Statement, UnaryExpr,
    UnaryOp,
};
use crate::diagnostics::Span;
use crate::token::{Decimal, decimal_eq, decimal_equals_int, decimal_same, equals_int};
use crate::types::Type;

verus! {

/// The view of an expression used to state simplification: literals, names,
/// unary and binary operations and tuples, with every other kind of
/// expression kept as it is.
pub enum SExpr {
    Literal(Literal),
    Ident(Ident),
    Unary { expr: Box<SExpr>, op: UnaryOp, op_span: Span, expr_type: Type },
    Binary { left: Box<SExpr>, right: Box<SExpr>, op: BinaryOp, op_span: Span, expr_type: Type },
    Tuple(Seq<SExpr>),
    Other(Expr),
}

pub open spec fn expr_view(e: Expr) -> SExpr
    decreases e,
{
    match e {
        Expr::Literal(l) => SExpr::Literal(l),
        Expr::Ident(i) => SExpr::Ident(i),
        Expr::Unary(u) => SExpr::Unary {
            expr: Box::new(expr_view(*u.expr)),
            op: u.op,
            op_span: u.op_span,
            expr_type: u.expr_type,
        },
        Expr::Binary(b) => SExpr::Binary {
            left: Box::new(expr_view(*b.left)),
            right: Box::new(expr_view(*b.right)),
            op: b.op,
            op_span: b.op_span,
            expr_type: b.expr_type,
        },
        Expr::Tuple(v) => SExpr::Tuple(exprs_view(v@)),
        other => SExpr::Other(other),
    }
}

pub open spec fn exprs_view(s: Seq<Expr>) -> Seq<SExpr>
    decreases s,
{
    if s.len() == 0 {
        Seq::empty()
    } else {
        exprs_view(s.drop_last()).push(expr_view(s.last()))
    }
}

pub proof fn lemma_exprs_view_len(s: Seq<Expr>)
    ensures
        exprs_view(s).len() == s.len(),
        forall|i: int| 0 <= i < s.len() ==> exprs_view(s)[i] == expr_view(#[trigger] s[i]),
    decreases s.len(),
{
    if s.len() > 0 {
        lemma_exprs_view_len(s.drop_last());
        assert forall|i: int| 0 <= i < s.len() implies exprs_view(s)[i] == expr_view(#[trigger] s[i]) by {
            if i < s.len() - 1 {
                assert(s.drop_last()[i] == s[i]);
            }
        }
    }
}

/// Two names are the same: equal text at the same place, or the same symbol.
pub open spec fn ident_same(a: Ident, b: Ident) -> bool {
    match (a, b) {
        (Ident::Str { val: v1, span: s1 }, Ident::Str { val: v2, span: s2 }) => v1@ == v2@ && s1 == s2,
        (Ident::Symbol(x), Ident::Symbol(y)) => x == y,
        _ => false,
    }
}

/// Whether two names are the same.
pub fn ident_eq(a: &Ident, b: &Ident) -> (r: bool)
    ensures
        r == ident_same(*a, *b),
{
    match (a, b) {
        (Ident::Str { val: v1, span: s1 }, Ident::Str { val: v2, span: s2 }) => {
            *v1 == *v2 && s1.line == s2.line && s1.col == s2.col
        }
        (Ident::Symbol(x), Ident::Symbol(y)) => *x == *y,
        _ => false,
    }
}

/// Two literals have the same value: numbers are compared by value, whatever their form.
pub open spec fn literal_same(a: Literal, b: Literal) -> bool {
    match (a, b) {
        (Literal::Int(x), Literal::Real(d)) => decimal_equals_int(d, x as int),
        (Literal::Real(d), Literal::Int(x)) => decimal_equals_int(d, x as int),
        (Literal::Int(x), Literal::Int(y)) => x == y,
        (Literal::Bool(x), Literal::Bool(y)) => x == y,
        (Literal::Real(x), Literal::Real(y)) => decimal_same(x, y),
        _ => false,
    }
}

pub fn literal_eq(a: &Literal, b: &Literal) -> (r: bool)
    ensures
        r == literal_same(*a, *b),
{
    match (a, b) {
        (Literal::Int(x), Literal::Real(d)) => equals_int(*d, *x),
        (Literal::Real(d), Literal::Int(x)) => equals_int(*d, *x),
        (Literal::Int(x), Literal::Int(y)) => *x == *y,
        (Literal::Bool(x), Literal::Bool(y)) => *x == *y,
        (Literal::Real(x), Literal::Real(y)) => decimal_eq(*x, *y),
        _ => false,
    }
}

/// The operator is commutative: `a op b` means `b op a`.
pub open spec fn commutative(op: BinaryOp) -> bool {
    op == BinaryOp::Add || op == BinaryOp::Mul || op == BinaryOp::Or || op == BinaryOp::And
}

/// Structural equality of expressions, up to the order of the operands of
/// commutative operators. Tuples are equal when they have the same length and
/// equal elements; blocks, cases, samples and errors are never equal.
pub open spec fn sexpr_equal(a: SExpr, b: SExpr) -> bool
    decreases a,
{
    match (a, b) {
        (SExpr::Literal(x), SExpr::Literal(y)) => literal_same(x, y),
        (SExpr::Ident(x), SExpr::Ident(y)) => ident_same(x, y),
        (SExpr::Unary { expr: x, op: ox, .. }, SExpr::Unary { expr: y, op: oy, .. }) =>
            ox == oy && sexpr_equal(*x, *y),
        (SExpr::Binary { left: l1, right: r1, op: o1, .. }, SExpr::Binary { left: l2, right: r2, op: o2, .. }) =>
            o1 == o2 && (
                (sexpr_equal(*l1, *l2) && sexpr_equal(*r1, *r2))
                || (commutative(o1) && sexpr_equal(*l1, *r2) && sexpr_equal(*r1, *l2))
            ),
        (SExpr::Tuple(xs), SExpr::Tuple(ys)) =>
            xs.len() == ys.len() && forall|i: int| 0 <= i < xs.len() ==> sexpr_equal(#[trigger] xs[i], ys[i]),
        _ => false,
    }
}

/// The literal `s` is the number `k`, written as an integer or a real.
pub open spec fn is_num(s: SExpr, k: int) -> bool {
    match s {
        SExpr::Literal(Literal::Int(x)) => x == k,
        SExpr::Literal(Literal::Real(d)) => decimal_equals_int(d, k),
        _ => false,
    }
}

pub open spec fn is_bool(s: SExpr, b: bool) -> bool {
    s == SExpr::Literal(Literal::Bool(b))
}

pub open spec fn int_lit(k: i64) -> SExpr {
    SExpr::Literal(Literal::Int(k))
}

pub open spec fn no_span() -> Span {
    Span { line: 0, col: 0 }
}

/// One bottom-up pass of simplification: the simplified expression, and
/// whether anything changed.
pub open spec fn transform(s: SExpr) -> (SExpr, bool)
    decreases s,
{
    match s {
        SExpr::Unary { expr, op, op_span, expr_type } => {
            let (inner, modified) = transform(*expr);
            match inner {
                SExpr::Unary { expr: x, op: inner_op, .. } if inner_op == op => (*x, true),
                _ => (SExpr::Unary { expr: Box::new(inner), op, op_span, expr_type }, modified),
            }
        },
        SExpr::Binary { left, right, op, op_span, expr_type } => {
            let (l, ml) = transform(*left);
            let (r, mr) = transform(*right);
            transform_binary(l, r, op, op_span, expr_type, ml || mr)
        },
        SExpr::Tuple(xs) => {
            let ys = transform_seq(xs);
            (SExpr::Tuple(ys.0), ys.1)
        },
        other => (other, false),
    }
}

pub open spec fn transform_seq(xs: Seq<SExpr>) -> (Seq<SExpr>, bool)
    decreases xs,
{
    if xs.len() == 0 {
        (Seq::empty(), false)
    } else {
        let (init, m) = transform_seq(xs.drop_last());
        let (last, ml) = transform(xs.last());
        (init.push(last), m || ml)
    }
}

/// The rules for a binary operation whose operands are already simplified.
pub open spec fn transform_binary(l: SExpr, r: SExpr, op: BinaryOp, op_span: Span, expr_type: Type, modified: bool) -> (SExpr, bool) {
    let same = SExpr::Binary { left: Box::new(l), right: Box::new(r), op, op_span, expr_type };
    match op {
        BinaryOp::Add => {
            if is_num(l, 0) {
                (r, true)
            } else if is_num(r, 0) {
                (l, true)
            } else if sexpr_equal(l, r) {
                (SExpr::Binary { left: Box::new(l), right: Box::new(int_lit(2)), op: BinaryOp::Mul, op_span: no_span(), expr_type }, true)
            } else {
                match r {
                    SExpr::Unary { expr: y, op: UnaryOp::Neg, .. } => {
                        if sexpr_equal(l, *y) {
                            (int_lit(0), true)
                        } else {
                            (SExpr::Binary { left: Box::new(l), right: y, op: BinaryOp::Sub, op_span, expr_type }, true)
                        }
                    },
                    _ => match l {
                        SExpr::Unary { expr: x, op: UnaryOp::Neg, .. } => {
                            if sexpr_equal(r, *x) {
                                (int_lit(0), true)
                            } else {
                                (SExpr::Binary { left: Box::new(r), right: x, op: BinaryOp::Sub, op_span, expr_type }, true)
                            }
                        },
                        SExpr::Literal(_) => (SExpr::Binary { left: Box::new(r), right: Box::new(l), op, op_span, expr_type }, true),
                        _ => (same, modified),
                    },
                }
            }
        },
        BinaryOp::Sub => {
            if sexpr_equal(l, r) {
                (int_lit(0), true)
            } else if is_num(l, 0) {
                (SExpr::Unary { expr: Box::new(r), op: UnaryOp::Neg, op_span: no_span(), expr_type }, true)
            } else if is_num(r, 0) {
                (l, true)
            } else {
                (same, modified)
            }
        },
        BinaryOp::Mul => {
            if is_num(l, 0) || is_num(r, 0) {
                (int_lit(0), true)
            } else if is_num(l, 1) {
                (r, true)
            } else if is_num(r, 1) {
                (l, true)
            } else {
                (same, modified)
            }
        },
        BinaryOp::Div => {
            if is_num(l, 0) {
                (int_lit(0), true)
            } else if is_num(r, 1) {
                (l, true)
            } else if sexpr_equal(l, r) {
                (int_lit(1), true)
            } else {
                (same, modified)
            }
        },
        BinaryOp::Pow => {
            if is_num(r, 0) || is_num(l, 1) {
                (int_lit(1), true)
            } else if is_num(r, 1) {
                (l, true)
            } else {
                (same, modified)
            }
        },
        BinaryOp::And => {
            if sexpr_equal(l, r) {
                (l, true)
            } else if is_bool(l, true) {
                (r, true)
            } else if is_bool(r, true) {
                (l, true)
            } else if is_bool(l, false) || is_bool(r, false) {
                (SExpr::Literal(Literal::Bool(false)), true)
            } else {
                (same, modified)
            }
        },
        BinaryOp::Or => {
            if sexpr_equal(l, r) {
                (l, true)
            } else if is_bool(l, true) || is_bool(r, true) {
                (SExpr::Literal(Literal::Bool(true)), true)
            } else if is_bool(l, false) {
                (r, true)
            } else if is_bool(r, false) {
                (l, true)
            } else {
                (same, modified)
            }
        },
        _ => (same, modified),
    }
}

/// The value of an expression over the integers and booleans.
pub enum Value {
    Int(int),
    Bool(bool),
}

/// Integer division rounding toward zero, as the machine divides.
pub open spec fn trunc_div(x: int, y: int) -> int {
    if (x >= 0) == (y >= 0) {
        if x >= 0 { x / y } else { (-x) / (-y) }
    } else {
        if x >= 0 { -(x / (-y)) } else { -((-x) / y) }
    }
}

pub open spec fn power(x: int, n: nat) -> int
    decreases n,
{
    if n == 0 {
        1
    } else {
        x * power(x, (n - 1) as nat)
    }
}

/// `op` applied to two values; `None` where it is undefined (wrong kinds of
/// value, division by zero, a negative exponent).
pub open spec fn apply(op: BinaryOp, a: Value, b: Value) -> Option<Value> {
    match (a, b) {
        (Value::Int(x), Value::Int(y)) => match op {
            BinaryOp::Add => Some(Value::Int(x + y)),
            BinaryOp::Sub => Some(Value::Int(x - y)),
            BinaryOp::Mul => Some(Value::Int(x * y)),
            BinaryOp::Div => if y == 0 { None } else { Some(Value::Int(trunc_div(x, y))) },
            BinaryOp::Pow => if y < 0 { None } else { Some(Value::Int(power(x, y as nat))) },
            BinaryOp::Lt => Some(Value::Bool(x < y)),
            BinaryOp::Gt => Some(Value::Bool(x > y)),
            BinaryOp::Le => Some(Value::Bool(x <= y)),
            BinaryOp::Ge => Some(Value::Bool(x >= y)),
            _ => None,
        },
        (Value::Bool(x), Value::Bool(y)) => match op {
            BinaryOp::Or => Some(Value::Bool(x || y)),
            BinaryOp::And => Some(Value::Bool(x && y)),
            _ => None,
        },
        _ => None,
    }
}

/// The value of `s` when each name has the value `env` gives it; `None` where
/// it has none (reals, tuples and the other kinds of expression are not valued).
pub open spec fn eval(s: SExpr, env: spec_fn(Ident) -> Option<Value>) -> Option<Value>
    decreases s,
{
    match s {
        SExpr::Literal(Literal::Int(k)) => Some(Value::Int(k as int)),
        SExpr::Literal(Literal::Bool(b)) => Some(Value::Bool(b)),
        SExpr::Ident(i) => env(i),
        SExpr::Unary { expr, op, .. } => match (op, eval(*expr, env)) {
            (UnaryOp::Neg, Some(Value::Int(v))) => Some(Value::Int(-v)),
            (UnaryOp::BitNot, Some(Value::Bool(b))) => Some(Value::Bool(!b)),
            _ => None,
        },
        SExpr::Binary { left, right, op, .. } => match (eval(*left, env), eval(*right, env)) {
            (Some(a), Some(b)) => apply(op, a, b),
            _ => None,
        },
        _ => None,
    }
}

/// The environment gives the same name the same value.
pub open spec fn env_respects(env: spec_fn(Ident) -> Option<Value>) -> bool {
    forall|a: Ident, b: Ident| #[trigger] ident_same(a, b) ==> env(a) == env(b)
}

proof fn lemma_power_one_base(n: nat)
    ensures
        power(1, n) == 1,
    decreases n,
{
    if n > 0 {
        lemma_power_one_base((n - 1) as nat);
    }
}

proof fn lemma_trunc_div_facts(x: int)
    ensures
        trunc_div(x, 1) == x,
        x != 0 ==> trunc_div(x, x) == 1,
        x != 0 ==> trunc_div(0, x) == 0,
{
    if x < 0 {
        assert((-x) / (-x) == 1) by (nonlinear_arith)
            requires -x > 0;
        assert(0int / (-x) == 0) by (nonlinear_arith)
            requires -x > 0;
    } else if x > 0 {
        assert(x / x == 1) by (nonlinear_arith)
            requires x > 0;
    }
}

/// Expressions found equal have equal values wherever both have one.
pub proof fn lemma_sexpr_equal_sound(a: SExpr, b: SExpr, env: spec_fn(Ident) -> Option<Value>)
    requires
        env_respects(env),
        sexpr_equal(a, b),
        eval(a, env) is Some,
        eval(b, env) is Some,
    ensures
        eval(a, env) == eval(b, env),
    decreases a,
{
    match (a, b) {
        (SExpr::Literal(x), SExpr::Literal(y)) => {},
        (SExpr::Ident(x), SExpr::Ident(y)) => {
            assert(ident_same(x, y));
        },
        (SExpr::Unary { expr: x, op: ox, .. }, SExpr::Unary { expr: y, op: oy, .. }) => {
            lemma_sexpr_equal_sound(*x, *y, env);
        },
        (SExpr::Binary { left: l1, right: r1, op: o1, .. }, SExpr::Binary { left: l2, right: r2, op: o2, .. }) => {
            if sexpr_equal(*l1, *l2) && sexpr_equal(*r1, *r2) {
                lemma_sexpr_equal_sound(*l1, *l2, env);
                lemma_sexpr_equal_sound(*r1, *r2, env);
            } else {
                lemma_sexpr_equal_sound(*l1, *r2, env);
                lemma_sexpr_equal_sound(*r1, *l2, env);
                let va = eval(*l1, env).unwrap();
                let vb = eval(*r1, env).unwrap();
                match (va, vb) {
                    (Value::Int(x), Value::Int(y)) => {
                        assert(x * y == y * x) by (nonlinear_arith);
                    },
                    _ => {},
                }
            }
        },
        _ => {},
    }
}

/// Simplifying an expression keeps its value: wherever an expression has a
/// value over the integers and booleans, its simplified form has the same.
pub proof fn lemma_transform_keeps_value(s: SExpr, env: spec_fn(Ident) -> Option<Value>)
    requires
        env_respects(env),
        eval(s, env) is Some,
    ensures
        eval(transform(s).0, env) == eval(s, env),
    decreases s,
{
    match s {
        SExpr::Unary { expr, op, op_span, expr_type } => {
            lemma_transform_keeps_value(*expr, env);
        },
        SExpr::Binary { left, right, op, op_span, expr_type } => {
            lemma_transform_keeps_value(*left, env);
            lemma_transform_keeps_value(*right, env);
            let (l, ml) = transform(*left);
            let (r, mr) = transform(*right);
            lemma_binary_rules_keep_value(l, r, op, op_span, expr_type, ml || mr, env);
        },
        _ => {},
    }
}

/// Facts used by every binary rule: equal-looking operands have equal values,
/// and the integer identities behind the rules.
proof fn lemma_rule_facts(l: SExpr, r: SExpr, env: spec_fn(Ident) -> Option<Value>)
    requires
        env_respects(env),
        eval(l, env) is Some,
        eval(r, env) is Some,
    ensures
        sexpr_equal(l, r) ==> eval(l, env) == eval(r, env),
        r matches SExpr::Unary { expr: y, op: UnaryOp::Neg, .. } ==>
            (sexpr_equal(l, *y) && eval(*y, env) is Some ==> eval(l, env) == eval(*y, env)),
        l matches SExpr::Unary { expr: x, op: UnaryOp::Neg, .. } ==>
            (sexpr_equal(r, *x) && eval(*x, env) is Some ==> eval(r, env) == eval(*x, env)),
        forall|x: int| #[trigger] trunc_div(x, 1) == x,
        forall|x: int| x != 0 ==> #[trigger] trunc_div(x, x) == 1,
        forall|x: int| x != 0 ==> #[trigger] trunc_div(0, x) == 0,
        forall|n: nat| #[trigger] power(1, n) == 1,
        forall|x: int| #[trigger] power(x, 1) == x,
        forall|x: int| #[trigger] power(x, 0) == 1,
{
    if sexpr_equal(l, r) {
        lemma_sexpr_equal_sound(l, r, env);
    }
    match r {
        SExpr::Unary { expr: y, op: UnaryOp::Neg, .. } => {
            if sexpr_equal(l, *y) && eval(*y, env) is Some {
                lemma_sexpr_equal_sound(l, *y, env);
            }
        },
        _ => {},
    }
    match l {
        SExpr::Unary { expr: x, op: UnaryOp::Neg, .. } => {
            if sexpr_equal(r, *x) && eval(*x, env) is Some {
                lemma_sexpr_equal_sound(r, *x, env);
            }
        },
        _ => {},
    }
    assert forall|x: int| #[trigger] trunc_div(x, 1) == x by {
        lemma_trunc_div_facts(x);
    }
    assert forall|x: int| x != 0 implies #[trigger] trunc_div(x, x) == 1 by {
        lemma_trunc_div_facts(x);
    }
    assert forall|x: int| x != 0 implies #[trigger] trunc_div(0, x) == 0 by {
        lemma_trunc_div_facts(x);
    }
    assert forall|n: nat| #[trigger] power(1, n) == 1 by {
        lemma_power_one_base(n);
    }
    assert forall|x: int| #[trigger] power(x, 1) == x by {
        reveal_with_fuel(power, 2);
    }
}

/// The rules for binary operations keep the value of `l op r`.
proof fn lemma_binary_rules_keep_value(
    l: SExpr,
    r: SExpr,
    op: BinaryOp,
    op_span: Span,
    expr_type: Type,
    modified: bool,
    env: spec_fn(Ident) -> Option<Value>,
)
    requires
        env_respects(env),
        eval(l, env) is Some,
        eval(r, env) is Some,
        apply(op, eval(l, env).unwrap(), eval(r, env).unwrap()) is Some,
    ensures
        eval(transform_binary(l, r, op, op_span, expr_type, modified).0, env)
            == apply(op, eval(l, env).unwrap(), eval(r, env).unwrap()),
{
    lemma_rule_facts(l, r, env);
    match op {
        BinaryOp::Add => lemma_add_rules(l, r, op_span, expr_type, modified, env),
        BinaryOp::Mul => {
            let res = transform_binary(l, r, op, op_span, expr_type, modified).0;
            if let (Value::Int(x), Value::Int(y)) = (eval(l, env).unwrap(), eval(r, env).unwrap()) {
                assert(x * 0 == 0 && 0 * y == 0 && x * 1 == x && 1 * y == y);
            }
        },
        _ => {},
    }
}

proof fn lemma_add_rules(
    l: SExpr,
    r: SExpr,
    op_span: Span,
    expr_type: Type,
    modified: bool,
    env: spec_fn(Ident) -> Option<Value>,
)
    requires
        env_respects(env),
        eval(l, env) is Some,
        eval(r, env) is Some,
        apply(BinaryOp::Add, eval(l, env).unwrap(), eval(r, env).unwrap()) is Some,
        sexpr_equal(l, r) ==> eval(l, env) == eval(r, env),
        r matches SExpr::Unary { expr: y, op: UnaryOp::Neg, .. } ==>
            (sexpr_equal(l, *y) && eval(*y, env) is Some ==> eval(l, env) == eval(*y, env)),
        l matches SExpr::Unary { expr: x, op: UnaryOp::Neg, .. } ==>
            (sexpr_equal(r, *x) && eval(*x, env) is Some ==> eval(r, env) == eval(*x, env)),
    ensures
        eval(transform_binary(l, r, BinaryOp::Add, op_span, expr_type, modified).0, env)
            == apply(BinaryOp::Add, eval(l, env).unwrap(), eval(r, env).unwrap()),
{
    let vl = eval(l, env).unwrap();
    let vr = eval(r, env).unwrap();
    let res = transform_binary(l, r, BinaryOp::Add, op_span, expr_type, modified).0;
    if is_num(l, 0) || is_num(r, 0) {
    } else if sexpr_equal(l, r) {
        assert(eval(int_lit(2), env) == Some(Value::Int(2)));
    } else {
        match r {
            SExpr::Unary { expr: y, op: UnaryOp::Neg, .. } => {
                assert(eval(*y, env) is Some);
            },
            _ => match l {
                SExpr::Unary { expr: x, op: UnaryOp::Neg, .. } => {
                    assert(eval(*x, env) is Some);
                },
                _ => {},
            },
        }
    }
}

/// A pass that reports no change gives back the expression it was given.
pub proof fn lemma_unmodified_is_identity(s: SExpr)
    ensures
        !transform(s).1 ==> transform(s).0 == s,
    decreases s,
{
    match s {
        SExpr::Unary { expr, .. } => {
            lemma_unmodified_is_identity(*expr);
        },
        SExpr::Binary { left, right, .. } => {
            lemma_unmodified_is_identity(*left);
            lemma_unmodified_is_identity(*right);
        },
        SExpr::Tuple(xs) => {
            lemma_unmodified_seq_is_identity(xs);
        },
        _ => {},
    }
}

proof fn lemma_unmodified_seq_is_identity(xs: Seq<SExpr>)
    ensures
        !transform_seq(xs).1 ==> transform_seq(xs).0 == xs,
    decreases xs,
{
    if xs.len() > 0 {
        lemma_unmodified_seq_is_identity(xs.drop_last());
        lemma_unmodified_is_identity(xs.last());
        if !transform_seq(xs).1 {
            assert(transform_seq(xs).0 =~= xs);
        }
    }
}

/// The number of nodes of an expression.
pub open spec fn sexpr_size(s: SExpr) -> nat
    decreases s,
{
    match s {
        SExpr::Unary { expr, .. } => 1 + sexpr_size(*expr),
        SExpr::Binary { left, right, .. } => 1 + sexpr_size(*left) + sexpr_size(*right),
        SExpr::Tuple(xs) => 1 + seq_size(xs),
        _ => 1,
    }
}

pub open spec fn seq_size(xs: Seq<SExpr>) -> nat
    decreases xs,
{
    if xs.len() == 0 {
        0
    } else {
        seq_size(xs.drop_last()) + sexpr_size(xs.last())
    }
}

/// A pass never makes an expression larger.
proof fn lemma_transform_size(s: SExpr)
    ensures
        sexpr_size(transform(s).0) <= sexpr_size(s),
    decreases s,
{
    match s {
        SExpr::Unary { expr, op, op_span, expr_type } => {
            lemma_transform_size(*expr);
            let (inner, _) = transform(*expr);
            assert(sexpr_size(s) == 1 + sexpr_size(*expr));
            assert(sexpr_size(SExpr::Unary { expr: Box::new(inner), op, op_span, expr_type }) == 1 + sexpr_size(inner));
            match inner {
                SExpr::Unary { expr: x, op: inner_op, .. } => {
                    assert(sexpr_size(inner) == 1 + sexpr_size(*x));
                    if inner_op == op {
                        assert(transform(s).0 == *x);
                    } else {
                        assert(transform(s).0 == SExpr::Unary { expr: Box::new(inner), op, op_span, expr_type });
                    }
                },
                _ => {
                    assert(transform(s).0 == SExpr::Unary { expr: Box::new(inner), op, op_span, expr_type });
                },
            }
        },
        SExpr::Binary { left, right, .. } => {
            lemma_transform_size(*left);
            lemma_transform_size(*right);
            let (l, _) = transform(*left);
            let (r, _) = transform(*right);
            lemma_binary_size(l, r, s->Binary_op, s->Binary_op_span, s->Binary_expr_type, transform(*left).1 || transform(*right).1);
        },
        SExpr::Tuple(xs) => {
            lemma_transform_seq_size(xs);
        },
        _ => {},
    }
}

/// The rules for a binary operation never give more nodes than the
/// operation had.
proof fn lemma_binary_size(l: SExpr, r: SExpr, op: BinaryOp, op_span: Span, expr_type: Type, modified: bool)
    ensures
        sexpr_size(transform_binary(l, r, op, op_span, expr_type, modified).0) <= 1 + sexpr_size(l) + sexpr_size(r),
{
    lemma_size_positive(l);
    lemma_size_positive(r);
    assert(sexpr_size(int_lit(2)) == 1);
    assert(sexpr_size(SExpr::Binary { left: Box::new(l), right: Box::new(int_lit(2)), op: BinaryOp::Mul, op_span: no_span(), expr_type })
        == 1 + sexpr_size(l) + 1);
    assert(sexpr_size(SExpr::Binary { left: Box::new(r), right: Box::new(l), op, op_span, expr_type })
        == 1 + sexpr_size(r) + sexpr_size(l));
    assert(sexpr_size(SExpr::Unary { expr: Box::new(r), op: UnaryOp::Neg, op_span: no_span(), expr_type })
        == 1 + sexpr_size(r));
    if let SExpr::Unary { expr: y, .. } = r {
        assert(sexpr_size(r) == 1 + sexpr_size(*y));
        assert(sexpr_size(SExpr::Binary { left: Box::new(l), right: y, op: BinaryOp::Sub, op_span, expr_type })
            == 1 + sexpr_size(l) + sexpr_size(*y));
    }
    if let SExpr::Unary { expr: x, .. } = l {
        assert(sexpr_size(l) == 1 + sexpr_size(*x));
        assert(sexpr_size(SExpr::Binary { left: Box::new(r), right: x, op: BinaryOp::Sub, op_span, expr_type })
            == 1 + sexpr_size(r) + sexpr_size(*x));
    }
}

/// Every expression has at least one node.
proof fn lemma_size_positive(s: SExpr)
    ensures
        sexpr_size(s) >= 1,
{
}

proof fn lemma_transform_seq_size(xs: Seq<SExpr>)
    ensures
        transform_seq(xs).0.len() == xs.len(),
        seq_size(transform_seq(xs).0) <= seq_size(xs),
    decreases xs,
{
    if xs.len() > 0 {
        lemma_transform_seq_size(xs.drop_last());
        lemma_transform_size(xs.last());
        let (init, _) = transform_seq(xs.drop_last());
        let (last, _) = transform(xs.last());
        assert(init.push(last).drop_last() =~= init);
    }
}

/// A pass that reports a change changes the expression: `modified` is never
/// reported for an expression given back as it was.
pub proof fn lemma_modified_changes(s: SExpr)
    ensures
        transform(s).1 ==> transform(s).0 != s,
    decreases s,
{
    match s {
        SExpr::Unary { expr, .. } => {
            lemma_modified_changes(*expr);
            lemma_transform_size(*expr);
            let (inner, _) = transform(*expr);
            if let SExpr::Unary { expr: x, .. } = inner {
                assert(sexpr_size(*x) < sexpr_size(s));
            }
        },
        SExpr::Binary { left, right, .. } => {
            lemma_modified_changes(*left);
            lemma_modified_changes(*right);
            lemma_transform_size(*left);
            lemma_transform_size(*right);
            let (l, _) = transform(*left);
            let (r, _) = transform(*right);
            assert(sexpr_size(l) < sexpr_size(s));
            assert(sexpr_size(r) < sexpr_size(s));
            if let SExpr::Unary { expr: y, .. } = r {
                assert(sexpr_size(*y) < sexpr_size(s));
            }
            if let SExpr::Unary { expr: x, .. } = l {
                assert(sexpr_size(*x) < sexpr_size(s));
            }
            if let SExpr::Literal(lit) = l {
                lemma_unmodified_is_identity(*left);
                assert(sexpr_equal(l, l));
            }
        },
        SExpr::Tuple(xs) => {
            lemma_modified_seq_changes(xs);
        },
        _ => {},
    }
}

proof fn lemma_modified_seq_changes(xs: Seq<SExpr>)
    ensures
        transform_seq(xs).1 ==> transform_seq(xs).0 != xs,
    decreases xs,
{
    if xs.len() > 0 {
        lemma_modified_seq_changes(xs.drop_last());
        lemma_modified_changes(xs.last());
        let (init, m) = transform_seq(xs.drop_last());
        let (last, ml) = transform(xs.last());
        if transform_seq(xs).1 && transform_seq(xs).0 == xs {
            assert(init.push(last).drop_last() =~= init);
            assert(xs.drop_last() =~= init);
            assert(xs.last() == last);
        }
    }
}

/// Whether `k` is a literal of the number `k` (integer or real).
pub fn is_num_literal(e: &Expr, k: i64) -> (r: bool)
    ensures
        r == is_num(expr_view(*e), k as int),
{
    match e {
        Expr::Literal(Literal::Int(x)) => *x == k,
        Expr::Literal(Literal::Real(d)) => equals_int(*d, k),
        _ => false,
    }
}

/// Whether `e` is the boolean literal `b`.
pub fn is_bool_literal(e: &Expr, b: bool) -> (r: bool)
    ensures
        r == is_bool(expr_view(*e), b),
{
    match e {
        Expr::Literal(Literal::Bool(x)) => *x == b,
        _ => false,
    }
}

pub fn binary_op_eq(a: BinaryOp, b: BinaryOp) -> (r: bool)
    ensures
        r == (a == b),
{
    a == b
}

/// Structural equality of expressions (see `sexpr_equal`).
#[verifier::loop_isolation(false)]
pub fn expr_equal(left: &Expr, right: &Expr) -> (r: bool)
    ensures
        r == sexpr_equal(expr_view(*left), expr_view(*right)),
    decreases left,
{
    match (left, right) {
        (Expr::Literal(a), Expr::Literal(b)) => literal_eq(a, b),
        (Expr::Ident(a), Expr::Ident(b)) => ident_eq(a, b),
        (Expr::Unary(a), Expr::Unary(b)) => {
            if a.op != b.op {
                return false;
            }
            expr_equal(&a.expr, &b.expr)
        }
        (Expr::Binary(a), Expr::Binary(b)) => {
            if !binary_op_eq(a.op, b.op) {
                return false;
            }
            if expr_equal(&a.left, &b.left) && expr_equal(&a.right, &b.right) {
                return true;
            }
            match a.op {
                BinaryOp::Add | BinaryOp::Mul | BinaryOp::Or | BinaryOp::And => {}
                _ => return false,
            }
            expr_equal(&a.left, &b.right) && expr_equal(&a.right, &b.left)
        }
        (Expr::Tuple(xs), Expr::Tuple(ys)) => {
            proof {
                lemma_exprs_view_len(xs@);
                lemma_exprs_view_len(ys@);
            }
            if xs.len() != ys.len() {
                return false;
            }
            let n = xs.len();
            let mut i: usize = 0;
            while i < n
                invariant
                    n <= xs.len(),
                    n <= ys.len(),
                    n == xs.len() || n == ys.len(),
                    i <= n,
                    exprs_view(xs@).len() == xs.len(),
                    exprs_view(ys@).len() == ys.len(),
                    forall|j: int| 0 <= j < xs.len() ==> exprs_view(xs@)[j] == expr_view(#[trigger] xs@[j]),
                    forall|j: int| 0 <= j < ys.len() ==> exprs_view(ys@)[j] == expr_view(#[trigger] ys@[j]),
                    forall|j: int| 0 <= j < i ==> sexpr_equal(#[trigger] exprs_view(xs@)[j], exprs_view(ys@)[j]),
                decreases n - i,
            {
                assert(xs@[i as int] == xs[i as int]);
                if !expr_equal(&xs[i], &ys[i]) {
                    assert(!sexpr_equal(exprs_view(xs@)[i as int], exprs_view(ys@)[i as int]));
                    return false;
                }
                i = i + 1;
            }
            true
        }
        _ => false,
    }
}

/// Two `let` statements bind the same name to equal expressions.
pub open spec fn statement_equal(a: Statement, b: Statement) -> bool {
    match (a, b) {
        (Statement::Let(x), Statement::Let(y)) =>
            ident_same(x.name, y.name) && sexpr_equal(expr_view(x.expr), expr_view(y.expr)),
        _ => false,
    }
}

pub fn statements_equal(left: &Statement, right: &Statement) -> (r: bool)
    ensures
        r == statement_equal(*left, *right),
{
    match (left, right) {
        (Statement::Let(x), Statement::Let(y)) => {
            if !ident_eq(&x.name, &y.name) {
                return false;
            }
            expr_equal(&x.expr, &y.expr)
        }
        _ => false,
    }
}

/// Two patterns are equal: defaults, equal literals, the same name, tuples of
/// equal patterns of the same length, or equal comparisons.
pub open spec fn pattern_equal(a: SimplePattern, b: SimplePattern) -> bool
    decreases a,
{
    match (a, b) {
        (SimplePattern::Default, SimplePattern::Default) => true,
        (SimplePattern::Literal(x), SimplePattern::Literal(y)) => literal_same(x, y),
        (SimplePattern::Ident(x), SimplePattern::Ident(y)) => ident_same(x, y),
        (SimplePattern::Tuple(xs), SimplePattern::Tuple(ys)) =>
            xs.len() == ys.len() && forall|i: int| 0 <= i < xs.len() ==> pattern_equal(#[trigger] xs@[i], ys@[i]),
        (SimplePattern::Comparison(x), SimplePattern::Comparison(y)) =>
            x.op == y.op && sexpr_equal(expr_view(*x.expr), expr_view(*y.expr)),
        _ => false,
    }
}

#[verifier::loop_isolation(false)]
pub fn simple_patterns_equal(left: &SimplePattern, right: &SimplePattern) -> (r: bool)
    ensures
        r == pattern_equal(*left, *right),
    decreases left,
{
    match (left, right) {
        (SimplePattern::Default, SimplePattern::Default) => true,
        (SimplePattern::Literal(x), SimplePattern::Literal(y)) => literal_eq(x, y),
        (SimplePattern::Ident(x), SimplePattern::Ident(y)) => ident_eq(x, y),
        (SimplePattern::Tuple(xs), SimplePattern::Tuple(ys)) => {
            if xs.len() != ys.len() {
                return false;
            }
            let n = xs.len();
            let mut i: usize = 0;
            while i < n
                invariant
                    n <= xs.len(),
                    n <= ys.len(),
                    n == xs.len() || n == ys.len(),
                    i <= n,
                    forall|j: int| 0 <= j < i ==> pattern_equal(#[trigger] xs@[j], ys@[j]),
                decreases n - i,
            {
                if !simple_patterns_equal(&xs[i], &ys[i]) {
                    assert(!pattern_equal(xs@[i as int], ys@[i as int]));
                    return false;
                }
                i = i + 1;
            }
            true
        }
        (SimplePattern::Comparison(x), SimplePattern::Comparison(y)) => {
            if x.op != y.op {
                return false;
            }
            expr_equal(&x.expr, &y.expr)
        }
        _ => false,
    }
}

/// Two arms have the same number of patterns, equal one by one, and equal results.
pub open spec fn cases_arm_equal(a: CasesArm, b: CasesArm) -> bool {
    &&& a.pattern.len() == b.pattern.len()
    &&& forall|i: int| 0 <= i < a.pattern.len() ==> pattern_equal(#[trigger] a.pattern@[i], b.pattern@[i])
    &&& sexpr_equal(expr_view(a.expr), expr_view(b.expr))
}

#[verifier::loop_isolation(false)]
pub fn cases_arms_equal(left: &CasesArm, right: &CasesArm) -> (r: bool)
    ensures
        r == cases_arm_equal(*left, *right),
{
    let xs = &left.pattern;
    let ys = &right.pattern;
    if xs.len() != ys.len() {
        return false;
    }
    let n = xs.len();
    let mut i: usize = 0;
    while i < n
        invariant
            n <= xs.len(),
            n <= ys.len(),
            n == xs.len() || n == ys.len(),
            i <= n,
            forall|j: int| 0 <= j < i ==> pattern_equal(#[trigger] xs@[j], ys@[j]),
        decreases n - i,
    {
        if !simple_patterns_equal(&xs[i], &ys[i]) {
            assert(!pattern_equal(xs@[i as int], ys@[i as int]));
            return false;
        }
        i = i + 1;
    }
    expr_equal(&left.expr, &right.expr)
}

fn int_literal(k: i64) -> (e: Expr)
    ensures
        expr_view(e) == int_lit(k),
{
    Expr::Literal(Literal::Int(k))
}

fn make_binary(left: Expr, right: Expr, op: BinaryOp, op_span: Span, expr_type: Type) -> (e: Expr)
    ensures
        expr_view(e) == (SExpr::Binary {
            left: Box::new(expr_view(left)),
            right: Box::new(expr_view(right)),
            op,
            op_span,
            expr_type,
        }),
{
    Expr::Binary(BinaryExpr { left: Box::new(left), right: Box::new(right), op, op_span, expr_type })
}

/// The rules for `l op r` once `l` and `r` are simplified (see `transform_binary`).
fn transform_binary_exec(l: Expr, r: Expr, op: BinaryOp, op_span: Span, expr_type: Type, modified: bool) -> (res: (Expr, bool))
    ensures
        expr_view(res.0) == transform_binary(expr_view(l), expr_view(r), op, op_span, expr_type, modified).0,
        res.1 == transform_binary(expr_view(l), expr_view(r), op, op_span, expr_type, modified).1,
{
    let zero_span = Span { line: 0, col: 0 };
    match op {
        BinaryOp::Add => {
            if is_num_literal(&l, 0) {
                return (r, true);
            }
            if is_num_literal(&r, 0) {
                return (l, true);
            }
            if expr_equal(&l, &r) {
                return (make_binary(l, int_literal(2), BinaryOp::Mul, zero_span, expr_type), true);
            }
            match r {
                Expr::Unary(u) if u.op == UnaryOp::Neg => {
                    if expr_equal(&l, &u.expr) {
                        (int_literal(0), true)
                    } else {
                        (make_binary(l, *u.expr, BinaryOp::Sub, op_span, expr_type), true)
                    }
                }
                r => match l {
                    Expr::Unary(u) if u.op == UnaryOp::Neg => {
                        if expr_equal(&r, &u.expr) {
                            (int_literal(0), true)
                        } else {
                            (make_binary(r, *u.expr, BinaryOp::Sub, op_span, expr_type), true)
                        }
                    }
                    Expr::Literal(lit) => (make_binary(r, Expr::Literal(lit), op, op_span, expr_type), true),
                    l => (make_binary(l, r, op, op_span, expr_type), modified),
                },
            }
        }
        BinaryOp::Sub => {
            if expr_equal(&l, &r) {
                (int_literal(0), true)
            } else if is_num_literal(&l, 0) {
                (Expr::Unary(UnaryExpr { expr: Box::new(r), op: UnaryOp::Neg, op_span: zero_span, expr_type }), true)
            } else if is_num_literal(&r, 0) {
                (l, true)
            } else {
                (make_binary(l, r, op, op_span, expr_type), modified)
            }
        }
        BinaryOp::Mul => {
            if is_num_literal(&l, 0) || is_num_literal(&r, 0) {
                (int_literal(0), true)
            } else if is_num_literal(&l, 1) {
                (r, true)
            } else if is_num_literal(&r, 1) {
                (l, true)
            } else {
                (make_binary(l, r, op, op_span, expr_type), modified)
            }
        }
        BinaryOp::Div => {
            if is_num_literal(&l, 0) {
                (int_literal(0), true)
            } else if is_num_literal(&r, 1) {
                (l, true)
            } else if expr_equal(&l, &r) {
                (int_literal(1), true)
            } else {
                (make_binary(l, r, op, op_span, expr_type), modified)
            }
        }
        BinaryOp::Pow => {
            if is_num_literal(&r, 0) || is_num_literal(&l, 1) {
                (int_literal(1), true)
            } else if is_num_literal(&r, 1) {
                (l, true)
            } else {
                (make_binary(l, r, op, op_span, expr_type), modified)
            }
        }
        BinaryOp::And => {
            if expr_equal(&l, &r) {
                (l, true)
            } else if is_bool_literal(&l, true) {
                (r, true)
            } else if is_bool_literal(&r, true) {
                (l, true)
            } else if is_bool_literal(&l, false) || is_bool_literal(&r, false) {
                (Expr::Literal(Literal::Bool(false)), true)
            } else {
                (make_binary(l, r, op, op_span, expr_type), modified)
            }
        }
        BinaryOp::Or => {
            if expr_equal(&l, &r) {
                (l, true)
            } else if is_bool_literal(&l, true) || is_bool_literal(&r, true) {
                (Expr::Literal(Literal::Bool(true)), true)
            } else if is_bool_literal(&l, false) {
                (r, true)
            } else if is_bool_literal(&r, false) {
                (l, true)
            } else {
                (make_binary(l, r, op, op_span, expr_type), modified)
            }
        }
        _ => (make_binary(l, r, op, op_span, expr_type), modified),
    }
}

/// One bottom-up pass of algebraic simplification: the simplified expression
/// and whether anything changed (see `transform`).
pub fn algebraic_transform(expr: Expr) -> (r: (Expr, bool))
    ensures
        expr_view(r.0) == transform(expr_view(expr)).0,
        r.1 == transform(expr_view(expr)).1,
    decreases expr,
{
    match expr {
        Expr::Unary(unary) => {
            let UnaryExpr { expr: inner, op, op_span, expr_type } = unary;
            let (inner, modified) = algebraic_transform(*inner);
            match inner {
                Expr::Unary(inner_unary) if inner_unary.op == op => (*inner_unary.expr, true),
                inner => (Expr::Unary(UnaryExpr { expr: Box::new(inner), op, op_span, expr_type }), modified),
            }
        }
        Expr::Binary(binary) => {
            let BinaryExpr { left, right, op, op_span, expr_type } = binary;
            let (l, ml) = algebraic_transform(*left);
            let (r, mr) = algebraic_transform(*right);
            transform_binary_exec(l, r, op, op_span, expr_type, ml || mr)
        }
        Expr::Tuple(xs) => {
            let ghost orig = xs@;
            let ghost sv = exprs_view(orig);
            proof {
                lemma_exprs_view_len(orig);
            }
            let n = xs.len();
            let mut rest = xs;
            let mut out: Vec<Expr> = Vec::new();
            let mut modified = false;
            let mut i: usize = 0;
            assert(sv.take(0) =~= Seq::<SExpr>::empty());
            while i < n
                invariant
                    n == orig.len(),
                    i <= n,
                    rest@.len() == n - i,
                    forall|j: int| 0 <= j < rest@.len() ==> rest@[j] == orig[i + j],
                    sv == exprs_view(orig),
                    sv.len() == orig.len(),
                    forall|j: int| 0 <= j < orig.len() ==> sv[j] == expr_view(#[trigger] orig[j]),
                    exprs_view(out@) == transform_seq(sv.take(i as int)).0,
                    modified == transform_seq(sv.take(i as int)).1,
                    expr == Expr::Tuple(xs),
                    xs@ == orig,
                decreases n - i,
            {
                let e = rest.remove(0);
                assert(e == orig[i as int]);
                proof {
                    let ghost v = expr->Tuple_0;
                    assert(decreases_to!(expr => v));
                    assert(decreases_to!(v => v@));
                    assert(decreases_to!(v@ => v@[i as int]));
                    assert(decreases_to!(expr => e));
                }
                let (t, m) = algebraic_transform(e);
                let ghost prev = out@;
                out.push(t);
                assert(out@.drop_last() =~= prev);
                assert(sv.take(i + 1).drop_last() =~= sv.take(i as int));
                modified = modified || m;
                i = i + 1;
            }
            assert(sv.take(n as int) =~= sv);
            (Expr::Tuple(out), modified)
        }
        other => (other, false),
    }
}

} // verus!
