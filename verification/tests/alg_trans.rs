use loi_compiler::alg_trans::{algebraic_transform, expr_equal};
use loi_compiler::ast::{BinaryExpr, BinaryOp, Expr, Ident, Literal, UnaryExpr, UnaryOp};
use loi_compiler::diagnostics::Span;
use loi_compiler::token::Decimal;
use loi_compiler::types::Type;

fn span0() -> Span {
    Span { line: 0, col: 0 }
}

fn unary(expr: Expr, op: UnaryOp, expr_type: Type) -> Expr {
    Expr::Unary(UnaryExpr { expr: Box::new(expr), op, op_span: span0(), expr_type })
}

fn binary(left: Expr, right: Expr, op: BinaryOp, expr_type: Type) -> Expr {
    Expr::Binary(BinaryExpr { left: Box::new(left), right: Box::new(right), op, op_span: span0(), expr_type })
}

fn int_lit(i: i64) -> Expr {
    Expr::Literal(Literal::Int(i))
}

/// The real literal `mantissa / 10^scale`.
fn real_lit(mantissa: i64, scale: u32) -> Expr {
    Expr::Literal(Literal::Real(Decimal { mantissa, scale }))
}

fn bool_lit(b: bool) -> Expr {
    Expr::Literal(Literal::Bool(b))
}

fn ident(id: usize) -> Expr {
    Expr::Ident(Ident::Symbol(id))
}

fn transformed(expr: Expr) -> Expr {
    let (result, _modified) = algebraic_transform(expr);
    result
}

#[test]
fn equal_binary_1() {
    // x + 3 against 3.0 + x
    let left = binary(ident(0), int_lit(3), BinaryOp::Add, Type::Int);
    let right = binary(real_lit(30, 1), ident(0), BinaryOp::Add, Type::Int);
    assert!(expr_equal(&left, &right));
}

#[test]
fn equal_binary_2() {
    // x - 3 against 3.0 - x
    let left = binary(ident(0), int_lit(3), BinaryOp::Sub, Type::Int);
    let right = binary(real_lit(30, 1), ident(0), BinaryOp::Sub, Type::Int);
    assert!(!expr_equal(&left, &right));
}

#[test]
fn algebraic_trans_unary_cancel() {
    // -(-x)
    let expr = unary(unary(ident(0), UnaryOp::Neg, Type::Int), UnaryOp::Neg, Type::Int);
    assert_eq!(transformed(expr), ident(0));
}

#[test]
fn alg_trans_unary_cancel() {
    // -(-x)
    let expr = unary(unary(ident(0), UnaryOp::Neg, Type::Int), UnaryOp::Neg, Type::Int);
    assert_eq!(transformed(expr), ident(0));
}

#[test]
fn algebraic_trans_binary_add_1() {
    // x + 0
    let expr = binary(ident(0), int_lit(0), BinaryOp::Add, Type::Int);
    assert_eq!(transformed(expr), ident(0));
}

#[test]
fn binary_add() {
    // x + 0
    let expr = binary(ident(0), int_lit(0), BinaryOp::Add, Type::Int);
    assert_eq!(transformed(expr), ident(0));
}

#[test]
fn binary_add_2() {
    // x + (-x)
    let expr = binary(ident(0), unary(ident(0), UnaryOp::Neg, Type::Int), BinaryOp::Add, Type::Int);
    assert_eq!(transformed(expr), int_lit(0));
}

#[test]
fn binary_add_3() {
    // x + (-y) -> x - y
    let expr = binary(ident(0), unary(ident(1), UnaryOp::Neg, Type::Int), BinaryOp::Add, Type::Int);
    assert_eq!(transformed(expr), binary(ident(0), ident(1), BinaryOp::Sub, Type::Int));
}

#[test]
fn binary_add_4() {
    // (-x) + y -> y - x
    let expr = binary(unary(ident(1), UnaryOp::Neg, Type::Int), ident(0), BinaryOp::Add, Type::Int);
    assert_eq!(transformed(expr), binary(ident(0), ident(1), BinaryOp::Sub, Type::Int));
}

#[test]
fn binary_add_5() {
    // x + x -> x * 2
    let expr = binary(ident(0), ident(0), BinaryOp::Add, Type::Real);
    assert_eq!(transformed(expr), binary(ident(0), int_lit(2), BinaryOp::Mul, Type::Real));
}

#[test]
fn binary_add_8() {
    // 1 + x -> x + 1
    let expr = binary(int_lit(1), ident(0), BinaryOp::Add, Type::Int);
    assert_eq!(transformed(expr), binary(ident(0), int_lit(1), BinaryOp::Add, Type::Int));
}

#[test]
fn algebraic_trans_binary_sub_1() {
    // -(0.0 - x)
    let expr = unary(binary(real_lit(0, 1), ident(0), BinaryOp::Sub, Type::Real), UnaryOp::Neg, Type::Real);
    assert_eq!(transformed(expr), ident(0));
}

#[test]
fn alg_trans_binary_sub_1() {
    // -(0.0 - x)
    let expr = unary(binary(real_lit(0, 1), ident(0), BinaryOp::Sub, Type::Real), UnaryOp::Neg, Type::Real);
    assert_eq!(transformed(expr), ident(0));
}

#[test]
fn binary_sub_2() {
    // 3*x - 3*x
    let three_x = || binary(int_lit(3), ident(0), BinaryOp::Mul, Type::Int);
    let expr = binary(three_x(), three_x(), BinaryOp::Sub, Type::Int);
    assert_eq!(transformed(expr), int_lit(0));
}

#[test]
fn algebraic_trans_mul_zero() {
    // x * 0
    let expr = binary(ident(0), int_lit(0), BinaryOp::Mul, Type::Int);
    assert_eq!(transformed(expr), int_lit(0));
}

#[test]
fn alg_trans_mul_zero() {
    // x * 0
    let expr = binary(ident(0), int_lit(0), BinaryOp::Mul, Type::Int);
    assert_eq!(transformed(expr), int_lit(0));
}

#[test]
fn algebraic_trans_zero_div() {
    // 0 / x
    let expr = binary(int_lit(0), ident(0), BinaryOp::Div, Type::Int);
    assert_eq!(transformed(expr), int_lit(0));
}

#[test]
fn alg_trans_zero_div() {
    // 0 / x
    let expr = binary(int_lit(0), ident(0), BinaryOp::Div, Type::Int);
    assert_eq!(transformed(expr), int_lit(0));
}

#[test]
fn leaves_and_reports_unchanged() {
    // x - y is left as it is, and reported unmodified
    let expr = || binary(ident(0), ident(1), BinaryOp::Sub, Type::Int);
    let (result, modified) = algebraic_transform(expr());
    assert_eq!(result, expr());
    assert!(!modified);
}

#[test]
fn reports_modified() {
    let (_, modified) = algebraic_transform(binary(ident(0), int_lit(0), BinaryOp::Add, Type::Int));
    assert!(modified);
}

#[test]
fn mul_one_and_div_one() {
    assert_eq!(transformed(binary(ident(0), int_lit(1), BinaryOp::Mul, Type::Int)), ident(0));
    assert_eq!(transformed(binary(ident(0), int_lit(1), BinaryOp::Div, Type::Int)), ident(0));
}

#[test]
fn boolean_identities() {
    // x & x -> x, x | false -> x
    assert_eq!(transformed(binary(ident(0), ident(0), BinaryOp::And, Type::Bool)), ident(0));
    assert_eq!(transformed(binary(ident(0), bool_lit(false), BinaryOp::Or, Type::Bool)), ident(0));
}

#[test]
fn structural_equality_is_reflexive() {
    let e = binary(unary(ident(2), UnaryOp::Neg, Type::Int), int_lit(7), BinaryOp::Mul, Type::Int);
    assert!(expr_equal(&e, &e));
    assert!(!expr_equal(&e, &ident(2)));
}

#[test]
fn reals_are_equal_by_value_whatever_their_form() {
    // 1.0 and 1.00
    assert!(expr_equal(&real_lit(10, 1), &real_lit(100, 2)));
    // 0.5 and 0.50, but not 0.05
    assert!(expr_equal(&real_lit(5, 1), &real_lit(50, 2)));
    assert!(!expr_equal(&real_lit(5, 1), &real_lit(5, 2)));
}

#[test]
fn sum_of_equal_reals_in_different_forms_doubles() {
    // 1.0 + 1.00 is seen as x + x
    let sum = binary(real_lit(10, 1), real_lit(100, 2), BinaryOp::Add, Type::Real);
    let (result, modified) = algebraic_transform(sum);
    assert!(modified);
    match result {
        Expr::Binary(b) => {
            assert_eq!(b.op, BinaryOp::Mul);
            assert_eq!(*b.left, real_lit(10, 1));
            assert_eq!(*b.right, int_lit(2));
        },
        other => panic!("expected a product, got {:?}", other),
    }
}

#[test]
fn a_reported_change_is_a_change() {
    let exprs = vec![
        binary(ident(0), int_lit(1), BinaryOp::Mul, Type::Int),
        binary(int_lit(1), int_lit(2), BinaryOp::Add, Type::Int),
        unary(unary(ident(0), UnaryOp::Neg, Type::Int), UnaryOp::Neg, Type::Int),
        binary(ident(0), ident(1), BinaryOp::Sub, Type::Int),
    ];
    for e in exprs {
        let copy = clone_expr(&e);
        let (result, modified) = algebraic_transform(e);
        if modified {
            assert_ne!(result, copy);
        } else {
            assert_eq!(result, copy);
        }
    }
}

fn clone_expr(e: &Expr) -> Expr {
    match e {
        Expr::Literal(l) => Expr::Literal(l.clone()),
        Expr::Ident(Ident::Symbol(id)) => ident(*id),
        Expr::Unary(u) => unary(clone_expr(&u.expr), u.op.clone(), u.expr_type.clone()),
        Expr::Binary(b) => binary(clone_expr(&b.left), clone_expr(&b.right), b.op.clone(), b.expr_type.clone()),
        _ => panic!("not used here"),
    }
}

#[test]
fn tuples_of_different_lengths_are_not_equal() {
    let one = Expr::Tuple(vec![int_lit(1)]);
    let two = Expr::Tuple(vec![int_lit(1), int_lit(2)]);
    assert!(!expr_equal(&one, &two));
    assert!(!expr_equal(&two, &one));
    assert!(expr_equal(&two, &Expr::Tuple(vec![int_lit(1), int_lit(2)])));
}
