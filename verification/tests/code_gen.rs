use loi_compiler::ast::{BinaryExpr, BinaryOp, Expr, Ident, Literal, RelType, UnaryExpr, UnaryOp};
use loi_compiler::code_gen::{optimize_expr, CodeGen};
use loi_compiler::compiled_rel::write_immediate;
use loi_compiler::diagnostics::{Diagnostics, Span};
use loi_compiler::types::{Symbol, SymbolKind, Type};

fn span0() -> Span {
    Span { line: 0, col: 0 }
}

fn binary(left: Expr, right: Expr, op: BinaryOp) -> Expr {
    Expr::Binary(BinaryExpr { left: Box::new(left), right: Box::new(right), op, op_span: span0(), expr_type: Type::Int })
}

fn neg(expr: Expr) -> Expr {
    Expr::Unary(UnaryExpr { expr: Box::new(expr), op: UnaryOp::Neg, op_span: span0(), expr_type: Type::Int })
}

fn ident(id: usize) -> Expr {
    Expr::Ident(Ident::Symbol(id))
}

fn int_lit(i: i64) -> Expr {
    Expr::Literal(Literal::Int(i))
}

#[test]
fn optimize_reaches_a_fixed_point() {
    // (x * 1) + -(-0) simplifies over several passes to x
    let expr = binary(binary(ident(0), int_lit(1), BinaryOp::Mul), neg(neg(int_lit(0))), BinaryOp::Add);
    assert_eq!(optimize_expr(expr), ident(0));
}

#[test]
fn optimize_leaves_simple_expressions() {
    let expr = || binary(ident(0), ident(1), BinaryOp::Sub);
    assert_eq!(optimize_expr(expr()), expr());
}

#[test]
fn optimize_stops_on_swapping_operands() {
    // `1 + 2` has its operands swapped by every pass; the passes are bounded
    let result = optimize_expr(binary(int_lit(1), int_lit(2), BinaryOp::Add));
    assert!(result == binary(int_lit(1), int_lit(2), BinaryOp::Add) || result == binary(int_lit(2), int_lit(1), BinaryOp::Add));
}

fn rel_symbol(name: &str) -> Symbol {
    Symbol { name: name.to_string(), kind: SymbolKind::Rel_t { input_types: vec![], return_type: Type::Int }, span: span0() }
}

#[test]
fn code_gen_compiles_each_relation_in_order() {
    let symbols = vec![rel_symbol("ONE"), rel_symbol("TWO")];
    let one = RelType { name: Ident::Symbol(0), params: vec![], return_type: Type::Int, body: int_lit(1) };
    // the body `2 + 0` is simplified to `2` before it is compiled
    let two = RelType {
        name: Ident::Symbol(1),
        params: vec![],
        return_type: Type::Int,
        body: binary(int_lit(2), int_lit(0), BinaryOp::Add),
    };
    let code_gen = CodeGen::new(vec![one, two]);
    let mut diagnostics = Diagnostics::new();
    let compiled = code_gen.compile(&symbols, &mut diagnostics);
    assert!(!diagnostics.has_errors());
    assert_eq!(compiled.len(), 2);
    assert_eq!(compiled[0].name, "ONE");
    assert_eq!(compiled[1].name, "TWO");
    // the relation returns the immediate 2: its eight bytes end the code
    assert_eq!(compiled[1].bytecode[compiled[1].bytecode.len() - 8..], 2i64.to_le_bytes());
}

#[test]
fn code_gen_leaves_out_relations_that_do_not_compile() {
    let symbols = vec![rel_symbol("ONE")];
    // the relation's symbol is not in the table
    let lost = RelType { name: Ident::Symbol(5), params: vec![], return_type: Type::Int, body: int_lit(1) };
    let one = RelType { name: Ident::Symbol(0), params: vec![], return_type: Type::Int, body: int_lit(1) };
    let mut diagnostics = Diagnostics::new();
    let compiled = CodeGen::new(vec![lost, one]).compile(&symbols, &mut diagnostics);
    assert_eq!(compiled.len(), 1);
    assert_eq!(compiled[0].name, "ONE");
}

#[test]
fn write_immediate_little_endian() {
    let mut bytes = vec![0xaau8; 12];
    write_immediate(&mut bytes, 2, 0x0807_0605_0403_0201);
    assert_eq!(bytes, vec![0xaa, 0xaa, 1, 2, 3, 4, 5, 6, 7, 8, 0xaa, 0xaa]);
    let mut bits = vec![0u8; 8];
    write_immediate(&mut bits, 0, 1.5f64.to_bits());
    assert_eq!(bits, 1.5f64.to_le_bytes().to_vec());
}
