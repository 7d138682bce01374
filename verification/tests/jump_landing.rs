use loi_compiler::ast::{
    BinaryExpr, BinaryOp, CasesArm, CasesExpr, CompOp, ComparisonPattern, Expr, Ident, Literal, Prob, SampleArm,
    SampleExpr, SimplePattern,
};
use loi_compiler::diagnostics::{Diagnostics, Span};
use loi_compiler::ir::{get_num_bytes, instruction_num_bytes, lower_ir, Instruction};
use loi_compiler::rel_compiler::RelCompiler;
use loi_compiler::token::Decimal;
use loi_compiler::types::{Symbol, SymbolKind, Type};

fn span0() -> Span {
    Span { line: 0, col: 0 }
}

fn sym(name: &str, kind: SymbolKind) -> Symbol {
    Symbol { name: name.to_string(), kind, span: span0() }
}

fn ident(id: usize) -> Expr {
    Expr::Ident(Ident::Symbol(id))
}

fn int_lit(i: i64) -> Expr {
    Expr::Literal(Literal::Int(i))
}

fn literal_pattern(i: i64) -> SimplePattern {
    SimplePattern::Literal(Literal::Int(i))
}

fn offset_of(i: &Instruction) -> Option<i16> {
    match i {
        Instruction::JMP { offset }
        | Instruction::IJEQ { offset, .. }
        | Instruction::IJNE { offset, .. }
        | Instruction::IJLT { offset, .. }
        | Instruction::IJGT { offset, .. }
        | Instruction::IJLE { offset, .. }
        | Instruction::IJGE { offset, .. }
        | Instruction::FJEQ { offset, .. }
        | Instruction::FJNE { offset, .. }
        | Instruction::FJLT { offset, .. }
        | Instruction::FJGT { offset, .. }
        | Instruction::FJLE { offset, .. }
        | Instruction::FJGE { offset, .. } => Some(*offset),
        _ => None,
    }
}

/// Every jump lands on an instruction boundary within the code, or at its end.
fn assert_jumps_land(code: &[Instruction]) {
    let mut bounds = vec![0usize];
    for inst in code {
        let last = *bounds.last().unwrap();
        bounds.push(last + instruction_num_bytes(inst));
    }
    for (k, inst) in code.iter().enumerate() {
        if let Some(offset) = offset_of(inst) {
            let target = bounds[k + 1] + offset as u16 as usize;
            assert!(bounds.contains(&target), "jump {} lands at byte {}, inside an instruction", k, target);
        }
    }
}

fn coin_cases(scrutinee: Expr) -> Expr {
    Expr::Cases(CasesExpr {
        scrutinee: Box::new(scrutinee),
        arms: vec![
            CasesArm {
                pattern: vec![
                    SimplePattern::Tuple(vec![literal_pattern(1), literal_pattern(2)]),
                    SimplePattern::Tuple(vec![
                        SimplePattern::Comparison(ComparisonPattern { op: CompOp::Lt, expr: Box::new(int_lit(0)) }),
                        literal_pattern(4),
                    ]),
                ],
                expr: int_lit(1),
                arm_span: span0(),
            },
            CasesArm {
                pattern: vec![SimplePattern::Tuple(vec![literal_pattern(5), SimplePattern::Default])],
                expr: int_lit(2),
                arm_span: span0(),
            },
            CasesArm { pattern: vec![SimplePattern::Default], expr: int_lit(3), arm_span: span0() },
        ],
        expr_type: Type::Int,
        span: span0(),
    })
}

fn sample_of(arms: Vec<(Prob, Expr)>) -> Expr {
    Expr::Sample(SampleExpr {
        arms: arms.into_iter().map(|(prob, expr)| SampleArm { prob, expr, arm_span: span0() }).collect(),
        expr_type: Type::Int,
        span: span0(),
    })
}

fn half() -> Prob {
    Prob::Expr(Expr::Literal(Literal::Real(Decimal { mantissa: 5, scale: 1 })))
}

#[test]
fn cases_jumps_land() {
    let symbol_table = vec![sym("a", SymbolKind::Variable(Type::Int)), sym("b", SymbolKind::Variable(Type::Int))];
    let mut compiler = RelCompiler::new(0, &symbol_table, Diagnostics::new());
    compiler.bind_variable(0, 0);
    compiler.bind_variable(1, 1);
    let scrutinee = Expr::Tuple(vec![
        ident(0),
        Expr::Binary(BinaryExpr {
            left: Box::new(ident(1)),
            right: Box::new(int_lit(2)),
            op: BinaryOp::Mul,
            op_span: span0(),
            expr_type: Type::Int,
        }),
    ]);
    let (code, _, _) = compiler.compile_expr(coin_cases(scrutinee)).unwrap();
    assert_jumps_land(&code);
}

#[test]
fn sample_jumps_land() {
    let symbol_table: Vec<Symbol> = Vec::new();
    let mut compiler = RelCompiler::new(0, &symbol_table, Diagnostics::new());
    let expr = sample_of(vec![(half(), int_lit(3)), (half(), int_lit(4)), (Prob::Default, int_lit(5))]);
    let (code, _, _) = compiler.compile_expr(expr).unwrap();
    assert_jumps_land(&code);
}

#[test]
fn nested_jumps_land() {
    // a sample whose arm is a cases whose arm is a sample
    let symbol_table = vec![sym("a", SymbolKind::Variable(Type::Int))];
    let mut compiler = RelCompiler::new(0, &symbol_table, Diagnostics::new());
    compiler.bind_variable(0, 0);
    let inner = sample_of(vec![(half(), int_lit(7)), (Prob::Default, int_lit(8))]);
    let cases = Expr::Cases(CasesExpr {
        scrutinee: Box::new(ident(0)),
        arms: vec![
            CasesArm { pattern: vec![literal_pattern(1), literal_pattern(2)], expr: inner, arm_span: span0() },
            CasesArm { pattern: vec![SimplePattern::Default], expr: int_lit(9), arm_span: span0() },
        ],
        expr_type: Type::Int,
        span: span0(),
    });
    let expr = sample_of(vec![(half(), cases), (Prob::Default, int_lit(4))]);
    let (code, _, _) = compiler.compile_expr(expr).unwrap();
    assert_jumps_land(&code);
}

#[test]
fn encoded_length_is_code_size() {
    let symbol_table: Vec<Symbol> = Vec::new();
    let mut compiler = RelCompiler::new(0, &symbol_table, Diagnostics::new());
    let expr = sample_of(vec![(half(), int_lit(3)), (Prob::Default, int_lit(4))]);
    let (code, _, _) = compiler.compile_expr(expr).unwrap();
    let size = get_num_bytes(&code);
    let (bytes, _) = lower_ir(code);
    assert_eq!(bytes.len(), size);
}
