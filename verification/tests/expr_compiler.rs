use loi_compiler::ast::{
    BinaryExpr, BinaryOp, BlockExpr, CasesArm, CasesExpr, CompOp, ComparisonPattern, Expr, Ident, LetStatement,
    Literal, Prob, SampleArm, SampleExpr, SimplePattern, Statement, UnaryExpr, UnaryOp,
};
use loi_compiler::diagnostics::{Diagnostics, Span};
use loi_compiler::ir::{Instruction, Source};
use loi_compiler::rel_compiler::RelCompiler;
use loi_compiler::token::Decimal;
use loi_compiler::types::{Symbol, SymbolKind, Type};

fn span0() -> Span {
    Span { line: 0, col: 0 }
}

fn sym(name: &str, kind: SymbolKind) -> Symbol {
    Symbol { name: name.to_string(), kind, span: span0() }
}

/// The exact decimal `mantissa / 10^scale`.
fn dec(mantissa: i64, scale: u32) -> Decimal {
    Decimal { mantissa, scale }
}

fn one() -> Source {
    Source::Float(dec(1, 0))
}

fn unary(expr: Expr, op: UnaryOp, expr_type: Type) -> Expr {
    Expr::Unary(UnaryExpr { expr: Box::new(expr), op, op_span: span0(), expr_type })
}

fn binary(left: Expr, right: Expr, op: BinaryOp, expr_type: Type) -> Expr {
    Expr::Binary(BinaryExpr { left: Box::new(left), right: Box::new(right), op, op_span: span0(), expr_type })
}

fn int_lit(i: i64) -> Expr {
    Expr::Literal(Literal::Int(i))
}

fn ident(id: usize) -> Expr {
    Expr::Ident(Ident::Symbol(id))
}

fn coin_symbols() -> Vec<Symbol> {
    vec![
        sym("coin", SymbolKind::EntType),
        sym("H", SymbolKind::EntMember { parent: 0, mapping: 0 }),
        sym("T", SymbolKind::EntMember { parent: 0, mapping: 1 }),
    ]
}

fn check_literal_expr() {
    let symbol_table: Vec<Symbol> = Vec::new();
    let mut compiler = RelCompiler::new(0, &symbol_table, Diagnostics::new());
    let ir = compiler.compile_expr(int_lit(3));
    assert_eq!(ir, Some((vec![], Source::Int(3), Type::Int)));
}

#[test]
fn literal_expr_1() {
    check_literal_expr();
}

#[test]
fn literal_expr() {
    check_literal_expr();
}

#[test]
fn literal_expr_2() {
    // T, the second member of ent_t coin = {H, T};
    let symbol_table = coin_symbols();
    let mut compiler = RelCompiler::new(1, &symbol_table, Diagnostics::new());
    let ir = compiler.compile_expr(ident(2));
    assert_eq!(ir, Some((vec![], Source::Int(1), Type::Custom(Ident::Symbol(0)))));
}

fn check_ident_expr() {
    let symbol_table = vec![sym("", SymbolKind::Variable(Type::Int))];
    let mut compiler = RelCompiler::new(1, &symbol_table, Diagnostics::new());
    compiler.bind_variable(0, 0);
    let ir = compiler.compile_expr(ident(0));
    assert_eq!(ir, Some((vec![], Source::RegVar(0), Type::Int)));
}

#[test]
fn ident_expr_1() {
    check_ident_expr();
}

#[test]
fn ident_expr() {
    check_ident_expr();
}

#[test]
fn ident_expr_2() {
    // c, of type ent_t coin = {H, T};
    let mut symbol_table = coin_symbols();
    symbol_table.push(sym("c", SymbolKind::Variable(Type::Custom(Ident::Symbol(0)))));
    let mut compiler = RelCompiler::new(1, &symbol_table, Diagnostics::new());
    compiler.bind_variable(3, 0);
    let ir = compiler.compile_expr(ident(3));
    assert_eq!(ir, Some((vec![], Source::RegVar(0), Type::Custom(Ident::Symbol(0)))));
}

fn check_unary_expr_1() {
    // -(3)
    let symbol_table: Vec<Symbol> = Vec::new();
    let mut compiler = RelCompiler::new(0, &symbol_table, Diagnostics::new());
    let ir = compiler.compile_expr(unary(int_lit(3), UnaryOp::Neg, Type::Int));
    assert_eq!(ir, Some((vec![
        Instruction::IMUL { dest: 0, src1: Source::Int(3), src2: Source::Int(-1) },
    ], Source::RegInter(0), Type::Int)));
}

#[test]
fn expr_compiler_unary_expr_1() {
    check_unary_expr_1();
}

#[test]
fn rel_compiler_unary_expr_1() {
    check_unary_expr_1();
}

fn check_unary_expr_2() {
    // ~(false)
    let symbol_table: Vec<Symbol> = Vec::new();
    let mut compiler = RelCompiler::new(0, &symbol_table, Diagnostics::new());
    let ir = compiler.compile_expr(unary(Expr::Literal(Literal::Bool(false)), UnaryOp::BitNot, Type::Bool));
    assert_eq!(ir, Some((vec![
        Instruction::NOT { dest: 0, src: Source::Bool(false) },
    ], Source::RegInter(0), Type::Bool)));
}

#[test]
fn expr_compiler_unary_expr_2() {
    check_unary_expr_2();
}

#[test]
fn rel_compiler_unary_expr_2() {
    check_unary_expr_2();
}

fn check_unary_expr_3() {
    // ~(x) where x is an impulse
    let symbol_table = vec![sym("", SymbolKind::Variable(Type::Impulse))];
    let mut compiler = RelCompiler::new(0, &symbol_table, Diagnostics::new());
    compiler.bind_variable(0, 1);
    compiler.reserve_reg(0); // the timestep
    let ir = compiler.compile_expr(unary(ident(0), UnaryOp::BitNot, Type::Bool));
    assert_eq!(ir, Some((vec![
        Instruction::INE { dest: 2, src1: Source::RegVar(1), src2: Source::RegInter(0) },
    ], Source::RegInter(2), Type::Bool)));
}

#[test]
fn expr_compiler_unary_expr_3() {
    check_unary_expr_3();
}

#[test]
fn rel_compiler_unary_expr_3() {
    check_unary_expr_3();
}

fn check_binary_add_1() {
    // -(3.0) + -(a)
    let symbol_table = vec![sym("", SymbolKind::Variable(Type::Int))];
    let mut compiler = RelCompiler::new(0, &symbol_table, Diagnostics::new());
    compiler.bind_variable(0, 0);
    let ir = compiler.compile_expr(binary(
        unary(Expr::Literal(Literal::Real(dec(30, 1))), UnaryOp::Neg, Type::Real),
        unary(ident(0), UnaryOp::Neg, Type::Int),
        BinaryOp::Add,
        Type::Real,
    ));
    assert_eq!(ir, Some((vec![
        Instruction::FMUL { dest: 1, src1: Source::Float(dec(30, 1)), src2: Source::Float(dec(-1, 0)) },
        Instruction::IMUL { dest: 2, src1: Source::RegVar(0), src2: Source::Int(-1) },
        Instruction::I2F { dest: 2, src: Source::RegInter(2) },
        Instruction::FADD { dest: 1, src1: Source::RegInter(1), src2: Source::RegInter(2) },
    ], Source::RegInter(1), Type::Real)));
    assert_eq!(compiler.is_used(0), true);
    assert_eq!(compiler.is_used(1), true);
    assert_eq!(compiler.is_used(2), false);
}

#[test]
fn expr_compiler_binary_add_1() {
    check_binary_add_1();
}

#[test]
fn rel_compiler_binary_add_1() {
    check_binary_add_1();
}

fn check_binary_div_1() {
    // 3 ^ a, a modulo 10
    let symbol_table = vec![sym("", SymbolKind::Variable(Type::Mod(10)))];
    let mut compiler = RelCompiler::new(0, &symbol_table, Diagnostics::new());
    compiler.bind_variable(0, 1);
    compiler.reserve_reg(0);
    let ir = compiler.compile_expr(binary(int_lit(3), ident(0), BinaryOp::Pow, Type::Int));
    assert_eq!(ir, Some((vec![
        Instruction::IMOD { dest: 2, src1: Source::RegVar(1), src2: Source::Int(10) },
        Instruction::IPOW { dest: 2, src1: Source::Int(3), src2: Source::RegInter(2) },
    ], Source::RegInter(2), Type::Int)));
}

#[test]
fn expr_compiler_binary_div_1() {
    check_binary_div_1();
}

#[test]
fn rel_compiler_binary_div_1() {
    check_binary_div_1();
}

fn check_binary_and_1() {
    // true and a, a an impulse
    let symbol_table = vec![sym("", SymbolKind::Variable(Type::Impulse))];
    let mut compiler = RelCompiler::new(0, &symbol_table, Diagnostics::new());
    compiler.bind_variable(0, 1);
    compiler.reserve_reg(0);
    let ir = compiler.compile_expr(binary(Expr::Literal(Literal::Bool(true)), ident(0), BinaryOp::And, Type::Bool));
    assert_eq!(ir, Some((vec![
        Instruction::IEQ { dest: 2, src1: Source::RegVar(1), src2: Source::RegVar(0) },
        Instruction::AND { dest: 2, src1: Source::Bool(true), src2: Source::RegInter(2) },
    ], Source::RegInter(2), Type::Bool)));
}

#[test]
fn expr_compiler_binary_and_1() {
    check_binary_and_1();
}

#[test]
fn rel_compiler_binary_and_1() {
    check_binary_and_1();
}

fn check_binary_cmp_1() {
    // 3 < a, a modulo 10
    let symbol_table = vec![sym("", SymbolKind::Variable(Type::Mod(10)))];
    let mut compiler = RelCompiler::new(0, &symbol_table, Diagnostics::new());
    compiler.bind_variable(0, 1);
    compiler.reserve_reg(0);
    let ir = compiler.compile_expr(binary(int_lit(3), ident(0), BinaryOp::Lt, Type::Bool));
    assert_eq!(ir, Some((vec![
        Instruction::IMOD { dest: 2, src1: Source::RegVar(1), src2: Source::Int(10) },
        Instruction::ILT { dest: 2, src1: Source::Int(3), src2: Source::RegInter(2) },
    ], Source::RegInter(2), Type::Bool)));
}

#[test]
fn expr_compiler_binary_cmp_1() {
    check_binary_cmp_1();
}

#[test]
fn rel_compiler_binary_cmp_1() {
    check_binary_cmp_1();
}

fn check_binary_cmp_2() {
    // 3.0 < a, a modulo 10
    let symbol_table = vec![sym("", SymbolKind::Variable(Type::Mod(10)))];
    let mut compiler = RelCompiler::new(0, &symbol_table, Diagnostics::new());
    compiler.bind_variable(0, 1);
    compiler.reserve_reg(0);
    let ir = compiler.compile_expr(binary(Expr::Literal(Literal::Real(dec(30, 1))), ident(0), BinaryOp::Lt, Type::Bool));
    assert_eq!(ir, Some((vec![
        Instruction::IMOD { dest: 2, src1: Source::RegVar(1), src2: Source::Int(10) },
        Instruction::I2F { dest: 2, src: Source::RegInter(2) },
        Instruction::FLT { dest: 2, src1: Source::Float(dec(30, 1)), src2: Source::RegInter(2) },
    ], Source::RegInter(2), Type::Bool)));
}

#[test]
fn expr_compiler_binary_cmp_2() {
    check_binary_cmp_2();
}

#[test]
fn rel_compiler_binary_cmp_2() {
    check_binary_cmp_2();
}

fn check_block_1() {
    // { let a = n; let b = 1; a + b }, n a parameter
    let symbol_table = vec![
        sym("n", SymbolKind::Variable(Type::Int)),
        sym("a", SymbolKind::Variable(Type::Int)),
        sym("b", SymbolKind::Variable(Type::Int)),
    ];
    let mut compiler = RelCompiler::new(0, &symbol_table, Diagnostics::new());
    compiler.bind_variable(0, 0);
    let ir = compiler.compile_expr(Expr::Block(BlockExpr {
        statements: vec![
            Statement::Let(LetStatement { name: Ident::Symbol(1), expr: ident(0) }),
            Statement::Let(LetStatement { name: Ident::Symbol(2), expr: int_lit(1) }),
        ],
        expr: Box::new(binary(ident(1), ident(2), BinaryOp::Add, Type::Int)),
        expr_type: Type::Int,
    }));
    assert_eq!(ir, Some((vec![
        Instruction::MOV { dest: 1, src: Source::Int(1) },
        Instruction::IADD { dest: 2, src1: Source::RegVar(0), src2: Source::RegVar(1) },
    ], Source::RegInter(2), Type::Int)));
}

#[test]
fn expr_compiler_block_1() {
    check_block_1();
}

#[test]
fn rel_compiler_block_1() {
    check_block_1();
}

#[test]
fn expr_compiler_sample_1() {
    // sample { a + 0.2 : 2, 0.6 : n, _ : 4 - 2 }
    let symbol_table = vec![
        sym("n", SymbolKind::Variable(Type::Int)),
        sym("a", SymbolKind::Variable(Type::Int)),
    ];
    let mut compiler = RelCompiler::new(0, &symbol_table, Diagnostics::new());
    compiler.bind_variable(0, 0);
    compiler.bind_variable(1, 1);
    let ir = compiler.compile_expr(Expr::Sample(SampleExpr {
        arms: vec![
            SampleArm {
                prob: Prob::Expr(binary(ident(1), Expr::Literal(Literal::Real(dec(2, 1))), BinaryOp::Add, Type::Real)),
                expr: int_lit(2),
                arm_span: span0(),
            },
            SampleArm {
                prob: Prob::Expr(Expr::Literal(Literal::Real(dec(6, 1)))),
                expr: ident(0),
                arm_span: span0(),
            },
            SampleArm {
                prob: Prob::Default,
                expr: binary(int_lit(4), int_lit(2), BinaryOp::Sub, Type::Int),
                arm_span: span0(),
            },
        ],
        expr_type: Type::Int,
        span: span0(),
    }));
    assert_eq!(ir, Some((vec![
        Instruction::RND { dest: 2 },
        Instruction::I2F { dest: 3, src: Source::RegVar(1) },
        Instruction::FADD { dest: 3, src1: Source::RegInter(3), src2: Source::Float(dec(2, 1)) },
        Instruction::FADD { dest: 4, src1: Source::Float(dec(6, 1)), src2: Source::RegInter(3) },
        Instruction::MOV { dest: 5, src: one() },
        Instruction::FJEQ { offset: 3, src1: Source::RegInter(5), src2: one() },
        Instruction::ERR { code: 4, src: Some(Source::RegInter(5)) },
        Instruction::FJGE { offset: 13, src1: Source::RegInter(2), src2: Source::RegInter(3) },
        Instruction::MOV { dest: 6, src: Source::Int(2) },
        Instruction::JMP { offset: 37 },
        Instruction::FJGE { offset: 6, src1: Source::RegInter(2), src2: Source::RegInter(4) },
        Instruction::MOV { dest: 6, src: Source::RegVar(0) },
        Instruction::JMP { offset: 26 },
        Instruction::FJGE { offset: 21, src1: Source::RegInter(2), src2: Source::RegInter(5) },
        Instruction::ISUB { dest: 7, src1: Source::Int(4), src2: Source::Int(2) },
        Instruction::MOV { dest: 6, src: Source::RegInter(7) },
    ], Source::RegInter(6), Type::Int)));
    assert_eq!(compiler.is_used(0), true); // "n"
    assert_eq!(compiler.is_used(1), true); // "a"
    assert_eq!(compiler.is_used(2), false); // rnd
    assert_eq!(compiler.is_used(3), false); // cdf[0]
    assert_eq!(compiler.is_used(4), false); // cdf[1]
    assert_eq!(compiler.is_used(5), false); // cdf[2]
    assert_eq!(compiler.is_used(6), true); // dest
}

#[test]
fn compile_pattern_comp() {
    // cases (a, b, c, d, e) { (1, f, >5, 2, true) : ... }
    // a: int variable, b: int intermediate, c: real intermediate,
    // d: mod(4) intermediate, e: impulse variable; f is real, 2 is mod(4)
    let mut scrutinee_sources = vec![Source::RegVar(1), Source::RegInter(4), Source::RegInter(5), Source::RegInter(6), Source::RegVar(2)];
    let mut scrutinee_types = vec![Type::Int, Type::Int, Type::Real, Type::Mod(4), Type::Impulse];
    let symbol_table = vec![
        sym("a", SymbolKind::Variable(Type::Int)),
        sym("e", SymbolKind::Variable(Type::Impulse)),
        sym("f", SymbolKind::Variable(Type::Real)),
    ];
    let mut compiler = RelCompiler::new(0, &symbol_table, Diagnostics::new());
    compiler.reserve_reg(0); // the timestep
    compiler.bind_variable(0, 1); // a
    compiler.bind_variable(1, 2); // e
    compiler.bind_variable(2, 3); // f
    compiler.reserve_reg(4); // b
    compiler.reserve_reg(5); // c
    compiler.reserve_reg(6); // d
    let result = compiler.compile_pattern(&mut scrutinee_sources, &mut scrutinee_types, SimplePattern::Tuple(vec![
        SimplePattern::Literal(Literal::Int(1)),
        SimplePattern::Ident(Ident::Symbol(2)),
        SimplePattern::Comparison(ComparisonPattern { op: CompOp::Gt, expr: Box::new(int_lit(5)) }),
        SimplePattern::Literal(Literal::Int(2)),
        SimplePattern::Literal(Literal::Bool(true)),
    ]));
    assert_eq!(result, Some((vec![
        Instruction::IJNE { offset: 65, src1: Source::RegVar(1), src2: Source::Int(1) },
        Instruction::I2F { dest: 4, src: Source::RegInter(4) },
        Instruction::FJNE { offset: 57, src1: Source::RegInter(4), src2: Source::RegVar(3) },
        Instruction::I2F { dest: 7, src: Source::Int(5) },
        Instruction::FJLE { offset: 42, src1: Source::RegInter(5), src2: Source::RegInter(7) },
        Instruction::IMOD { dest: 6, src1: Source::RegInter(6), src2: Source::Int(4) },
        Instruction::IJNE { offset: 19, src1: Source::RegInter(6), src2: Source::Int(2) },
        Instruction::IEQ { dest: 8, src1: Source::RegVar(2), src2: Source::RegVar(0) },
        Instruction::IJNE { offset: 3, src1: Source::RegInter(8), src2: Source::Bool(true) },
        Instruction::JMP { offset: 0 },
    ], vec![0, 2, 4, 6, 8])));
    assert_eq!(scrutinee_types, vec![Type::Int, Type::Real, Type::Real, Type::Int, Type::Bool]);
}

fn literal_pattern(i: i64) -> SimplePattern {
    SimplePattern::Literal(Literal::Int(i))
}

#[test]
fn cases_1() {
    // cases (a, b*2) { (1, 2) | (3, 4): 1, (5, 6): 2, _: 3 }
    let symbol_table = vec![
        sym("a", SymbolKind::Variable(Type::Int)),
        sym("b", SymbolKind::Variable(Type::Int)),
    ];
    let mut compiler = RelCompiler::new(0, &symbol_table, Diagnostics::new());
    compiler.bind_variable(0, 0);
    compiler.bind_variable(1, 1);
    let ir = compiler.compile_expr(Expr::Cases(CasesExpr {
        scrutinee: Box::new(Expr::Tuple(vec![ident(0), binary(ident(1), int_lit(2), BinaryOp::Mul, Type::Int)])),
        arms: vec![
            CasesArm {
                pattern: vec![
                    SimplePattern::Tuple(vec![literal_pattern(1), literal_pattern(2)]),
                    SimplePattern::Tuple(vec![literal_pattern(3), literal_pattern(4)]),
                ],
                expr: int_lit(1),
                arm_span: span0(),
            },
            CasesArm {
                pattern: vec![SimplePattern::Tuple(vec![literal_pattern(5), literal_pattern(6)])],
                expr: int_lit(2),
                arm_span: span0(),
            },
            CasesArm { pattern: vec![SimplePattern::Default], expr: int_lit(3), arm_span: span0() },
        ],
        expr_type: Type::Int,
        span: span0(),
    }));
    assert_eq!(ir, Some((vec![
        Instruction::IMUL { dest: 2, src1: Source::RegVar(1), src2: Source::Int(2) },
        Instruction::IJNE { offset: 15, src1: Source::RegVar(0), src2: Source::Int(1) },
        Instruction::IJNE { offset: 3, src1: Source::RegInter(2), src2: Source::Int(2) },
        Instruction::JMP { offset: 24 },
        Instruction::IJNE { offset: 25, src1: Source::RegVar(0), src2: Source::Int(3) },
        Instruction::IJNE { offset: 13, src1: Source::RegInter(2), src2: Source::Int(4) },
        Instruction::MOV { dest: 3, src: Source::Int(1) },
        Instruction::JMP { offset: 47 },
        Instruction::IJNE { offset: 25, src1: Source::RegVar(0), src2: Source::Int(5) },
        Instruction::IJNE { offset: 13, src1: Source::RegInter(2), src2: Source::Int(6) },
        Instruction::MOV { dest: 3, src: Source::Int(2) },
        Instruction::JMP { offset: 10 },
        Instruction::MOV { dest: 3, src: Source::Int(3) },
    ], Source::RegInter(3), Type::Int)));
    assert_eq!(compiler.is_used(0), true);
    assert_eq!(compiler.is_used(1), true);
    assert_eq!(compiler.is_used(2), false);
    assert_eq!(compiler.is_used(3), true);
}

#[test]
fn cases_2() {
    // cases c { H : true, _ : false }, c of type ent_t coin = {H, T};
    let mut symbol_table = coin_symbols();
    symbol_table.push(sym("c", SymbolKind::Variable(Type::Custom(Ident::Symbol(0)))));
    let mut compiler = RelCompiler::new(0, &symbol_table, Diagnostics::new());
    compiler.bind_variable(3, 0);
    let ir = compiler.compile_expr(Expr::Cases(CasesExpr {
        scrutinee: Box::new(ident(3)),
        arms: vec![
            CasesArm {
                pattern: vec![SimplePattern::Ident(Ident::Symbol(1))],
                expr: Expr::Literal(Literal::Bool(true)),
                arm_span: span0(),
            },
            CasesArm {
                pattern: vec![SimplePattern::Default],
                expr: Expr::Literal(Literal::Bool(false)),
                arm_span: span0(),
            },
        ],
        expr_type: Type::Bool,
        span: span0(),
    }));
    assert_eq!(ir, Some((vec![
        Instruction::IJNE { offset: 13, src1: Source::RegVar(0), src2: Source::Int(0) },
        Instruction::MOV { dest: 1, src: Source::Bool(true) },
        Instruction::JMP { offset: 10 },
        Instruction::MOV { dest: 1, src: Source::Bool(false) },
    ], Source::RegInter(1), Type::Bool)));
}

fn trio_sample(p1: Decimal, p2: Decimal) -> Expr {
    Expr::Sample(SampleExpr {
        arms: vec![
            SampleArm { prob: Prob::Expr(Expr::Literal(Literal::Real(p1))), expr: ident(1), arm_span: span0() },
            SampleArm { prob: Prob::Expr(Expr::Literal(Literal::Real(p2))), expr: ident(2), arm_span: span0() },
            SampleArm { prob: Prob::Default, expr: ident(3), arm_span: span0() },
        ],
        expr_type: Type::Custom(Ident::Symbol(0)),
        span: span0(),
    })
}

fn trio_arm_code(p1: Decimal, p2: Decimal) -> Vec<Instruction> {
    vec![
        Instruction::RND { dest: 2 },
        Instruction::MOV { dest: 3, src: Source::Float(p1) },
        Instruction::FADD { dest: 4, src1: Source::Float(p2), src2: Source::RegInter(3) },
        Instruction::MOV { dest: 5, src: one() },
        Instruction::FJEQ { offset: 3, src1: Source::RegInter(5), src2: one() },
        Instruction::ERR { code: 4, src: Some(Source::RegInter(5)) },
        Instruction::FJGE { offset: 13, src1: Source::RegInter(2), src2: Source::RegInter(3) },
        Instruction::MOV { dest: 6, src: Source::Int(0) },
        Instruction::JMP { offset: 33 },
        Instruction::FJGE { offset: 13, src1: Source::RegInter(2), src2: Source::RegInter(4) },
        Instruction::MOV { dest: 6, src: Source::Int(1) },
        Instruction::JMP { offset: 15 },
        Instruction::FJGE { offset: 10, src1: Source::RegInter(2), src2: Source::RegInter(5) },
        Instruction::MOV { dest: 6, src: Source::Int(2) },
        Instruction::MOV { dest: 1, src: Source::RegInter(6) },
    ]
}

#[test]
fn cases_3() {
    // cases var {
    //     A: sample { 0.5: A, 0.3: B, _: C },
    //     B: sample { 0.1: A, 0.4: B, _: C },
    //     C: sample { 0.4: A, 0.0: B, _: C },
    // }
    let symbol_table = vec![
        sym("trio", SymbolKind::EntType),
        sym("A", SymbolKind::EntMember { parent: 0, mapping: 0 }),
        sym("B", SymbolKind::EntMember { parent: 0, mapping: 1 }),
        sym("C", SymbolKind::EntMember { parent: 0, mapping: 2 }),
        sym("var", SymbolKind::Variable(Type::Custom(Ident::Symbol(0)))),
    ];
    let mut compiler = RelCompiler::new(0, &symbol_table, Diagnostics::new());
    compiler.bind_variable(4, 0);
    let ir = compiler.compile_expr(Expr::Cases(CasesExpr {
        scrutinee: Box::new(ident(4)),
        arms: vec![
            CasesArm { pattern: vec![SimplePattern::Ident(Ident::Symbol(1))], expr: trio_sample(dec(5, 1), dec(3, 1)), arm_span: span0() },
            CasesArm { pattern: vec![SimplePattern::Ident(Ident::Symbol(2))], expr: trio_sample(dec(1, 1), dec(4, 1)), arm_span: span0() },
            CasesArm { pattern: vec![SimplePattern::Ident(Ident::Symbol(3))], expr: trio_sample(dec(4, 1), dec(0, 1)), arm_span: span0() },
        ],
        expr_type: Type::Custom(Ident::Symbol(0)),
        span: span0(),
    }));
    let mut expected = vec![Instruction::IJNE { offset: 105, src1: Source::RegVar(0), src2: Source::Int(0) }];
    expected.extend(trio_arm_code(dec(5, 1), dec(3, 1)));
    expected.push(Instruction::JMP { offset: 231 });
    expected.push(Instruction::IJNE { offset: 105, src1: Source::RegVar(0), src2: Source::Int(1) });
    expected.extend(trio_arm_code(dec(1, 1), dec(4, 1)));
    expected.push(Instruction::JMP { offset: 114 });
    expected.push(Instruction::IJNE { offset: 102, src1: Source::RegVar(0), src2: Source::Int(2) });
    expected.extend(trio_arm_code(dec(4, 1), dec(0, 1)));
    assert_eq!(ir, Some((expected, Source::RegInter(1), Type::Custom(Ident::Symbol(0)))));
    assert_eq!(compiler.is_used(0), true);
    assert_eq!(compiler.is_used(1), true);
    assert_eq!(compiler.is_used(2), false);
    assert_eq!(compiler.is_used(3), false);
    assert_eq!(compiler.is_used(4), false);
    assert_eq!(compiler.is_used(5), false);
    assert_eq!(compiler.is_used(6), false);
}
