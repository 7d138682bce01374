use loi_compiler::ast::{
    BinaryExpr, BinaryOp, BlockExpr, CasesArm, CasesExpr, Expr, Ident, LetStatement, Literal, Param, Prob, RelType,
    SampleArm, SampleExpr, SimplePattern, Statement,
};
use loi_compiler::compiled_rel::CompiledRel;
use loi_compiler::diagnostics::{Diagnostics, Span};
use loi_compiler::ir::{lower_ir, Instruction, Source};
use loi_compiler::rel_compiler::RelCompiler;
use loi_compiler::token::Decimal;
use loi_compiler::types::{Symbol, SymbolKind, Type};

fn span0() -> Span {
    Span { line: 0, col: 0 }
}

fn sym(name: &str, kind: SymbolKind) -> Symbol {
    Symbol { name: name.to_string(), kind, span: span0() }
}

fn param(id: usize, param_type: Type) -> Param {
    Param { name: Ident::Symbol(id), param_type }
}

fn binary(left: Expr, right: Expr, op: BinaryOp, expr_type: Type) -> Expr {
    Expr::Binary(BinaryExpr { left: Box::new(left), right: Box::new(right), op, op_span: span0(), expr_type })
}

fn ident(id: usize) -> Expr {
    Expr::Ident(Ident::Symbol(id))
}

fn int_lit(i: i64) -> Expr {
    Expr::Literal(Literal::Int(i))
}

fn dec(mantissa: i64, scale: u32) -> Decimal {
    Decimal { mantissa, scale }
}

fn r(n: usize) -> Source {
    Source::RegInter(n)
}

fn v(n: usize) -> Source {
    Source::RegVar(n)
}

/// The compiled relation that the instructions assemble to.
fn assembled(name: &str, code: Vec<Instruction>) -> CompiledRel {
    let (bytecode, float_patches) = lower_ir(code);
    CompiledRel { name: name.to_string(), complexity: 0, bytecode, float_patches }
}

#[test]
fn simple_adder() {
    // rel_t ADD: (a: Int, b: Int) -> Int { a + b };
    let mut diagnostics = Diagnostics::new();
    let symbol_table = vec![
        sym("ADD", SymbolKind::Rel_t { input_types: vec![Type::Int, Type::Int], return_type: Type::Int }),
        sym("a", SymbolKind::Variable(Type::Int)),
        sym("b", SymbolKind::Variable(Type::Int)),
    ];
    let relation = RelType {
        name: Ident::Symbol(0),
        params: vec![param(1, Type::Int), param(2, Type::Int)],
        return_type: Type::Int,
        body: binary(ident(1), ident(2), BinaryOp::Add, Type::Int),
    };
    let result = RelCompiler::compile(relation, &symbol_table, &mut diagnostics);
    let expected = assembled("ADD", vec![
        Instruction::IADD { dest: 4, src1: v(2), src2: v(3) },
        Instruction::RET { src: r(4) },
    ]);
    assert_eq!(result, Some(expected));
    assert!(!diagnostics.has_errors());
}

#[test]
fn impulse_delay() {
    // rel_t DELAY: (a: Impulse) -> Impulse { a };
    let mut diagnostics = Diagnostics::new();
    let symbol_table = vec![
        sym("DELAY", SymbolKind::Rel_t { input_types: vec![Type::Impulse], return_type: Type::Impulse }),
        sym("a", SymbolKind::Variable(Type::Impulse)),
    ];
    let relation = RelType {
        name: Ident::Symbol(0),
        params: vec![param(1, Type::Impulse)],
        return_type: Type::Impulse,
        body: ident(1),
    };
    let result = RelCompiler::compile(relation, &symbol_table, &mut diagnostics);
    let expected = assembled("DELAY", vec![
        Instruction::IADD { dest: 3, src1: v(2), src2: v(1) },
        Instruction::RET { src: r(3) },
    ]);
    assert_eq!(result, Some(expected));
}

#[test]
fn impulse_and() {
    // rel_t AND: (a: Impulse, b: Impulse) -> Impulse { a & b };
    let mut diagnostics = Diagnostics::new();
    let symbol_table = vec![
        sym("AND", SymbolKind::Rel_t { input_types: vec![Type::Impulse, Type::Impulse], return_type: Type::Impulse }),
        sym("a", SymbolKind::Variable(Type::Impulse)),
        sym("b", SymbolKind::Variable(Type::Impulse)),
    ];
    let relation = RelType {
        name: Ident::Symbol(0),
        params: vec![param(1, Type::Impulse), param(2, Type::Impulse)],
        return_type: Type::Impulse,
        body: binary(ident(1), ident(2), BinaryOp::And, Type::Bool),
    };
    let result = RelCompiler::compile(relation, &symbol_table, &mut diagnostics);
    let expected = assembled("AND", vec![
        Instruction::IEQ { dest: 4, src1: v(2), src2: v(0) },
        Instruction::IEQ { dest: 5, src1: v(3), src2: v(0) },
        Instruction::AND { dest: 4, src1: r(4), src2: r(5) },
        Instruction::IADD { dest: 5, src1: v(0), src2: v(1) },
        Instruction::IMUL { dest: 4, src1: r(4), src2: r(5) },
        Instruction::RET { src: r(4) },
    ]);
    assert_eq!(result, Some(expected));
}

#[test]
fn custom_cases() {
    // ent_t coin = {H, T};
    // rel_t REVERSE : (a: coin) -> coin = cases a { H : T, _ : H };
    let mut diagnostics = Diagnostics::new();
    let coin = || Type::Custom(Ident::Symbol(0));
    let symbol_table = vec![
        sym("coin", SymbolKind::EntType),
        sym("H", SymbolKind::EntMember { parent: 0, mapping: 0 }),
        sym("T", SymbolKind::EntMember { parent: 0, mapping: 1 }),
        sym("REVERSE", SymbolKind::Rel_t { input_types: vec![coin()], return_type: coin() }),
        sym("a", SymbolKind::Variable(coin())),
    ];
    let relation = RelType {
        name: Ident::Symbol(3),
        params: vec![param(4, coin())],
        return_type: coin(),
        body: Expr::Cases(CasesExpr {
            scrutinee: Box::new(ident(4)),
            arms: vec![
                CasesArm { pattern: vec![SimplePattern::Ident(Ident::Symbol(1))], expr: ident(2), arm_span: span0() },
                CasesArm { pattern: vec![SimplePattern::Default], expr: ident(1), arm_span: span0() },
            ],
            expr_type: coin(),
            span: span0(),
        }),
    };
    let result = RelCompiler::compile(relation, &symbol_table, &mut diagnostics);
    let expected = assembled("REVERSE", vec![
        Instruction::IJNE { offset: 13, src1: v(2), src2: Source::Int(0) },
        Instruction::MOV { dest: 3, src: Source::Int(1) },
        Instruction::JMP { offset: 10 },
        Instruction::MOV { dest: 3, src: Source::Int(0) },
        Instruction::RET { src: r(3) },
    ]);
    assert_eq!(result, Some(expected));
}

#[test]
fn block_and_sample() {
    // rel_t RND : (a: Int) -> Real {
    //     let b = 1;
    //     let c = (a + sample { 0.5 : 3, _ : 4 }) + b;
    //     c / 1.5
    // };
    let mut diagnostics = Diagnostics::new();
    let symbol_table = vec![
        sym("RND", SymbolKind::Rel_t { input_types: vec![Type::Int], return_type: Type::Real }),
        sym("a", SymbolKind::Variable(Type::Int)),
        sym("b", SymbolKind::Variable(Type::Int)),
        sym("c", SymbolKind::Variable(Type::Int)),
    ];
    let sample = Expr::Sample(SampleExpr {
        arms: vec![
            SampleArm { prob: Prob::Expr(Expr::Literal(Literal::Real(dec(5, 1)))), expr: int_lit(3), arm_span: span0() },
            SampleArm { prob: Prob::Default, expr: int_lit(4), arm_span: span0() },
        ],
        expr_type: Type::Int,
        span: span0(),
    });
    let relation = RelType {
        name: Ident::Symbol(0),
        params: vec![param(1, Type::Int)],
        return_type: Type::Real,
        body: Expr::Block(BlockExpr {
            statements: vec![
                Statement::Let(LetStatement { name: Ident::Symbol(2), expr: int_lit(1) }),
                Statement::Let(LetStatement {
                    name: Ident::Symbol(3),
                    expr: binary(binary(ident(1), sample, BinaryOp::Add, Type::Int), ident(2), BinaryOp::Add, Type::Int),
                }),
            ],
            expr: Box::new(binary(ident(3), Expr::Literal(Literal::Real(dec(15, 1))), BinaryOp::Div, Type::Real)),
            expr_type: Type::Real,
        }),
    };
    let result = RelCompiler::compile(relation, &symbol_table, &mut diagnostics);
    let one = || Source::Float(dec(1, 0));
    // r0: timestamp, r1: delay, r2: a, r3: b, r4: random number then c / 1.5,
    // r5 and r6: the cumulative probabilities, r7: the sample, then c
    let expected = assembled("RND", vec![
        Instruction::MOV { dest: 3, src: Source::Int(1) },
        Instruction::RND { dest: 4 },
        Instruction::MOV { dest: 5, src: Source::Float(dec(5, 1)) },
        Instruction::MOV { dest: 6, src: one() },
        Instruction::FJEQ { offset: 3, src1: r(6), src2: one() },
        Instruction::ERR { code: 4, src: Some(r(6)) },
        Instruction::FJGE { offset: 13, src1: r(4), src2: r(5) },
        Instruction::MOV { dest: 7, src: Source::Int(3) },
        Instruction::JMP { offset: 15 },
        Instruction::FJGE { offset: 10, src1: r(4), src2: r(6) },
        Instruction::MOV { dest: 7, src: Source::Int(4) },
        Instruction::IADD { dest: 7, src1: v(2), src2: r(7) },
        Instruction::IADD { dest: 7, src1: r(7), src2: v(3) },
        Instruction::I2F { dest: 4, src: v(7) },
        Instruction::FDIV { dest: 4, src1: r(4), src2: Source::Float(dec(15, 1)) },
        Instruction::RET { src: r(4) },
    ]);
    assert_eq!(result, Some(expected));
}

#[test]
fn relation_name_must_be_a_symbol() {
    let mut diagnostics = Diagnostics::new();
    let symbol_table = vec![sym("a", SymbolKind::Variable(Type::Int))];
    let relation = RelType {
        name: Ident::Str { val: "X".to_string(), span: span0() },
        params: vec![],
        return_type: Type::Int,
        body: int_lit(1),
    };
    assert_eq!(RelCompiler::compile(relation, &symbol_table, &mut diagnostics), None);
}

#[test]
fn relation_returning_its_second_parameter() {
    // rel_t SECOND: (a: Int, b: Int) -> Int = b;
    let mut diagnostics = Diagnostics::new();
    let symbol_table = vec![
        sym("SECOND", SymbolKind::Rel_t { input_types: vec![Type::Int, Type::Int], return_type: Type::Int }),
        sym("a", SymbolKind::Variable(Type::Int)),
        sym("b", SymbolKind::Variable(Type::Int)),
    ];
    let relation = RelType {
        name: Ident::Symbol(0),
        params: vec![param(1, Type::Int), param(2, Type::Int)],
        return_type: Type::Int,
        body: ident(2),
    };
    let compiled = RelCompiler::compile(relation, &symbol_table, &mut diagnostics);
    assert_eq!(compiled, Some(assembled("SECOND", vec![Instruction::RET { src: v(3) }])));
}

#[test]
fn relation_converting_an_int_parameter_to_real() {
    // rel_t TO_REAL: (a: Int) -> Real = a;
    let mut diagnostics = Diagnostics::new();
    let symbol_table = vec![
        sym("TO_REAL", SymbolKind::Rel_t { input_types: vec![Type::Int], return_type: Type::Real }),
        sym("a", SymbolKind::Variable(Type::Int)),
    ];
    let relation = RelType { name: Ident::Symbol(0), params: vec![param(1, Type::Int)], return_type: Type::Real, body: ident(1) };
    let compiled = RelCompiler::compile(relation, &symbol_table, &mut diagnostics);
    assert_eq!(
        compiled,
        Some(assembled("TO_REAL", vec![Instruction::I2F { dest: 3, src: v(2) }, Instruction::RET { src: r(3) }]))
    );
}
