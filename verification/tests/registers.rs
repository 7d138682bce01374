use loi_compiler::diagnostics::{CompilerError, Diagnostics, Span};
use loi_compiler::ir::{Instruction, Source};
use loi_compiler::rel_compiler::RelCompiler;
use loi_compiler::token::Decimal;
use loi_compiler::types::{Symbol, SymbolKind, Type};

fn table() -> Vec<Symbol> {
    vec![Symbol {
        name: "R".to_string(),
        kind: SymbolKind::Rel_t { input_types: vec![], return_type: Type::Int },
        span: Span { line: 3, col: 7 },
    }]
}

#[test]
fn next_reg_is_lowest_free() {
    let symbols = table();
    let mut compiler = RelCompiler::new(0, &symbols, Diagnostics::new());
    compiler.reserve_reg(0);
    compiler.reserve_reg(2);
    assert_eq!(compiler.get_next_reg(), Some(1));
    assert_eq!(compiler.get_next_reg(), Some(3));
    assert!(compiler.is_used(3));
}

#[test]
fn running_out_of_registers_is_reported() {
    let symbols = table();
    let mut compiler = RelCompiler::new(0, &symbols, Diagnostics::new());
    for reg in 0..64 {
        compiler.reserve_reg(reg);
    }
    assert_eq!(compiler.get_next_reg(), None);
    let diagnostics = compiler.into_diagnostics();
    assert_eq!(
        diagnostics.errors(),
        &[CompilerError::TooManySymbols { rel_name: "R".to_string(), rel_span: Span { line: 3, col: 7 } }]
    );
}

#[test]
fn binary_dest_reuses_intermediate() {
    let symbols = table();
    let mut compiler = RelCompiler::new(0, &symbols, Diagnostics::new());
    compiler.reserve_reg(4);
    compiler.reserve_reg(5);
    assert_eq!(compiler.get_binary_dest(Source::RegInter(4), Source::RegInter(5)), Some(4));
    assert!(!compiler.is_used(5));
    assert_eq!(compiler.get_binary_dest(Source::Int(1), Source::Int(2)), Some(0));
}

#[test]
fn coerce_mod_to_real_reduces_then_converts() {
    let symbols = table();
    let mut compiler = RelCompiler::new(0, &symbols, Diagnostics::new());
    compiler.reserve_reg(0);
    compiler.reserve_reg(1);
    let mut code = Vec::new();
    let r = compiler.coerce_real(&mut code, Source::RegVar(0), &Type::Mod(5), true);
    assert_eq!(r, Some(Source::RegInter(2)));
    assert_eq!(code, vec![
        Instruction::IMOD { dest: 2, src1: Source::RegVar(0), src2: Source::Int(5) },
        Instruction::I2F { dest: 2, src: Source::RegInter(2) },
    ]);
}

#[test]
fn coerce_impulse_from_bool() {
    let symbols = table();
    let mut compiler = RelCompiler::new(0, &symbols, Diagnostics::new());
    compiler.reserve_reg(0);
    compiler.reserve_reg(1);
    compiler.reserve_reg(2);
    let mut code = Vec::new();
    let r = compiler.coerce_impulse(&mut code, Source::RegVar(2), &Type::Bool);
    assert_eq!(r, Some(Source::RegInter(3)));
    assert_eq!(code, vec![
        Instruction::IADD { dest: 4, src1: Source::RegVar(0), src2: Source::RegVar(1) },
        Instruction::IMUL { dest: 3, src1: Source::RegVar(2), src2: Source::RegInter(4) },
    ]);
}

#[test]
fn coerce_equal_refuses_incompatible_types() {
    let symbols = table();
    let mut compiler = RelCompiler::new(0, &symbols, Diagnostics::new());
    let mut code = Vec::new();
    let r = compiler.coerce_equal(&mut code, Source::Bool(true), &Type::Bool, Source::Float(Decimal { mantissa: 1, scale: 0 }), &Type::Real);
    assert_eq!(r, None);
    assert!(code.is_empty());
    assert!(!compiler.into_diagnostics().has_errors());
}

#[test]
fn coerce_equal_brings_int_to_real() {
    let symbols = table();
    let mut compiler = RelCompiler::new(0, &symbols, Diagnostics::new());
    compiler.reserve_reg(0);
    let mut code = Vec::new();
    let r = compiler.coerce_equal(&mut code, Source::RegVar(0), &Type::Int, Source::Float(Decimal { mantissa: 15, scale: 1 }), &Type::Real);
    assert_eq!(r, Some((Source::RegInter(1), Source::Float(Decimal { mantissa: 15, scale: 1 }), Type::Real)));
    assert_eq!(code, vec![Instruction::I2F { dest: 1, src: Source::RegVar(0) }]);
}

#[test]
fn new_compiler_has_no_register_in_use() {
    let symbols = table();
    let compiler = RelCompiler::new(0, &symbols, Diagnostics::new());
    for reg in 0..64 {
        assert!(!compiler.is_used(reg));
    }
}

#[test]
fn coerce_equal_reduces_mod_against_int() {
    let symbols = table();
    let mut compiler = RelCompiler::new(0, &symbols, Diagnostics::new());
    compiler.reserve_reg(0);
    let mut code = Vec::new();
    let r = compiler.coerce_equal(&mut code, Source::RegVar(0), &Type::Mod(5), Source::Int(3), &Type::Int);
    assert_eq!(r, Some((Source::RegInter(1), Source::Int(3), Type::Int)));
    assert_eq!(code, vec![Instruction::IMOD { dest: 1, src1: Source::RegVar(0), src2: Source::Int(5) }]);
}

#[test]
fn coerce_equal_keeps_values_of_the_same_type() {
    let symbols = table();
    let mut compiler = RelCompiler::new(0, &symbols, Diagnostics::new());
    compiler.reserve_reg(0);
    let mut code = Vec::new();
    let r = compiler.coerce_equal(&mut code, Source::RegVar(0), &Type::Int, Source::Int(7), &Type::Int);
    assert_eq!(r, Some((Source::RegVar(0), Source::Int(7), Type::Int)));
    assert!(code.is_empty());
}
