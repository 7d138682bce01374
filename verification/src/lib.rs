//! Front end and relation compiler for a small hardware-description language:
//! lexing, Pratt parsing with error recovery, algebraic simplification of
//! expressions, and compilation of relations to register bytecode.

pub mod diagnostics;
pub mod token;
pub mod types;
pub mod ast;
pub mod lexer;
pub mod parser;
pub mod netlist;
pub mod alg_trans;
pub mod ir;
pub mod rel_compiler;
pub mod expr_compiler;
pub mod compiled_rel;
pub mod code_gen;
pub mod jumps;
pub mod compiler;
pub mod semantics;
