# loi_compiler

A verified front end and relation compiler for `loi`, a small
hardware-description language: lexing, Pratt parsing with error recovery,
algebraic simplification of expressions, and compilation of relations to a
register-machine bytecode.

## Layout

- `src/lexer.rs`, `src/token.rs`: source text to tokens, stated exactly by
  `scanned`; each lexical error is reported once and leaves one `ErrorToken`.
- `src/parser/`: tokens to the syntax tree of `src/ast.rs`, with recovery
  rules in `sync.rs`. A parse that reports nothing yields a tree with no error
  node; parsed expressions carry no type yet.
- `src/alg_trans.rs`, `src/code_gen.rs`: algebraic simplification, proved to
  keep the value of every expression over the integers and booleans; the code
  generator simplifies each relation and compiles it.
- `src/rel_compiler.rs`, `src/expr_compiler.rs`: relations to instructions
  (`src/ir.rs`), with the register discipline (code writes only registers that
  were free; parameters and the two reserved registers are never written) and
  the landing of every jump on an instruction boundary (`src/jumps.rs`).
- `src/ir.rs`: the byte encoding; its length is the sum of the instruction
  sizes used for jump offsets.
- `src/compiler.rs`: the back end's driver, which compiles the relations and
  finds the top-level net.
- `app/`: reading a source file and printing diagnostics.

Verify with Verus; the tests under `tests/` run the compiled library.
