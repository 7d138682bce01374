use loi_compiler::ast::{Expr, Item, Statement};
use loi_compiler::diagnostics::Diagnostics;
use loi_compiler::lexer::Lexer;
use loi_compiler::parser::Parser;
use loi_compiler::types::Type;

/// Every typed node of the expression has type `Unknown`.
fn untyped(e: &Expr) -> bool {
    match e {
        Expr::Unary(u) => u.expr_type == Type::Unknown && untyped(&u.expr),
        Expr::Binary(b) => b.expr_type == Type::Unknown && untyped(&b.left) && untyped(&b.right),
        Expr::Tuple(v) => v.iter().all(untyped),
        Expr::Block(b) => {
            b.expr_type == Type::Unknown
                && b.statements.iter().all(|s| match s {
                    Statement::Let(l) => untyped(&l.expr),
                    Statement::Error => true,
                })
                && untyped(&b.expr)
        },
        Expr::Cases(c) => c.expr_type == Type::Unknown && untyped(&c.scrutinee) && c.arms.iter().all(|a| untyped(&a.expr)),
        Expr::Sample(s) => s.expr_type == Type::Unknown && s.arms.iter().all(|a| untyped(&a.expr)),
        _ => true,
    }
}

#[test]
fn parsed_expressions_are_untyped() {
    let code = "
        rel_t R : (a: Int) -> Int = {
            let b = -a + 2 * a;
            cases (a, b) {
                (1, 2) | (3, > 4) : sample { 0.5 : a, _ : b },
                _ : { a ^ 2 },
            }
        };
    ";
    let mut diagnostics = Diagnostics::new();
    let tokens = Lexer::new(code).tokenize(&mut diagnostics);
    let mut parser = Parser::new(tokens, diagnostics);
    let program = parser.parse();
    assert!(!parser.diagnostics().has_errors());
    assert_eq!(program.items.len(), 1);
    match &program.items[0] {
        Item::Rel(r) => {
            assert!(matches!(r.body, Expr::Block(_)));
            assert!(untyped(&r.body));
        },
        _ => panic!("a relation was parsed"),
    }
}
