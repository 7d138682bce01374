use loi_compiler::ast::{EntExpr, Expr, Ident, Item, Literal, NetItem};
use loi_compiler::diagnostics::{CompilerError, Diagnostics, Expected, Span};
use loi_compiler::token::TokenKind;
use loi_compiler::lexer::Lexer;
use loi_compiler::parser::Parser;
use loi_compiler::types::Type;

fn parser_for(code: &str) -> Parser {
    let mut diagnostics = Diagnostics::new();
    let tokens = Lexer::new(code).tokenize(&mut diagnostics);
    assert!(!diagnostics.has_errors());
    Parser::new(tokens, diagnostics)
}

fn name(ident: &Ident) -> String {
    match ident {
        Ident::Str { val, .. } => val.clone(),
        Ident::Symbol(id) => format!("sym:{}", id),
    }
}

fn shape(expr: &Expr) -> String {
    match expr {
        Expr::Literal(Literal::Int(n)) => n.to_string(),
        Expr::Ident(ident) => name(ident),
        Expr::Binary(b) => format!("({:?} {} {})", b.op, shape(&b.left), shape(&b.right)),
        _ => "?".to_string(),
    }
}

fn parse_chain(code: &str) -> String {
    let mut parser = parser_for(code);
    let e = parser.parse_expr(0).unwrap();
    assert!(!parser.diagnostics().has_errors());
    shape(&e)
}

#[test]
fn tighter_operator_groups_first() {
    assert_eq!(parse_chain("1 + 2 * 3"), "(Add 1 (Mul 2 3))");
    assert_eq!(parse_chain("1 * 2 + 3"), "(Add (Mul 1 2) 3)");
    assert_eq!(parse_chain("a < b + c"), "(Lt a (Add b c))");
}

#[test]
fn equal_operators_group_to_the_left_but_power_to_the_right() {
    assert_eq!(parse_chain("1 - 2 - 3"), "(Sub (Sub 1 2) 3)");
    assert_eq!(parse_chain("8 / 4 / 2"), "(Div (Div 8 4) 2)");
    assert_eq!(parse_chain("2 ^ 3 ^ 4"), "(Pow 2 (Pow 3 4))");
}

#[test]
fn plain_program_parses_to_its_items() {
    let mut parser = parser_for("ent_t COIN = {H, T}; let a = 1; rel_t ONE : () -> Real = 1; net EMPTY {}");
    let program = parser.parse();
    assert!(!parser.diagnostics().has_errors());
    assert_eq!(program.items.len(), 4);
    match &program.items[0] {
        Item::Ent(e) => {
            assert_eq!(name(&e.name), "COIN");
            match &e.expr {
                EntExpr::SetEnt(members) => {
                    let names: Vec<String> = members.iter().map(name).collect();
                    assert_eq!(names, vec!["H".to_string(), "T".to_string()]);
                }
                other => panic!("unexpected {:?}", other),
            }
        }
        other => panic!("unexpected {:?}", other),
    }
    match &program.items[1] {
        Item::Let(s) => {
            assert_eq!(name(&s.name), "a");
            assert_eq!(s.expr, Expr::Literal(Literal::Int(1)));
        }
        other => panic!("unexpected {:?}", other),
    }
    match &program.items[2] {
        Item::Rel(r) => {
            assert_eq!(name(&r.name), "ONE");
            assert!(r.params.is_empty());
            assert_eq!(r.return_type, Type::Real);
            assert_eq!(r.body, Expr::Literal(Literal::Int(1)));
        }
        other => panic!("unexpected {:?}", other),
    }
    match &program.items[3] {
        Item::Net(n) => {
            assert_eq!(name(&n.name), "EMPTY");
            assert!(n.items.is_empty());
        }
        other => panic!("unexpected {:?}", other),
    }
}

#[test]
fn net_of_instances_parses_without_errors() {
    let mut parser = parser_for("N { x := R(a, b); y := S(); M { p := x, q := y }; }");
    let net = parser.parse_net().unwrap();
    assert!(!parser.diagnostics().has_errors());
    assert_eq!(name(&net.name), "N");
    assert_eq!(net.items.len(), 3);
    match &net.items[0] {
        NetItem::RelInst(r) => {
            assert_eq!(name(&r.asignee), "x");
            assert_eq!(name(&r.rel), "R");
            let args: Vec<String> = r.args.iter().map(name).collect();
            assert_eq!(args, vec!["a".to_string(), "b".to_string()]);
        }
        other => panic!("unexpected {:?}", other),
    }
    match &net.items[1] {
        NetItem::RelInst(r) => {
            assert_eq!(name(&r.rel), "S");
            assert!(r.args.is_empty());
        }
        other => panic!("unexpected {:?}", other),
    }
    match &net.items[2] {
        NetItem::NetInst(n) => {
            assert_eq!(name(&n.net), "M");
            let ports: Vec<(String, String)> =
                n.connections.iter().map(|c| (name(&c.port), name(&c.net))).collect();
            assert_eq!(ports, vec![("p".to_string(), "x".to_string()), ("q".to_string(), "y".to_string())]);
        }
        other => panic!("unexpected {:?}", other),
    }
}

#[test]
fn pattern_expected_where_none_begins() {
    let mut parser = parser_for("let => 1");
    assert!(parser.parse_pattern().is_none());
    assert_eq!(parser.diagnostics().errors().to_vec(), vec![CompilerError::UnexpectedToken {
        expected: vec![Expected::Pattern],
        found: TokenKind::Let,
        span: Span { line: 1, col: 1 },
    }]);
}

#[test]
fn program_with_a_net_of_instances_parses_without_errors() {
    let mut parser = parser_for("let a = b; net N { x := R(a); M { p := x }; } net E {}");
    let program = parser.parse();
    assert!(!parser.diagnostics().has_errors());
    assert_eq!(program.items.len(), 3);
    match &program.items[1] {
        Item::Net(n) => {
            assert_eq!(name(&n.name), "N");
            assert_eq!(n.items.len(), 2);
            assert!(matches!(n.items[0], NetItem::RelInst(_)));
            assert!(matches!(n.items[1], NetItem::NetInst(_)));
        }
        other => panic!("unexpected {:?}", other),
    }
}

#[test]
fn relation_with_parameters_parses_to_its_parts() {
    let mut parser = parser_for("rel_t ADD : (a: Int, b: Real) -> Real = a + b; let c = 2 * a;");
    let program = parser.parse();
    assert!(!parser.diagnostics().has_errors());
    assert_eq!(program.items.len(), 2);
    match &program.items[0] {
        Item::Rel(r) => {
            assert_eq!(name(&r.name), "ADD");
            let params: Vec<(String, Type)> = r.params.iter().map(|p| (name(&p.name), p.param_type.clone())).collect();
            assert_eq!(params, vec![("a".to_string(), Type::Int), ("b".to_string(), Type::Real)]);
            assert_eq!(r.return_type, Type::Real);
            assert_eq!(shape(&r.body), "(Add a b)");
        }
        other => panic!("unexpected {:?}", other),
    }
    match &program.items[1] {
        Item::Let(s) => assert_eq!(shape(&s.expr), "(Mul 2 a)"),
        other => panic!("unexpected {:?}", other),
    }
}

#[test]
fn net_with_ports_parses_to_its_ports() {
    let mut parser = parser_for("N { input a: Int; output b: Bool; b := R(a); }");
    let net = parser.parse_net().unwrap();
    assert!(!parser.diagnostics().has_errors());
    assert_eq!(net.items.len(), 3);
    match &net.items[0] {
        NetItem::Input(p) => {
            assert_eq!(name(&p.name), "a");
            assert_eq!(p.param_type, Type::Int);
        }
        other => panic!("unexpected {:?}", other),
    }
    match &net.items[1] {
        NetItem::Output(p) => {
            assert_eq!(name(&p.name), "b");
            assert_eq!(p.param_type, Type::Bool);
        }
        other => panic!("unexpected {:?}", other),
    }
    assert!(matches!(net.items[2], NetItem::RelInst(_)));
}
