use loi_compiler::ast::{BinaryExpr, BinaryOp, Expr, Ident, Item, Net, NetItem, Param, Program, RelType};
use loi_compiler::compiler::{back_end, CompileError};
use loi_compiler::diagnostics::{CompilerError, Diagnostics, Span};
use loi_compiler::types::{Symbol, SymbolKind, Type};

fn span0() -> Span {
    Span { line: 0, col: 0 }
}

fn sym(name: &str, kind: SymbolKind) -> Symbol {
    Symbol { name: name.to_string(), kind, span: span0() }
}

fn symbols() -> Vec<Symbol> {
    vec![
        sym("ADD", SymbolKind::Rel_t { input_types: vec![Type::Int, Type::Int], return_type: Type::Int }),
        sym("a", SymbolKind::Variable(Type::Int)),
        sym("b", SymbolKind::Variable(Type::Int)),
        sym("TOP", SymbolKind::Net_t),
        sym("OTHER", SymbolKind::Net_t),
    ]
}

fn adder() -> Item {
    Item::Rel(RelType {
        name: Ident::Symbol(0),
        params: vec![
            Param { name: Ident::Symbol(1), param_type: Type::Int },
            Param { name: Ident::Symbol(2), param_type: Type::Int },
        ],
        return_type: Type::Int,
        body: Expr::Binary(BinaryExpr {
            left: Box::new(Expr::Ident(Ident::Symbol(1))),
            right: Box::new(Expr::Ident(Ident::Symbol(2))),
            op: BinaryOp::Add,
            op_span: span0(),
            expr_type: Type::Int,
        }),
    })
}

fn net(id: usize) -> Item {
    Item::Net(Net { name: Ident::Symbol(id), items: vec![NetItem::Input(Param { name: Ident::Symbol(1), param_type: Type::Int })] })
}

#[test]
fn back_end_finds_top_net() {
    let program = Program { items: vec![adder(), net(4), net(3)] };
    let table = symbols();
    match back_end(program, &table, "TOP", Diagnostics::new()) {
        Ok(b) => {
            assert_eq!(b.top_net, 3);
            assert_eq!(b.nets.len(), 2);
            assert_eq!(b.compiled_relations.len(), 1);
            assert_eq!(b.compiled_relations[0].name, "ADD");
            assert_eq!(b.obj_map.get(&0), Some(&0));
            assert_eq!(b.obj_map.get(&4), Some(&0));
            assert_eq!(b.obj_map.get(&3), Some(&1));
            assert_eq!(b.obj_map.len(), 3);
        },
        Err(_) => panic!("the program has a top-level net"),
    }
}

#[test]
fn back_end_reports_missing_top_net() {
    let program = Program { items: vec![adder(), net(4)] };
    let table = symbols();
    match back_end(program, &table, "TOP", Diagnostics::new()) {
        Err(CompileError::Diagnostics(d)) => {
            assert_eq!(d.errors(), &[CompilerError::NonexistantTopLevelNet { name: "TOP".to_string() }]);
        },
        _ => panic!("no net is named TOP"),
    }
}

#[test]
fn back_end_keeps_earlier_errors() {
    let program = Program { items: vec![net(3)] };
    let table = symbols();
    let mut diagnostics = Diagnostics::new();
    diagnostics.error(CompilerError::UndefinedIdent { name: "x".to_string(), span: span0() });
    match back_end(program, &table, "TOP", diagnostics) {
        Err(CompileError::Diagnostics(d)) => assert_eq!(d.num_errors(), 1),
        _ => panic!("an error was recorded before the back end"),
    }
}
