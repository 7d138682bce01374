use vstd::prelude::*;
use crate::diagnostics::Span;
use crate::token::Decimal;
use crate::types::{SymbolId, Type};

verus! {

/// A whole source file.
#[derive(PartialEq, Debug)]
pub struct Program {
    pub items: Vec<Item>,
}

/// A top-level item.
#[derive(PartialEq, Debug)]
pub enum Item {
    Let(LetStatement),
    Ent(EntType),
    Rel(RelType),
    Net(Net),
    Error,
}

/// A name: as written (before name resolution) or as a symbol-table index.
#[derive(PartialEq, Debug, Clone)]
pub enum Ident {
    Str { val: String, span: Span },
    Symbol(SymbolId),
}

impl Ident {
    /// A copy of this name.
    pub fn duplicate(&self) -> (r: Ident)
        ensures
            r == *self,
    {
        match self {
            Ident::Str { val, span } => Ident::Str { val: val.clone(), span: *span },
            Ident::Symbol(id) => Ident::Symbol(*id),
        }
    }
}

#[derive(PartialEq, Debug)]
pub enum Expr {
    Literal(Literal),
    Ident(Ident),
    Unary(UnaryExpr),
    Binary(BinaryExpr),
    Tuple(Vec<Expr>),
    Block(BlockExpr),
    Cases(CasesExpr),
    Sample(SampleExpr),
    Error,
}

#[derive(PartialEq, Debug, Clone, Copy)]
pub enum Literal {
    Bool(bool),
    Int(i64),
    Real(Decimal),
}

#[derive(PartialEq, Debug)]
pub struct UnaryExpr {
    pub expr: Box<Expr>,
    pub op: UnaryOp,
    pub op_span: Span,
    pub expr_type: Type,
}

#[derive(PartialEq, Eq, Structural, Debug, Clone, Copy)]
pub enum UnaryOp {
    Neg,
    BitNot,
}

#[derive(PartialEq, Debug)]
pub struct BinaryExpr {
    pub left: Box<Expr>,
    pub right: Box<Expr>,
    pub op: BinaryOp,
    pub op_span: Span,
    pub expr_type: Type,
}

#[derive(PartialEq, Eq, Structural, Debug, Clone, Copy)]
pub enum BinaryOp {
    Lt,
    Gt,
    Le,
    Ge,
    Add,
    Sub,
    Mul,
    Div,
    Pow,
    Or,
    And,
}

#[derive(PartialEq, Eq, Structural, Debug, Clone, Copy)]
pub enum CompOp {
    Lt,
    Gt,
    Le,
    Ge,
}

#[derive(PartialEq, Debug)]
pub struct BlockExpr {
    pub statements: Vec<Statement>,
    pub expr: Box<Expr>,
    pub expr_type: Type,
}

#[derive(PartialEq, Debug)]
pub struct CasesExpr {
    pub scrutinee: Box<Expr>,
    pub arms: Vec<CasesArm>,
    pub expr_type: Type,
    pub span: Span,
}

#[derive(PartialEq, Debug)]
pub struct CasesArm {
    pub pattern: Vec<SimplePattern>,
    pub expr: Expr,
    pub arm_span: Span,
}

#[derive(PartialEq, Debug)]
pub enum SimplePattern {
    Default,
    Literal(Literal),
    Ident(Ident),
    Tuple(Vec<SimplePattern>),
    Comparison(ComparisonPattern),
    Error,
}

#[derive(PartialEq, Debug)]
pub struct ComparisonPattern {
    pub op: CompOp,
    pub expr: Box<Expr>,
}

#[derive(PartialEq, Debug)]
pub struct SampleExpr {
    pub arms: Vec<SampleArm>,
    pub expr_type: Type,
    pub span: Span,
}

#[derive(PartialEq, Debug)]
pub struct SampleArm {
    pub prob: Prob,
    pub expr: Expr,
    pub arm_span: Span,
}

#[derive(PartialEq, Debug)]
pub enum Prob {
    Default,
    Expr(Expr),
}

#[derive(PartialEq, Debug)]
pub struct Param {
    pub name: Ident,
    pub param_type: Type,
}

#[derive(PartialEq, Debug)]
pub enum Statement {
    Let(LetStatement),
    Error,
}

#[derive(PartialEq, Debug)]
pub struct LetStatement {
    pub name: Ident,
    pub expr: Expr,
}

/// `ent_t NAME = ...;`
#[derive(PartialEq, Debug)]
pub struct EntType {
    pub name: Ident,
    pub expr: EntExpr,
}

#[derive(PartialEq, Debug)]
pub enum EntExpr {
    Mod(i64),
    SetEnt(Vec<Ident>),
}

/// `rel_t NAME : (params) -> Type = body;`
#[derive(PartialEq, Debug)]
pub struct RelType {
    pub name: Ident,
    pub params: Vec<Param>,
    pub return_type: Type,
    pub body: Expr,
}

/// `net NAME { items }`
#[derive(PartialEq, Debug)]
pub struct Net {
    pub name: Ident,
    pub items: Vec<NetItem>,
}

#[derive(PartialEq, Debug)]
pub enum NetItem {
    Input(Param),
    Output(Param),
    Init(EntInit),
    RelInst(RelInst),
    NetInst(NetInst),
    Error,
}

#[derive(PartialEq, Debug)]
pub struct EntInit {
    pub param: Param,
    pub val: Expr,
}

/// `asignee := REL(args);`
#[derive(PartialEq, Debug)]
pub struct RelInst {
    pub asignee: Ident,
    pub rel: Ident,
    pub args: Vec<Ident>,
}

/// `NET { port := net, ... };`
#[derive(PartialEq, Debug)]
pub struct NetInst {
    pub net: Ident,
    pub connections: Vec<Connection>,
}

#[derive(PartialEq, Debug)]
pub struct Connection {
    pub port: Ident,
    pub net: Ident,
}

/// The expression holds no `Error` node: every part of it was parsed.
pub open spec fn expr_clean(e: Expr) -> bool
    decreases e,
{
    match e {
        Expr::Error => false,
        Expr::Literal(_) => true,
        Expr::Ident(_) => true,
        Expr::Unary(u) => expr_clean(*u.expr),
        Expr::Binary(b) => expr_clean(*b.left) && expr_clean(*b.right),
        Expr::Tuple(v) => forall|i: int| 0 <= i < v.len() ==> expr_clean(#[trigger] v@[i]),
        Expr::Block(b) => {
            &&& forall|i: int| 0 <= i < b.statements.len() ==> statement_clean(#[trigger] b.statements@[i])
            &&& expr_clean(*b.expr)
        },
        Expr::Cases(c) => {
            &&& expr_clean(*c.scrutinee)
            &&& forall|i: int| 0 <= i < c.arms.len() ==> cases_arm_clean(#[trigger] c.arms@[i])
        },
        Expr::Sample(s) => forall|i: int| 0 <= i < s.arms.len() ==> sample_arm_clean(#[trigger] s.arms@[i]),
    }
}

pub open spec fn statement_clean(s: Statement) -> bool
    decreases s,
{
    match s {
        Statement::Let(l) => expr_clean(l.expr),
        Statement::Error => false,
    }
}

pub open spec fn cases_arm_clean(a: CasesArm) -> bool
    decreases a,
{
    &&& forall|i: int| 0 <= i < a.pattern.len() ==> pattern_clean(#[trigger] a.pattern@[i])
    &&& expr_clean(a.expr)
}

pub open spec fn pattern_clean(p: SimplePattern) -> bool
    decreases p,
{
    match p {
        SimplePattern::Default => true,
        SimplePattern::Literal(_) => true,
        SimplePattern::Ident(_) => true,
        SimplePattern::Tuple(v) => forall|i: int| 0 <= i < v.len() ==> pattern_clean(#[trigger] v@[i]),
        SimplePattern::Comparison(c) => expr_clean(*c.expr),
        SimplePattern::Error => false,
    }
}

pub open spec fn sample_arm_clean(a: SampleArm) -> bool
    decreases a,
{
    &&& match a.prob {
        Prob::Default => true,
        Prob::Expr(e) => expr_clean(e),
    }
    &&& expr_clean(a.expr)
}

/// The net item was parsed without error.
pub open spec fn net_item_clean(item: NetItem) -> bool {
    match item {
        NetItem::Error => false,
        NetItem::Init(init) => expr_clean(init.val),
        _ => true,
    }
}

/// Every item of the net was parsed without error.
pub open spec fn net_clean(net: Net) -> bool {
    forall|i: int| 0 <= i < net.items.len() ==> net_item_clean(#[trigger] net.items@[i])
}

/// The top-level item was parsed without error.
pub open spec fn item_clean(item: Item) -> bool {
    match item {
        Item::Error => false,
        Item::Let(l) => expr_clean(l.expr),
        Item::Ent(_) => true,
        Item::Rel(r) => expr_clean(r.body),
        Item::Net(n) => net_clean(n),
    }
}


/// Every typed node of the expression has type `Unknown`: types are given
/// by type checking, after parsing.
pub open spec fn expr_untyped(e: Expr) -> bool
    decreases e,
{
    match e {
        Expr::Error => true,
        Expr::Literal(_) => true,
        Expr::Ident(_) => true,
        Expr::Unary(u) => u.expr_type is Unknown && expr_untyped(*u.expr),
        Expr::Binary(b) => b.expr_type is Unknown && expr_untyped(*b.left) && expr_untyped(*b.right),
        Expr::Tuple(v) => forall|i: int| 0 <= i < v.len() ==> expr_untyped(#[trigger] v@[i]),
        Expr::Block(b) => {
            &&& b.expr_type is Unknown
            &&& forall|i: int| 0 <= i < b.statements.len() ==> statement_untyped(#[trigger] b.statements@[i])
            &&& expr_untyped(*b.expr)
        },
        Expr::Cases(c) => {
            &&& c.expr_type is Unknown
            &&& expr_untyped(*c.scrutinee)
            &&& forall|i: int| 0 <= i < c.arms.len() ==> cases_arm_untyped(#[trigger] c.arms@[i])
        },
        Expr::Sample(s) => {
            &&& s.expr_type is Unknown
            &&& forall|i: int| 0 <= i < s.arms.len() ==> sample_arm_untyped(#[trigger] s.arms@[i])
        },
    }
}

pub open spec fn statement_untyped(s: Statement) -> bool
    decreases s,
{
    match s {
        Statement::Let(l) => expr_untyped(l.expr),
        Statement::Error => true,
    }
}

pub open spec fn cases_arm_untyped(a: CasesArm) -> bool
    decreases a,
{
    &&& forall|i: int| 0 <= i < a.pattern.len() ==> pattern_untyped(#[trigger] a.pattern@[i])
    &&& expr_untyped(a.expr)
}

pub open spec fn pattern_untyped(p: SimplePattern) -> bool
    decreases p,
{
    match p {
        SimplePattern::Tuple(v) => forall|i: int| 0 <= i < v.len() ==> pattern_untyped(#[trigger] v@[i]),
        SimplePattern::Comparison(c) => expr_untyped(*c.expr),
        _ => true,
    }
}

pub open spec fn sample_arm_untyped(a: SampleArm) -> bool
    decreases a,
{
    &&& match a.prob {
        Prob::Default => true,
        Prob::Expr(e) => expr_untyped(e),
    }
    &&& expr_untyped(a.expr)
}

/// Every expression of the item is untyped.
pub open spec fn item_untyped(item: Item) -> bool {
    match item {
        Item::Let(l) => expr_untyped(l.expr),
        Item::Rel(r) => expr_untyped(r.body),
        Item::Net(n) => forall|i: int| 0 <= i < n.items.len() ==> (#[trigger] n.items@[i] matches NetItem::Init(init)
            ==> expr_untyped(init.val)),
        _ => true,
    }
}

} // verus!
