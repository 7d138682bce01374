use vstd::prelude::*;
use crate::token::TokenKind;
use crate::types::{SymbolKind, Type};

verus! {

/// A position in the source text: line and column, both counted from 1.
#[derive(PartialEq, Eq, Structural, Debug, Clone, Copy)]
pub struct Span {
    pub line: usize,
    pub col: usize,
}

/// The errors reported while compiling, in the order they were found.
pub struct Diagnostics {
    errors: Vec<CompilerError>,
}

impl View for Diagnostics {
    type V = Seq<CompilerError>;

    closed spec fn view(&self) -> Seq<CompilerError> {
        self.errors@
    }
}

impl Diagnostics {
    pub fn new() -> (d: Self)
        ensures
            d@ == Seq::<CompilerError>::empty(),
    {
        Self { errors: Vec::new() }
    }

    /// Records one more error after the ones already recorded.
    pub fn error(&mut self, error: CompilerError)
        ensures
            final(self)@ == old(self)@.push(error),
    {
        self.errors.push(error);
    }

    pub fn has_errors(&self) -> (r: bool)
        ensures
            r == (self@.len() > 0),
    {
        self.errors.len() != 0
    }

    pub fn num_errors(&self) -> (n: usize)
        ensures
            n == self@.len(),
    {
        self.errors.len()
    }

    pub fn errors(&self) -> (e: &[CompilerError])
        ensures
            e@ == self@,
    {
        self.errors.as_slice()
    }
}

/// The record that `error` leaves after recording each of `es` in turn,
/// starting from `start`.
pub open spec fn recorded(start: Seq<CompilerError>, es: Seq<CompilerError>) -> Seq<CompilerError>
    decreases es.len(),
{
    if es.len() == 0 {
        start
    } else {
        recorded(start, es.drop_last()).push(es.last())
    }
}

/// Recording errors one after another keeps them all, in the order they
/// were recorded: after `n` errors on a new record there are `n`, and
/// `errors` lists them as recorded.
pub proof fn lemma_errors_recorded_in_order(start: Seq<CompilerError>, es: Seq<CompilerError>)
    ensures
        recorded(start, es) == start + es,
        recorded(start, es).len() == start.len() + es.len(),
    decreases es.len(),
{
    if es.len() > 0 {
        lemma_errors_recorded_in_order(start, es.drop_last());
        assert(start + es.drop_last() + seq![es.last()] =~= start + es);
        assert((start + es.drop_last()).push(es.last()) =~= start + es.drop_last() + seq![es.last()]);
    } else {
        assert(start + es =~= start);
    }
}

#[derive(Debug, PartialEq, Clone)]
pub enum CompilerError {
    // lexer
    UnknownToken { lexeme: String, span: Span },
    InvalidNum { lexeme: String, span: Span },
    // parser
    UnexpectedToken { expected: Vec<Expected>, found: TokenKind, span: Span },
    // semantic analysis
    DuplicateDefinition { name: String, old_span: Span, new_span: Span },
    UndefinedIdent { name: String, span: Span },
    UndefinedPort { name: String, span: Span },
    DuplicatePort { name: String, span: Span },
    UnexpectedIdent { expected: Vec<SymbolKind>, found: SymbolKind, span: Span },
    IncompatibleTypes { left: Type, right: Type, op_span: Span },
    IncompatibleOp { expr_type: Type, op: Operation, op_span: Span },
    UnequalTupleLength { left_len: usize, right_len: usize, right_span: Span },
    IllegalScrutineeExpr { expected: Vec<ExprType>, found: ExprType, cases_span: Span },
    IncompatibleReturnType { return_type: Type, expr_type: Type, rel_span: Span },
    MismatchedEntType { expected: Type, found: Type, span: Span },
    IncorrectNumberOfArgs { expected_len: usize, actual_len: usize, rel_span: Span },
    NonexistantNetPort { name: String, span: Span },
    // code generation
    TooManySymbols { rel_name: String, rel_span: Span },
    // back end
    NonexistantTopLevelNet { name: String },
}

#[derive(Debug, PartialEq, Clone)]
pub enum Expected {
    Token(TokenKind),
    Expr,
    Pattern,
    Ident,
    IntLiteral,
    Type,
}

#[derive(Debug, PartialEq, Eq, Structural, Clone, Copy)]
pub enum Operation {
    Cmp,
    Add,
    Sub,
    Mul,
    Div,
    Pow,
    Or,
    And,
    Not,
}

#[derive(Debug, PartialEq, Eq, Structural, Clone, Copy)]
pub enum ExprType {
    Literal,
    Ident,
    Unary,
    Binary,
    Tuple,
    Block,
    Cases,
    Sample,
    Error,
}

impl Expected {
    pub fn duplicate(&self) -> (r: Expected)
        ensures
            r == *self,
    {
        match self {
            Expected::Token(k) => Expected::Token(k.duplicate()),
            Expected::Expr => Expected::Expr,
            Expected::Pattern => Expected::Pattern,
            Expected::Ident => Expected::Ident,
            Expected::IntLiteral => Expected::IntLiteral,
            Expected::Type => Expected::Type,
        }
    }
}

} // verus!
