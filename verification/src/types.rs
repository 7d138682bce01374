use vstd::prelude::*;
use crate::ast::Ident;

verus! {

/// The types of the language.
#[derive(PartialEq, Debug, Clone)]
pub enum Type {
    Bool,
    Int,
    Real,
    Impulse,
    /// integers modulo `n`
    Mod(i64),
    /// an entity type declared with `ent_t`
    Custom(Ident),
    /// not known until type checking
    Unknown,
}

impl Type {
    /// A copy of this type.
    pub fn duplicate(&self) -> (r: Type)
        ensures
            r == *self,
    {
        match self {
            Type::Bool => Type::Bool,
            Type::Int => Type::Int,
            Type::Real => Type::Real,
            Type::Impulse => Type::Impulse,
            Type::Mod(n) => Type::Mod(*n),
            Type::Custom(i) => Type::Custom(i.duplicate()),
            Type::Unknown => Type::Unknown,
        }
    }
}

pub type SymbolId = usize;

/// What a name in the symbol table stands for.
#[derive(PartialEq, Debug, Clone)]
pub enum SymbolKind {
    Variable(Type),
    Const(Type),
    EntType,
    EntMember { parent: SymbolId, mapping: u64 },
    Rel_t { input_types: Vec<Type>, return_type: Type },
    Net_t,
}

/// An entry of the symbol table.
#[derive(PartialEq, Debug, Clone)]
pub struct Symbol {
    pub name: String,
    pub kind: SymbolKind,
    pub span: crate::diagnostics::Span,
}

} // verus!
