//! Compilation of one relation into register-machine instructions.
//!
//! The machine has 64 registers. Register 0 holds the current timestep and
//! register 1 the relation's delay; parameters and `let` variables are bound
//! to registers, and intermediate values take the lowest free register.

use std::collections::HashMap;
use vstd::prelude::*;
use crate::diagnostics::{CompilerError, Diagnostics, Span};
use crate::ast::{Expr, Ident, Param, RelType};
use crate::compiled_rel::CompiledRel;
use crate::expr_compiler::{
    appended_ok2, code_ok, equal_type, instr_ok, keeps_used, lemma_appended_chain, lemma_appended_code_ok,
    lemma_appended_push, lemma_appended_refl, lemma_code_ok_push, lemma_dest_choice, lemma_keeps_used_trans,
    lemma_took_dest_advanced, written_reg, jump_safe, lemma_appended_jumps, equal_coercible, expr_ok, result_type,
    literal_source, literal_type, body_ends,
};
use crate::jumps::{jumps_ok, lemma_jumps_ok_push};
use crate::ir::{Instruction, Source, encode_all, lower_ir, patches_all};
use crate::types::{Symbol, SymbolId, SymbolKind, Type};

verus! {

broadcast use vstd::std_specs::hash::group_hash_axioms;

/// Number of registers of the machine.
pub const NUM_REGS: usize = 64;

/// The state of the compilation of one relation.
pub struct RelCompiler<'a> {
    reg_map: HashMap<SymbolId, usize>,
    reg_used: Vec<bool>,
    rel_symbol_id: SymbolId,
    symbol_table: &'a [Symbol],
    diagnostics: Diagnostics,
}

/// The first register at or after `k` that is not in use (`used.len()` where all are).
pub open spec fn first_free_from(used: Seq<bool>, k: nat) -> nat
    decreases used.len() - k,
{
    if k >= used.len() {
        used.len()
    } else if !used[k as int] {
        k
    } else {
        first_free_from(used, k + 1)
    }
}

/// The lowest register not in use (`used.len()` where all are).
pub open spec fn first_free(used: Seq<bool>) -> nat {
    first_free_from(used, 0)
}

pub proof fn lemma_first_free_from(used: Seq<bool>, k: nat)
    ensures
        k <= used.len() ==> k <= first_free_from(used, k) <= used.len(),
        first_free_from(used, k) < used.len() ==> !used[first_free_from(used, k) as int],
        forall|j: int| k <= j < first_free_from(used, k) && j < used.len() ==> used[j],
    decreases used.len() - k,
{
    if k < used.len() && used[k as int] {
        lemma_first_free_from(used, k + 1);
    }
}

/// The register of a source, if it names one.
pub open spec fn source_reg(s: Source) -> Option<usize> {
    match s {
        Source::RegInter(r) => Some(r),
        Source::RegVar(r) => Some(r),
        _ => None,
    }
}

/// The register that allocation gives: the lowest free one, if any.
pub open spec fn alloc_choice(used: Seq<bool>) -> Option<usize> {
    if first_free(used) < NUM_REGS { Some(first_free(used) as usize) } else { None }
}

/// The destination for a result computed from `src`: its own register
/// where it is an intermediate one, the lowest free register otherwise.
pub open spec fn dest_choice(used: Seq<bool>, src: Source) -> Option<usize> {
    match src {
        Source::RegInter(x) => Some(x),
        _ => alloc_choice(used),
    }
}

/// Which registers are in use once the destination for `src` is found.
pub open spec fn used_after_dest(used: Seq<bool>, src: Source) -> Seq<bool> {
    match src {
        Source::RegInter(_) => used,
        _ => match alloc_choice(used) {
            Some(d) => used.update(d as int, true),
            None => used,
        },
    }
}

/// A source names no register beyond the machine's.
pub open spec fn source_ok(s: Source) -> bool {
    match source_reg(s) {
        Some(r) => r < NUM_REGS,
        None => true,
    }
}

/// What a name stands for, as far as compiling an expression needs it.
pub enum IdentInfo {
    /// a variable of the given type
    Variable(Type),
    /// a member of an entity type, stored as the integer `mapping`
    EntMember { parent: SymbolId, mapping: u64 },
    /// anything else, or a name beyond the symbol table
    Other,
}

pub open spec fn ident_info(symbols: Seq<Symbol>, id: SymbolId) -> IdentInfo {
    if id < symbols.len() {
        match symbols[id as int].kind {
            SymbolKind::Variable(t) => IdentInfo::Variable(t),
            SymbolKind::EntMember { parent, mapping } => IdentInfo::EntMember { parent, mapping },
            _ => IdentInfo::Other,
        }
    } else {
        IdentInfo::Other
    }
}

/// The number of parameters that name a symbol (those that get a register).
pub open spec fn symbol_params(ps: Seq<Param>) -> nat
    decreases ps.len(),
{
    if ps.len() == 0 {
        0
    } else {
        symbol_params(ps.drop_last()) + if ps.last().name is Symbol { 1nat } else { 0nat }
    }
}

/// The symbols that name parameters.
pub open spec fn param_ids(ps: Seq<Param>) -> Set<SymbolId>
    decreases ps.len(),
{
    if ps.len() == 0 {
        Set::empty()
    } else {
        let rest = param_ids(ps.drop_last());
        match ps.last().name {
            Ident::Symbol(id) => rest.insert(id),
            _ => rest,
        }
    }
}

/// The register of the parameter named `id`: parameters that name a symbol
/// take registers 2, 3, ... in order, and a later one of the same name takes
/// its place.
pub open spec fn param_reg(ps: Seq<Param>, id: SymbolId) -> nat
    decreases ps.len(),
{
    if ps.len() == 0 {
        0
    } else if ps.last().name == Ident::Symbol(id) {
        2 + symbol_params(ps.drop_last())
    } else {
        param_reg(ps.drop_last(), id)
    }
}

/// The body is a parameter of the return type, returned from its register
/// as it is.
pub open spec fn returns_param(symbols: Seq<Symbol>, relation: RelType) -> bool {
    &&& relation.body matches Expr::Ident(Ident::Symbol(id))
    &&& param_ids(relation.params@).contains(id)
    &&& ident_info(symbols, id) == IdentInfo::Variable(relation.return_type)
    &&& (relation.return_type is Int || relation.return_type is Bool || relation.return_type is Real)
}

/// A value of type `t` can be returned from a relation whose return type is
/// `ret`.
pub open spec fn returns_as(t: Type, ret: Type) -> bool {
    match ret {
        Type::Bool | Type::Impulse => t is Impulse || t is Bool,
        Type::Int | Type::Mod(_) => t is Mod || t is Int || t is Custom,
        Type::Real => t is Mod || t is Int || t is Real,
        Type::Custom(Ident::Symbol(_)) => true,
        _ => false,
    }
}

/// The instructions that bring a value at `src` of type `from` to type `to`
/// in register `d`: an integer to a real (`I2F`), a value modulo `n` reduced
/// (`IMOD`) and, for a real, converted, an impulse to a boolean (`IEQ`
/// against `r0`); none where the value is kept as it is.
pub open spec fn conversion(from: Type, to: Type, src: Source, d: usize) -> Seq<Instruction> {
    match (from, to) {
        (Type::Int, Type::Real) => seq![Instruction::I2F { dest: d, src }],
        (Type::Mod(n), Type::Real) => seq![
            Instruction::IMOD { dest: d, src1: src, src2: Source::Int(n) },
            Instruction::I2F { dest: d, src: Source::RegInter(d) },
        ],
        (Type::Mod(n), Type::Int) => seq![Instruction::IMOD { dest: d, src1: src, src2: Source::Int(n) }],
        (Type::Mod(n), Type::Mod(_)) => seq![Instruction::IMOD { dest: d, src1: src, src2: Source::Int(n) }],
        (Type::Impulse, Type::Bool) => seq![Instruction::IEQ { dest: d, src1: src, src2: Source::RegVar(0) }],
        _ => Seq::empty(),
    }
}

/// Where the value converted by `conversion` ends up.
pub open spec fn converted(from: Type, to: Type, src: Source, d: usize) -> Source {
    if conversion(from, to, src, d).len() == 0 { src } else { Source::RegInter(d) }
}

/// The left value of a comparison is kept as it is where the right one's
/// type gives no type to bring it to.
pub open spec fn left_kept(tl: Type, tr: Type) -> bool {
    !(tr is Real || (tr is Int && !(tl is Real)) || (tr is Mod && !(tl is Real) && !(tl is Int)) || tr is Bool)
}

/// How the left value of a comparison is converted.
pub open spec fn left_conversion(tl: Type, tr: Type, t: Type, src: Source, d: usize) -> Seq<Instruction> {
    if left_kept(tl, tr) { Seq::empty() } else { conversion(tl, t, src, d) }
}

/// The code that brings both values to the type `t` they are compared at:
/// the left one's conversion, then the right one's, into registers `d1` and
/// `d2`.
pub open spec fn equal_conversions(
    code0: Seq<Instruction>,
    code1: Seq<Instruction>,
    tl: Type,
    tr: Type,
    t: Type,
    src_l: Source,
    src_r: Source,
    l: Source,
    rr: Source,
    d1: usize,
    d2: usize,
) -> bool {
    &&& code1 == code0 + left_conversion(tl, tr, t, src_l, d1) + conversion(tr, t, src_r, d2)
    &&& l == if left_kept(tl, tr) { src_l } else { converted(tl, t, src_l, d1) }
    &&& rr == converted(tr, t, src_r, d2)
}

/// The code of a relation: the body's code, the conversion of its value to
/// the return type, and `RET` of the converted value.
pub open spec fn returns_body(symbols: Seq<Symbol>, relation: RelType, ir: Seq<Instruction>) -> bool {
    let t = result_type(symbols, relation.body);
    let ret = relation.return_type;
    exists|pre: Seq<Instruction>, s: Source, d: usize|
        #![trigger body_ends(symbols, relation.body, pre, s), conversion(t, ret, s, d)]
        body_ends(symbols, relation.body, pre, s)
            && ir == pre + conversion(t, ret, s, d) + seq![Instruction::RET { src: converted(t, ret, s, d) }]
}

/// The body is a literal of the return type, returned as it is.
pub open spec fn returns_literal(relation: RelType) -> bool {
    relation.body matches Expr::Literal(l) && relation.return_type == literal_type(l)
}

/// What makes a relation compile where no register runs out: its name is a
/// symbol of the table, its body compiles with the parameters bound, and the
/// body's type converts to the return type.
pub open spec fn rel_compiles(symbols: Seq<Symbol>, relation: RelType) -> bool {
    &&& relation.name matches Ident::Symbol(id) && id < symbols.len()
    &&& expr_ok(symbols, param_ids(relation.params@), relation.body)
    &&& returns_as(result_type(symbols, relation.body), relation.return_type)
}

/// Every register the code writes is `m` or above.
pub open spec fn writes_from(code: Seq<Instruction>, m: nat) -> bool {
    forall|k: int| 0 <= k < code.len() ==> (written_reg(#[trigger] code[k]) matches Some(d) ==> d >= m)
}

/// Code that writes only registers free in `used_below(m)` writes only `m` and above.
proof fn lemma_code_ok_writes_from(code: Seq<Instruction>, m: nat)
    requires
        code_ok(code, used_below(m)),
        m <= NUM_REGS,
    ensures
        writes_from(code, m),
        forall|k: int| 0 <= k < code.len() ==> instr_ok(#[trigger] code[k]),
{
    assert forall|k: int| 0 <= k < code.len() implies (written_reg(#[trigger] code[k]) matches Some(d) ==> d >= m) by {
        if let Some(d) = written_reg(code[k]) {
            assert(instr_ok(code[k]));
            assert(!used_below(m)[d as int]);
        }
    }
}

/// The registers below `m` are in use, the others free.
pub open spec fn used_below(m: nat) -> Seq<bool> {
    Seq::new(NUM_REGS as nat, |i: int| i < m)
}

proof fn lemma_used_below_first_free(m: nat)
    requires
        m <= NUM_REGS,
    ensures
        first_free(used_below(m)) == m,
        m < NUM_REGS ==> used_below(m).update(m as int, true) == used_below(m + 1),
{
    lemma_first_free_from(used_below(m), 0);
    let f = first_free(used_below(m));
    if f < m {
        assert(used_below(m)[f as int]);
    }
    if f > m {
        assert(!used_below(m)[m as int]);
    }
    if m < NUM_REGS {
        assert(used_below(m).update(m as int, true) =~= used_below(m + 1));
    }
}

/// `e` is the error for running out of registers while compiling the relation `rel`.
pub open spec fn is_too_many_symbols(e: CompilerError, rel: Symbol) -> bool {
    match e {
        CompilerError::TooManySymbols { rel_name, rel_span } => rel_name@ == rel.name@ && rel_span == rel.span,
        _ => false,
    }
}

impl<'a> RelCompiler<'a> {
    /// Which registers are in use.
    pub closed spec fn used(&self) -> Seq<bool> {
        self.reg_used@
    }

    /// The register each variable is bound to.
    pub closed spec fn regs(&self) -> Map<SymbolId, usize> {
        self.reg_map@
    }

    pub closed spec fn symbols(&self) -> Seq<Symbol> {
        self.symbol_table@
    }

    /// The symbol of the relation being compiled.
    pub closed spec fn rel_id(&self) -> SymbolId {
        self.rel_symbol_id
    }

    /// The errors reported so far.
    pub closed spec fn errors(&self) -> Seq<CompilerError> {
        self.diagnostics@
    }

    /// Registers and bindings are consistent: a variable is bound to a
    /// register of the machine, and that register is in use.
    pub open spec fn wf(&self) -> bool {
        &&& self.used().len() == NUM_REGS
        &&& forall|k: SymbolId| #[trigger] self.regs().contains_key(k) ==> self.regs()[k] < NUM_REGS
        &&& forall|k: SymbolId| #[trigger] self.regs().contains_key(k) ==> self.used()[self.regs()[k] as int]
    }

    /// No variable is bound to register `reg`.
    pub open spec fn unbound(&self, reg: usize) -> bool {
        forall|k: SymbolId| #[trigger] self.regs().contains_key(k) ==> self.regs()[k] != reg
    }

    /// The symbol table, the relation and the variable bindings are the same in both.
    pub open spec fn same_context(&self, other: &Self) -> bool {
        &&& other.symbols() == self.symbols()
        &&& other.rel_id() == self.rel_id()
        &&& other.regs() == self.regs()
    }

    /// Nothing changed between the two states.
    pub open spec fn same_state(&self, other: &Self) -> bool {
        &&& self.same_context(other)
        &&& other.used() == self.used()
        &&& other.errors() == self.errors()
    }

    /// `new` follows from `self` by one more error: that the relation needs
    /// more registers than the machine has.
    pub open spec fn reported_too_many(&self, new: &Self) -> bool {
        &&& new.errors().len() == self.errors().len() + 1
        &&& new.errors().drop_last() == self.errors()
        &&& new.errors().last() is TooManySymbols
        &&& self.rel_id() < self.symbols().len() ==> is_too_many_symbols(new.errors().last(), self.symbols()[self.rel_id() as int])
    }

    /// `new` follows from `self` by taking the lowest free register or, where
    /// none is free, by reporting that the relation needs too many registers.
    pub open spec fn allocated(&self, new: &Self) -> bool {
        &&& self.same_context(new)
        &&& if first_free(self.used()) < NUM_REGS {
            &&& new.used() == self.used().update(first_free(self.used()) as int, true)
            &&& new.errors() == self.errors()
        } else {
            &&& new.used() == self.used()
            &&& self.reported_too_many(new)
        }
    }

    /// `new` follows from `self` by finding the destination for a result
    /// computed from `src`: its own register where it is an intermediate one
    /// (nothing changes), a newly taken register otherwise.
    pub open spec fn took_dest(&self, new: &Self, src: Source) -> bool {
        match src {
            Source::RegInter(_) => self.same_state(new),
            _ => self.allocated(new),
        }
    }

    /// A compiler for the relation `rel_symbol_id` of `symbol_table`, with
    /// no register in use and no variable bound; errors go to `diagnostics`.
    pub fn new(rel_symbol_id: SymbolId, symbol_table: &'a [Symbol], diagnostics: Diagnostics) -> (c: Self)
        ensures
            c.wf(),
            c.used() == Seq::new(NUM_REGS as nat, |i: int| false),
            c.regs() == Map::<SymbolId, usize>::empty(),
            c.symbols() == symbol_table@,
            c.rel_id() == rel_symbol_id,
            c.errors() == diagnostics@,
    {
        let mut reg_used: Vec<bool> = Vec::new();
        let mut i: usize = 0;
        while i < NUM_REGS
            invariant
                i <= NUM_REGS,
                reg_used@ == Seq::new(i as nat, |j: int| false),
            decreases NUM_REGS - i,
        {
            reg_used.push(false);
            i = i + 1;
            assert(reg_used@ =~= Seq::new(i as nat, |j: int| false));
        }
        RelCompiler {
            reg_map: HashMap::new(),
            reg_used,
            rel_symbol_id,
            symbol_table,
            diagnostics,
        }
    }

    /// The diagnostics, with the errors reported while compiling.
    pub fn into_diagnostics(self) -> (d: Diagnostics)
        ensures
            d@ == self.errors(),
    {
        self.diagnostics
    }

    /// Marks register `reg` as in use, holding a value set up before the
    /// relation's code runs.
    pub fn reserve_reg(&mut self, reg: usize)
        requires
            old(self).wf(),
            reg < NUM_REGS,
        ensures
            final(self).wf(),
            old(self).same_context(final(self)),
            final(self).used() == old(self).used().update(reg as int, true),
            final(self).errors() == old(self).errors(),
    {
        self.set_used(reg, true);
    }

    /// Binds the variable `id` to register `reg`, which becomes in use.
    pub fn bind_variable(&mut self, id: SymbolId, reg: usize)
        requires
            old(self).wf(),
            reg < NUM_REGS,
        ensures
            final(self).wf(),
            final(self).regs() == old(self).regs().insert(id, reg),
            final(self).used() == old(self).used().update(reg as int, true),
            final(self).symbols() == old(self).symbols(),
            final(self).rel_id() == old(self).rel_id(),
            final(self).errors() == old(self).errors(),
    {
        self.set_used(reg, true);
        self.bind(id, reg);
    }

    /// Whether register `reg` is in use.
    pub fn is_used(&self, reg: usize) -> (r: bool)
        requires
            self.wf(),
            reg < NUM_REGS,
        ensures
            r == self.used()[reg as int],
    {
        self.reg_used[reg]
    }

    /// Marks a register as in use or free (a register bound to a variable
    /// is never freed).
    pub(crate) fn set_used(&mut self, reg: usize, value: bool)
        requires
            old(self).wf(),
            reg < NUM_REGS,
            value || old(self).unbound(reg),
        ensures
            final(self).wf(),
            old(self).same_context(final(self)),
            final(self).used() == old(self).used().update(reg as int, value),
            final(self).errors() == old(self).errors(),
    {
        self.reg_used.set(reg, value);
        assert(self.regs() == old(self).regs());
        assert forall|k: SymbolId| #[trigger] self.regs().contains_key(k) implies self.used()[self.regs()[k] as int] by {
            assert(old(self).regs().contains_key(k));
        }
    }

    /// Binds a variable to a register in use.
    pub(crate) fn bind(&mut self, id: SymbolId, reg: usize)
        requires
            old(self).wf(),
            reg < NUM_REGS,
            old(self).used()[reg as int],
        ensures
            final(self).wf(),
            final(self).regs() == old(self).regs().insert(id, reg),
            final(self).symbols() == old(self).symbols(),
            final(self).rel_id() == old(self).rel_id(),
            final(self).used() == old(self).used(),
            final(self).errors() == old(self).errors(),
    {
        self.reg_map.insert(id, reg);
        assert forall|k: SymbolId| #[trigger] self.regs().contains_key(k) implies self.regs()[k] < NUM_REGS
            && self.used()[self.regs()[k] as int] by {
            if k != id {
                assert(old(self).regs().contains_key(k));
            }
        }
    }

    /// The register a variable is bound to, if any.
    pub(crate) fn lookup(&self, id: SymbolId) -> (r: Option<usize>)
        requires
            self.wf(),
        ensures
            r == (if self.regs().contains_key(id) { Some(self.regs()[id]) } else { None }),
    {
        match self.reg_map.get(&id) {
            Some(reg) => Some(*reg),
            None => None,
        }
    }

    /// What the name `id` stands for.
    pub(crate) fn ident_info(&self, id: SymbolId) -> (r: IdentInfo)
        ensures
            r == ident_info(self.symbols(), id),
    {
        if id < self.symbol_table.len() {
            match &self.symbol_table[id].kind {
                SymbolKind::Variable(t) => IdentInfo::Variable(t.duplicate()),
                SymbolKind::EntMember { parent, mapping } => IdentInfo::EntMember { parent: *parent, mapping: *mapping },
                _ => IdentInfo::Other,
            }
        } else {
            IdentInfo::Other
        }
    }

    /// Takes the lowest free register and marks it as used; where every
    /// register is in use, reports `TooManySymbols` for the relation and
    /// returns `None`.
    pub fn get_next_reg(&mut self) -> (r: Option<usize>)
        requires
            old(self).wf(),
        ensures
            final(self).wf(),
            r == alloc_choice(old(self).used()),
            old(self).allocated(final(self)),
    {
        proof {
            lemma_first_free_from(self.used(), 0);
        }
        let mut i: usize = 0;
        while i < NUM_REGS
            invariant
                i <= NUM_REGS,
                self.wf(),
                self.used() == old(self).used(),
                old(self).same_context(self),
                self.errors() == old(self).errors(),
                forall|j: int| 0 <= j < i ==> self.used()[j],
                first_free(self.used()) >= i,
                first_free(self.used()) <= NUM_REGS,
                first_free(self.used()) < NUM_REGS ==> !self.used()[first_free(self.used()) as int],
                forall|j: int| 0 <= j < first_free(self.used()) && j < NUM_REGS ==> self.used()[j],
            decreases NUM_REGS - i,
        {
            if !self.reg_used[i] {
                self.set_used(i, true);
                return Some(i);
            }
            i = i + 1;
        }
        // a relation missing from the symbol table is reported without a name
        let (name, span) = if self.rel_symbol_id < self.symbol_table.len() {
            (self.symbol_table[self.rel_symbol_id].name.clone(), self.symbol_table[self.rel_symbol_id].span)
        } else {
            (String::new(), Span { line: 0, col: 0 })
        };
        self.diagnostics.error(CompilerError::TooManySymbols { rel_name: name, rel_span: span });
        assert(self.errors().drop_last() =~= old(self).errors());
        None
    }

    /// The destination for a result computed from `src` (see `took_dest`).
    pub(crate) fn dest_for(&mut self, src: Source) -> (r: Option<usize>)
        requires
            old(self).wf(),
            source_ok(src),
        ensures
            final(self).wf(),
            r == dest_choice(old(self).used(), src),
            old(self).took_dest(final(self), src),
            final(self).used() == used_after_dest(old(self).used(), src),
            r matches Some(d) ==> d < NUM_REGS,
    {
        match src {
            Source::RegInter(reg) => Some(reg),
            _ => {
                proof {
                    lemma_first_free_from(self.used(), 0);
                }
                self.get_next_reg()
            },
        }
    }

    /// `new` and `code1` follow from `self` and `code0` by finding the
    /// destination `d` for a result computed from `src` and appending
    /// `make(d)`, the result being `d`; or, where no register is free, by
    /// reporting it, the result being `None`.
    pub open spec fn emitted_one(
        &self,
        new: &Self,
        code0: Seq<Instruction>,
        code1: Seq<Instruction>,
        src: Source,
        make: spec_fn(usize) -> Instruction,
        r: Option<Source>,
    ) -> bool {
        &&& self.took_dest(new, src)
        &&& match dest_choice(self.used(), src) {
            Some(d) => r == Some(Source::RegInter(d)) && code1 == code0.push(make(d)),
            None => r is None && code1 == code0,
        }
    }

    /// The destination of an operation on `src1` and `src2`: the register of
    /// the first intermediate one (freeing the second's where both are
    /// intermediate), or a newly taken register.
    pub fn get_binary_dest(&mut self, src1: Source, src2: Source) -> (r: Option<usize>)
        requires
            old(self).wf(),
            source_ok(src1),
            source_ok(src2),
            src2 matches Source::RegInter(r2) ==> old(self).unbound(r2),
        ensures
            final(self).wf(),
            r matches Some(d) ==> d < NUM_REGS,
            match (src1, src2) {
                (Source::RegInter(r1), Source::RegInter(r2)) => {
                    &&& r == Some(r1)
                    &&& old(self).same_context(final(self))
                    &&& final(self).errors() == old(self).errors()
                    &&& final(self).used() == old(self).used().update(r2 as int, false)
                },
                (Source::RegInter(x), _) => r == Some(x) && old(self).same_state(final(self)),
                (_, Source::RegInter(x)) => r == Some(x) && old(self).same_state(final(self)),
                _ => r == alloc_choice(old(self).used()) && old(self).allocated(final(self)),
            },
    {
        match (src1, src2) {
            (Source::RegInter(reg1), Source::RegInter(reg2)) => {
                self.set_used(reg2, false);
                Some(reg1)
            },
            (Source::RegInter(reg), _) => Some(reg),
            (_, Source::RegInter(reg)) => Some(reg),
            _ => self.get_next_reg(),
        }
    }

    /// Brings a value of type `ty` to an integer: a value modulo `n` is
    /// reduced (`IMOD`); integers and entity values are already integers.
    /// Other types cannot be brought to an integer: the result is `None`.
    pub fn coerce_int(&mut self, bytecode: &mut Vec<Instruction>, src: Source, ty: &Type) -> (r: Option<Source>)
        requires
            old(self).wf(),
            source_ok(src),
        ensures
            final(self).wf(),
            old(self).coerced(final(self), old(bytecode)@, final(bytecode)@, src, r),
            match *ty {
                Type::Mod(n) => old(self).emitted_one(
                    final(self),
                    old(bytecode)@,
                    final(bytecode)@,
                    src,
                    |d: usize| Instruction::IMOD { dest: d, src1: src, src2: Source::Int(n) },
                    r,
                ),
                Type::Int | Type::Custom(_) => {
                    &&& r == Some(src)
                    &&& old(self).same_state(final(self))
                    &&& final(bytecode)@ == old(bytecode)@
                },
                _ => r is None && old(self).same_state(final(self)) && final(bytecode)@ == old(bytecode)@,
            },
    {
        let ghost s0 = *self;
        let ghost code0 = bytecode@;
        proof {
            lemma_appended_refl(code0, s0.used(), src);
            lemma_dest_choice(s0.used(), src);
        }
        match ty {
            Type::Mod(n) => {
                let dest = match self.dest_for(src) {
                    Some(d) => d,
                    None => {
                        proof { lemma_took_dest_advanced(&s0, self, src); }
                        return None;
                    },
                };
                proof {
                    lemma_took_dest_advanced(&s0, self, src);
                    lemma_appended_push(code0, bytecode@, Instruction::IMOD { dest, src1: src, src2: Source::Int(*n) }, s0.used(), src);
                }
                bytecode.push(Instruction::IMOD { dest, src1: src, src2: Source::Int(*n) });
                Some(Source::RegInter(dest))
            },
            Type::Int => Some(src),
            Type::Custom(_) => Some(src),
            _ => None,
        }
    }

    /// Brings a value of type `ty` to a real (`I2F`). A value modulo `n` is
    /// first reduced where `reduce_mod` says so: `(a + b) mod n` is
    /// `(a mod n + b mod n) mod n`, but no such law holds for division or the
    /// right side of a power. Reals are kept; other types give `None`.
    pub fn coerce_real(&mut self, bytecode: &mut Vec<Instruction>, src: Source, ty: &Type, reduce_mod: bool) -> (r: Option<Source>)
        requires
            old(self).wf(),
            source_ok(src),
        ensures
            final(self).wf(),
            old(self).coerced(final(self), old(bytecode)@, final(bytecode)@, src, r),
            match *ty {
                Type::Mod(n) => {
                    &&& old(self).took_dest(final(self), src)
                    &&& match dest_choice(old(self).used(), src) {
                        Some(d) => {
                            &&& r == Some(Source::RegInter(d))
                            &&& final(bytecode)@ == if reduce_mod {
                                old(bytecode)@
                                    .push(Instruction::IMOD { dest: d, src1: src, src2: Source::Int(n) })
                                    .push(Instruction::I2F { dest: d, src: Source::RegInter(d) })
                            } else {
                                old(bytecode)@.push(Instruction::I2F { dest: d, src })
                            }
                        },
                        None => r is None && final(bytecode)@ == old(bytecode)@,
                    }
                },
                Type::Int => old(self).emitted_one(
                    final(self),
                    old(bytecode)@,
                    final(bytecode)@,
                    src,
                    |d: usize| Instruction::I2F { dest: d, src },
                    r,
                ),
                Type::Real => {
                    &&& r == Some(src)
                    &&& old(self).same_state(final(self))
                    &&& final(bytecode)@ == old(bytecode)@
                },
                _ => r is None && old(self).same_state(final(self)) && final(bytecode)@ == old(bytecode)@,
            },
    {
        let ghost s0 = *self;
        let ghost code0 = bytecode@;
        let ghost src0 = src;
        proof {
            lemma_appended_refl(code0, s0.used(), src);
            lemma_dest_choice(s0.used(), src);
        }
        match ty {
            Type::Mod(n) => {
                let src = if reduce_mod {
                    let dest = match self.dest_for(src) {
                        Some(d) => d,
                        None => {
                            proof { lemma_took_dest_advanced(&s0, self, src); }
                            return None;
                        },
                    };
                    proof {
                        lemma_took_dest_advanced(&s0, self, src);
                        lemma_appended_push(code0, bytecode@, Instruction::IMOD { dest, src1: src, src2: Source::Int(*n) }, s0.used(), src);
                    }
                    bytecode.push(Instruction::IMOD { dest, src1: src, src2: Source::Int(*n) });
                    Source::RegInter(dest)
                } else {
                    src
                };
                let ghost s1 = *self;
                proof {
                    lemma_dest_choice(s1.used(), src);
                }
                let dest = match self.dest_for(src) {
                    Some(d) => d,
                    None => {
                        proof { lemma_took_dest_advanced(&s1, self, src); }
                        return None;
                    },
                };
                proof {
                    lemma_took_dest_advanced(&s1, self, src);
                    lemma_appended_push(code0, bytecode@, Instruction::I2F { dest, src }, s0.used(), src0);
                }
                bytecode.push(Instruction::I2F { dest, src });
                Some(Source::RegInter(dest))
            },
            Type::Int => {
                let dest = match self.dest_for(src) {
                    Some(d) => d,
                    None => {
                        proof { lemma_took_dest_advanced(&s0, self, src); }
                        return None;
                    },
                };
                proof {
                    lemma_took_dest_advanced(&s0, self, src);
                    lemma_appended_push(code0, bytecode@, Instruction::I2F { dest, src }, s0.used(), src);
                }
                bytecode.push(Instruction::I2F { dest, src });
                Some(Source::RegInter(dest))
            },
            Type::Real => Some(src),
            _ => None,
        }
    }

    /// Brings a value of type `ty` to a boolean: an impulse is true at the
    /// timestep it fires, `src == r0` (`IEQ`); booleans are kept; other
    /// types give `None`.
    pub fn coerce_bool(&mut self, bytecode: &mut Vec<Instruction>, src: Source, ty: &Type) -> (r: Option<Source>)
        requires
            old(self).wf(),
            source_ok(src),
        ensures
            final(self).wf(),
            old(self).coerced(final(self), old(bytecode)@, final(bytecode)@, src, r),
            match *ty {
                Type::Impulse => old(self).emitted_one(
                    final(self),
                    old(bytecode)@,
                    final(bytecode)@,
                    src,
                    |d: usize| Instruction::IEQ { dest: d, src1: src, src2: Source::RegVar(0) },
                    r,
                ),
                Type::Bool => {
                    &&& r == Some(src)
                    &&& old(self).same_state(final(self))
                    &&& final(bytecode)@ == old(bytecode)@
                },
                _ => r is None && old(self).same_state(final(self)) && final(bytecode)@ == old(bytecode)@,
            },
    {
        let ghost s0 = *self;
        let ghost code0 = bytecode@;
        proof {
            lemma_appended_refl(code0, s0.used(), src);
            lemma_dest_choice(s0.used(), src);
        }
        match ty {
            Type::Impulse => {
                let dest = match self.dest_for(src) {
                    Some(d) => d,
                    None => {
                        proof { lemma_took_dest_advanced(&s0, self, src); }
                        return None;
                    },
                };
                proof {
                    lemma_took_dest_advanced(&s0, self, src);
                    lemma_appended_push(code0, bytecode@, Instruction::IEQ { dest, src1: src, src2: Source::RegVar(0) }, s0.used(), src);
                }
                bytecode.push(Instruction::IEQ { dest, src1: src, src2: Source::RegVar(0) });
                Some(Source::RegInter(dest))
            },
            Type::Bool => Some(src),
            _ => None,
        }
    }

    /// Brings a value of type `ty` to an impulse: an impulse is delayed by
    /// the relation's delay (`src + r1`); a boolean becomes the delayed
    /// current timestep where it is true and 0 where it is false
    /// (`src * (r0 + r1)`, true being 1). Other types give `None`.
    pub fn coerce_impulse(&mut self, bytecode: &mut Vec<Instruction>, src: Source, ty: &Type) -> (r: Option<Source>)
        requires
            old(self).wf(),
            source_ok(src),
        ensures
            final(self).wf(),
            old(self).coerced(final(self), old(bytecode)@, final(bytecode)@, src, r),
            match *ty {
                Type::Impulse => old(self).emitted_one(
                    final(self),
                    old(bytecode)@,
                    final(bytecode)@,
                    src,
                    |d: usize| Instruction::IADD { dest: d, src1: src, src2: Source::RegVar(1) },
                    r,
                ),
                Type::Bool => {
                    &&& old(self).same_context(final(self))
                    &&& match dest_choice(old(self).used(), src) {
                        None => {
                            &&& r is None
                            &&& final(bytecode)@ == old(bytecode)@
                            &&& final(self).used() == old(self).used()
                            &&& old(self).reported_too_many(final(self))
                        },
                        Some(d) => {
                            let mid = used_after_dest(old(self).used(), src);
                            match alloc_choice(mid) {
                                None => {
                                    &&& r is None
                                    &&& final(bytecode)@ == old(bytecode)@
                                    &&& final(self).used() == mid
                                    &&& old(self).reported_too_many(final(self))
                                },
                                Some(t) => {
                                    &&& r == Some(Source::RegInter(d))
                                    &&& final(self).used() == mid.update(t as int, true)
                                    &&& final(self).errors() == old(self).errors()
                                    &&& final(bytecode)@ == old(bytecode)@
                                        .push(Instruction::IADD { dest: t, src1: Source::RegVar(0), src2: Source::RegVar(1) })
                                        .push(Instruction::IMUL { dest: d, src1: src, src2: Source::RegInter(t) })
                                },
                            }
                        },
                    }
                },
                _ => r is None && old(self).same_state(final(self)) && final(bytecode)@ == old(bytecode)@,
            },
    {
        let ghost s0 = *self;
        let ghost code0 = bytecode@;
        proof {
            lemma_appended_refl(code0, s0.used(), src);
            lemma_dest_choice(s0.used(), src);
        }
        match ty {
            Type::Impulse => {
                let dest = match self.dest_for(src) {
                    Some(d) => d,
                    None => {
                        proof { lemma_took_dest_advanced(&s0, self, src); }
                        return None;
                    },
                };
                proof {
                    lemma_took_dest_advanced(&s0, self, src);
                    lemma_appended_push(code0, bytecode@, Instruction::IADD { dest, src1: src, src2: Source::RegVar(1) }, s0.used(), src);
                }
                bytecode.push(Instruction::IADD { dest, src1: src, src2: Source::RegVar(1) });
                Some(Source::RegInter(dest))
            },
            Type::Bool => {
                let dest = match self.dest_for(src) {
                    Some(d) => d,
                    None => {
                        proof { lemma_took_dest_advanced(&s0, self, src); }
                        return None;
                    },
                };
                let ghost s1 = *self;
                proof {
                    lemma_took_dest_advanced(&s0, self, src);
                    lemma_first_free_from(s1.used(), 0);
                }
                let time_reg = match self.get_next_reg() {
                    Some(t) => t,
                    None => {
                        proof {
                            lemma_took_dest_advanced(&s1, self, Source::Int(0));
                            crate::expr_compiler::lemma_keeps_used_trans(s0.used(), s1.used(), self.used());
                        }
                        return None;
                    },
                };
                proof {
                    lemma_took_dest_advanced(&s1, self, Source::Int(0));
                    crate::expr_compiler::lemma_keeps_used_trans(s0.used(), s1.used(), self.used());
                    assert(!s1.used()[time_reg as int]);
                    lemma_appended_push(code0, bytecode@, Instruction::IADD { dest: time_reg, src1: Source::RegVar(0), src2: Source::RegVar(1) }, s0.used(), src);
                    lemma_appended_push(code0, bytecode@.push(Instruction::IADD { dest: time_reg, src1: Source::RegVar(0), src2: Source::RegVar(1) }),
                        Instruction::IMUL { dest, src1: src, src2: Source::RegInter(time_reg) }, s0.used(), src);
                }
                bytecode.push(Instruction::IADD { dest: time_reg, src1: Source::RegVar(0), src2: Source::RegVar(1) });
                bytecode.push(Instruction::IMUL { dest, src1: src, src2: Source::RegInter(time_reg) });
                Some(Source::RegInter(dest))
            },
            _ => None,
        }
    }

    /// Brings two values to the type they are compared at (`equal_type`),
    /// for matching a `cases` pattern. `None` where a value cannot be
    /// brought to that type, or the registers run out.
    pub fn coerce_equal(
        &mut self,
        bytecode: &mut Vec<Instruction>,
        src_l: Source,
        type_l: &Type,
        src_r: Source,
        type_r: &Type,
    ) -> (r: Option<(Source, Source, Type)>)
        requires
            old(self).wf(),
            source_ok(src_l),
            source_ok(src_r),
        ensures
            final(self).wf(),
            old(self).same_context(final(self)),
            keeps_used(old(self).used(), final(self).used()),
            final(self).errors() == old(self).errors() || (old(self).reported_too_many(final(self)) && r is None),
            appended_ok2(old(bytecode)@, final(bytecode)@, old(self).used(), src_l, src_r),
            r matches Some((l, rr, t)) ==> {
                &&& t == equal_type(*type_l, *type_r)
                &&& source_ok(l) && source_ok(rr)
                &&& (l == src_l || (l matches Source::RegInter(z) && final(self).used()[z as int]
                    && (src_l == Source::RegInter(z) || !old(self).used()[z as int])))
                &&& (rr == src_r || (rr matches Source::RegInter(z) && final(self).used()[z as int]
                    && (src_r == Source::RegInter(z) || !old(self).used()[z as int])))
            },
            r is None <==> (!equal_coercible(*type_l, *type_r) || final(self).errors() != old(self).errors()),
            r matches Some((l, rr, t)) ==> exists|d1: usize, d2: usize| #[trigger] equal_conversions(
                old(bytecode)@, final(bytecode)@, *type_l, *type_r, t, src_l, src_r, l, rr, d1, d2),
    {
        let ghost s0 = *self;
        let ghost c0 = bytecode@;
        let left_real = match type_l {
            Type::Real => true,
            _ => false,
        };
        let left_int = match type_l {
            Type::Int => true,
            _ => false,
        };
        let (new_src_l, new_type) = match type_r {
            Type::Real => match self.coerce_real(bytecode, src_l, type_l, true) {
                Some(s) => (s, Type::Real),
                None => {
                    proof { lemma_appended_chain(c0, bytecode@, bytecode@, s0.used(), self.used(), src_l, src_r); }
                    return None;
                },
            },
            Type::Int if !left_real => match self.coerce_int(bytecode, src_l, type_l) {
                Some(s) => (s, Type::Int),
                None => {
                    proof { lemma_appended_chain(c0, bytecode@, bytecode@, s0.used(), self.used(), src_l, src_r); }
                    return None;
                },
            },
            Type::Mod(n) if !left_real && !left_int => match self.coerce_int(bytecode, src_l, type_l) {
                Some(s) => (s, Type::Mod(*n)),
                None => {
                    proof { lemma_appended_chain(c0, bytecode@, bytecode@, s0.used(), self.used(), src_l, src_r); }
                    return None;
                },
            },
            Type::Bool => match self.coerce_bool(bytecode, src_l, type_l) {
                Some(s) => (s, Type::Bool),
                None => {
                    proof { lemma_appended_chain(c0, bytecode@, bytecode@, s0.used(), self.used(), src_l, src_r); }
                    return None;
                },
            },
            _ => {
                proof { lemma_appended_refl(c0, s0.used(), src_l); }
                (src_l, type_l.duplicate())
            },
        };
        let ghost s1 = *self;
        let ghost c1 = bytecode@;
        let ghost d1: usize = match dest_choice(s0.used(), src_l) {
            Some(d) => d,
            None => 0,
        };
        proof {
            lemma_appended_refl(c1, s1.used(), src_r);
            assert(c1 =~= c0 + left_conversion(*type_l, *type_r, new_type, src_l, d1));
        }
        let new_src_r = match new_type {
            Type::Real => self.coerce_real(bytecode, src_r, type_r, true),
            Type::Int => self.coerce_int(bytecode, src_r, type_r),
            Type::Bool => self.coerce_bool(bytecode, src_r, type_r),
            Type::Mod(_) => self.coerce_int(bytecode, src_r, type_r),
            _ => Some(src_r),
        };
        proof {
            lemma_keeps_used_trans(s0.used(), s1.used(), self.used());
            lemma_appended_chain(c0, c1, bytecode@, s0.used(), s1.used(), src_l, src_r);
        }
        let ghost d2: usize = match dest_choice(s1.used(), src_r) {
            Some(d) => d,
            None => 0,
        };
        match new_src_r {
            Some(s) => {
                proof {
                    assert(bytecode@ =~= c1 + conversion(*type_r, new_type, src_r, d2));
                    assert(s == converted(*type_r, new_type, src_r, d2));
                    assert(c0 + left_conversion(*type_l, *type_r, new_type, src_l, d1) + conversion(*type_r, new_type, src_r, d2)
                        =~= bytecode@);
                    assert(equal_conversions(c0, bytecode@, *type_l, *type_r, new_type, src_l, src_r, new_src_l, s, d1, d2));
                    if let Source::RegInter(z) = new_src_l {
                        if new_src_l != src_l {
                            assert(s1.used()[z as int]);
                        }
                    }
                }
                Some((new_src_l, s, new_type))
            },
            None => None,
        }
    }

    /// Compiles a relation: registers 0 and 1 are kept for the timestep and
    /// the delay, each parameter is bound to the next register, the body is
    /// compiled and brought to the return type, and `RET` ends the code.
    /// The code never writes the timestep, the delay or a parameter.
    fn compile_relation(&mut self, relation: RelType) -> (r: Option<CompiledRel>)
        requires
            old(self).wf(),
            old(self).rel_id() < old(self).symbols().len(),
            old(self).used() == used_below(0),
            old(self).regs() == Map::<SymbolId, usize>::empty(),
        ensures
            final(self).wf(),
            final(self).symbols() == old(self).symbols(),
            final(self).rel_id() == old(self).rel_id(),
            final(self).errors() == old(self).errors() || (old(self).reported_too_many(final(self)) && r is None),
            r matches Some(c) ==> {
                &&& c.name@ == old(self).symbols()[old(self).rel_id() as int].name@
                &&& c.complexity == 0
                &&& exists|ir: Seq<Instruction>| {
                    &&& c.bytecode@ == encode_all(ir)
                    &&& c.float_patches@ == patches_all(ir)
                    &&& ir.len() > 0
                    &&& ir.last() is RET
                    &&& forall|k: int| 0 <= k < ir.len() ==> instr_ok(#[trigger] ir[k])
                    &&& writes_from(ir, 2 + symbol_params(relation.params@))
                    &&& jump_safe(relation.body) ==> jumps_ok(ir)
                    &&& returns_literal(relation) ==> ir == seq![Instruction::RET { src: literal_source(relation.body->Literal_0) }]
                    &&& returns_param(old(self).symbols(), relation) ==> ir == seq![Instruction::RET {
                        src: Source::RegVar(param_reg(relation.params@, relation.body->Ident_0->Symbol_0) as usize),
                    }]
                    &&& !(relation.return_type is Impulse) ==> returns_body(old(self).symbols(), relation, ir)
                }
            },
            final(self).errors() == old(self).errors() && expr_ok(old(self).symbols(), param_ids(relation.params@), relation.body)
                && returns_as(result_type(old(self).symbols(), relation.body), relation.return_type) ==> r is Some,
    {
        let ghost s0 = *self;
        proof {
            lemma_used_below_first_free(0);
            lemma_used_below_first_free(1);
        }
        self.set_used(0, true);
        self.set_used(1, true);
        proof {
            assert(self.used() =~= used_below(2));
        }
        let RelType { params, return_type, body, .. } = relation;
        let ghost params0 = params@;
        let n = params.len();
        let mut i: usize = 0;
        let mut bound: usize = 2;
        while i < n
            invariant
                n == params0.len(),
                i <= n,
                params0 == params@,
                self.wf(),
                s0 == *old(self),
                self.symbols() == s0.symbols(),
                self.rel_id() == s0.rel_id(),
                self.errors() == s0.errors(),
                bound == 2 + symbol_params(params0.take(i as int)),
                bound <= NUM_REGS,
                self.used() == used_below(bound as nat),
                self.regs().dom() == param_ids(params0.take(i as int)),
                forall|id: SymbolId| #[trigger] self.regs().contains_key(id) ==> self.regs()[id] == param_reg(params0.take(i as int), id),
            decreases n - i,
        {
            assert(params0.take(i + 1).drop_last() =~= params0.take(i as int));
            if let Ident::Symbol(symbol_id) = &params[i].name {
                proof {
                    lemma_used_below_first_free(bound as nat);
                }
                let idx = match self.get_next_reg() {
                    Some(r) => r,
                    None => return None,
                };
                self.bind(*symbol_id, idx);
                bound = bound + 1;
            }
            i = i + 1;
        }
        assert(params0.take(n as int) =~= params0);
        assert(relation.params@ == params0);
        let ghost s2 = *self;
        let (mut ir, src, result_type) = match self.compile_expr(body) {
            Some(res) => res,
            None => return None,
        };
        let ghost s3 = *self;
        let ghost c3 = ir@;
        let ghost body_src = src;
        let ghost d: usize = match dest_choice(s3.used(), src) {
            Some(d) => d,
            None => 0,
        };
        proof {
            assert(s2.used() == used_below(bound as nat));
        }
        let coerced = match return_type {
            Type::Bool => self.coerce_bool(&mut ir, src, &result_type),
            Type::Impulse => self.coerce_impulse(&mut ir, src, &result_type),
            Type::Int => self.coerce_int(&mut ir, src, &result_type),
            Type::Real => self.coerce_real(&mut ir, src, &result_type, true),
            Type::Mod(_) => self.coerce_int(&mut ir, src, &result_type),
            Type::Custom(Ident::Symbol(_)) => Some(src),
            _ => None,
        };
        proof {
            if !(return_type matches Type::Custom(Ident::Symbol(_))) && (return_type is Bool || return_type is Impulse
                || return_type is Int || return_type is Real || return_type is Mod) {
                lemma_appended_code_ok(c3, ir@, s2.used(), s3.used(), src);
                if jump_safe(relation.body) {
                    lemma_appended_jumps(c3, ir@, s3.used(), src);
                }
            }
        }
        let src = match coerced {
            Some(s) => s,
            None => return None,
        };
        proof {
            lemma_code_ok_push(ir@, Instruction::RET { src }, s2.used());
            if jump_safe(relation.body) {
                lemma_jumps_ok_push(ir@, Instruction::RET { src });
            }
        }
        let ghost c4 = ir@;
        ir.push(Instruction::RET { src });
        proof {
            lemma_code_ok_writes_from(ir@, bound as nat);
            if !(relation.return_type is Impulse) {
                let t = crate::expr_compiler::result_type(s0.symbols(), relation.body);
                assert(body_ends(s0.symbols(), relation.body, c3, body_src));
                assert(c4 =~= c3 + conversion(t, relation.return_type, body_src, d));
                assert(src == converted(t, relation.return_type, body_src, d));
                assert(ir@ =~= c3 + conversion(t, relation.return_type, body_src, d)
                    + seq![Instruction::RET { src: converted(t, relation.return_type, body_src, d) }]);
                assert(returns_body(s0.symbols(), relation, ir@));
            }
        }
        let (bytecode, float_patches) = lower_ir(ir);
        let name = self.symbol_table[self.rel_symbol_id].name.clone();
        Some(CompiledRel { name, complexity: 0, bytecode, float_patches })
    }

    /// Compiles the relation `relation` with the symbols of `symbol_table`.
    /// `None` where the relation has no symbol, the body cannot be compiled
    /// or brought to the return type, or the registers run out, which is
    /// reported in `diagnostics`.
    pub fn compile(relation: RelType, symbol_table: &'a [Symbol], diagnostics: &mut Diagnostics) -> (r: Option<CompiledRel>)
        ensures
            final(diagnostics)@ == old(diagnostics)@ || (r is None && final(diagnostics)@.len() == old(diagnostics)@.len() + 1
                && final(diagnostics)@.drop_last() == old(diagnostics)@
                && (relation.name matches Ident::Symbol(id) && id < symbol_table@.len()
                    && is_too_many_symbols(final(diagnostics)@.last(), symbol_table@[id as int]))),
            !(relation.name is Symbol) ==> r is None,
            r matches Some(c) ==> {
                &&& relation.name matches Ident::Symbol(id) && id < symbol_table@.len()
                    && c.name@ == symbol_table@[id as int].name@
                &&& c.complexity == 0
                &&& exists|ir: Seq<Instruction>| {
                    &&& c.bytecode@ == encode_all(ir)
                    &&& c.float_patches@ == patches_all(ir)
                    &&& ir.len() > 0
                    &&& ir.last() is RET
                    &&& forall|k: int| 0 <= k < ir.len() ==> instr_ok(#[trigger] ir[k])
                    &&& writes_from(ir, 2 + symbol_params(relation.params@))
                    &&& jump_safe(relation.body) ==> jumps_ok(ir)
                    &&& returns_literal(relation) ==> ir == seq![Instruction::RET { src: literal_source(relation.body->Literal_0) }]
                    &&& returns_param(symbol_table@, relation) ==> ir == seq![Instruction::RET {
                        src: Source::RegVar(param_reg(relation.params@, relation.body->Ident_0->Symbol_0) as usize),
                    }]
                    &&& !(relation.return_type is Impulse) ==> returns_body(symbol_table@, relation, ir)
                }
            },
            rel_compiles(symbol_table@, relation) && final(diagnostics)@ == old(diagnostics)@ ==> r is Some,
    {
        let rel_symbol_id = match &relation.name {
            Ident::Symbol(id) => *id,
            _ => return None,
        };
        if rel_symbol_id >= symbol_table.len() {
            return None;
        }
        let mut taken = Diagnostics::new();
        std::mem::swap(&mut taken, diagnostics);
        let mut compiler = RelCompiler::new(rel_symbol_id, symbol_table, taken);
        proof {
            assert(compiler.used() =~= used_below(0));
        }
        let r = compiler.compile_relation(relation);
        let mut back = compiler.into_diagnostics();
        std::mem::swap(&mut back, diagnostics);
        r
    }
}

} // verus!
