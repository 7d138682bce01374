//! Compilation of expressions into instructions.
//!
//! Every compiled expression comes with the register discipline the
//! machine relies on (see `advanced` and `valid_result`): the code writes
//! only registers that were free when its compilation began, so it never
//! overwrites the timestep, the delay, a parameter, a variable or a value
//! still waiting to be used; and the registers in use stay in use.

use vstd::prelude::*;
use crate::ast::{
    BinaryExpr, BinaryOp, BlockExpr, CasesArm, CasesExpr, CompOp, ComparisonPattern, Expr, Ident, Literal, Prob,
    SampleArm, SampleExpr, SimplePattern, Statement, UnaryExpr, UnaryOp,
};
use crate::ir::{
    Instruction, Layout, Source, code_size, is_jump, jump_distance, layout, lemma_code_size_append, update_jmp_offset,
    with_offset,
};
use crate::rel_compiler::{
    IdentInfo, NUM_REGS, RelCompiler, alloc_choice, dest_choice, first_free, ident_info,
    lemma_first_free_from, source_ok, converted,
};
use crate::jumps::{
    arms_landed, jumps_land_by, jumps_ok, lands, lemma_arm_step, lemma_arms_landed_ok, lemma_close_arms,
    lemma_jumps_ok_append, lemma_jumps_ok_empty, lemma_jumps_ok_push, lemma_land_by_append, lemma_lands_drop_last,
    lemma_lands_next, lemma_lands_update, lemma_retarget, lemma_skip_one, aimed, dist, increasing, listed,
    lemma_increasing_fresh, lemma_listed_take, lemma_offset_add, lemma_offset_bits_add, lemma_same_sizes_dist,
    shifted, ends_open, lemma_increasing_concat, lemma_miss_jump, lemma_misses_concat, lemma_misses_mod,
    lemma_shift_misses, misses_land, offset_indices, lemma_aim_exits, lemma_aim_keeps, lemma_ends_open_ok,
    lemma_jumps_ok_misses, lemma_misses_at_end, lemma_offset_minus_three, lemma_size_one,
};
use crate::token::Decimal;
use crate::types::{Symbol, SymbolId, Type};

verus! {

/// The instruction names only registers of the machine.
pub open spec fn instr_ok(i: Instruction) -> bool {
    match layout(i) {
        Layout::Three { dest, src1, src2, .. } => dest < NUM_REGS && source_ok(src1) && source_ok(src2),
        Layout::Two { dest, src, .. } => dest < NUM_REGS && source_ok(src),
        Layout::CondJump { src1, src2, .. } => source_ok(src1) && source_ok(src2),
        Layout::Jump { .. } => true,
        Layout::Ret { src } => source_ok(src),
        Layout::Error { src, .. } => match src {
            Some(s) => source_ok(s),
            None => true,
        },
        Layout::Rnd { dest } => dest < NUM_REGS,
    }
}

/// The register an instruction writes, if any.
pub open spec fn written_reg(i: Instruction) -> Option<usize> {
    match layout(i) {
        Layout::Three { dest, .. } => Some(dest),
        Layout::Two { dest, .. } => Some(dest),
        Layout::Rnd { dest } => Some(dest),
        _ => None,
    }
}

/// The code names only registers of the machine and writes only registers
/// that are free in `used`.
pub open spec fn code_ok(code: Seq<Instruction>, used: Seq<bool>) -> bool {
    forall|k: int| 0 <= k < code.len() ==> {
        &&& instr_ok(#[trigger] code[k])
        &&& (written_reg(code[k]) matches Some(d) ==> !used[d as int])
    }
}

/// Every register in use in `a` is in use in `b`.
pub open spec fn keeps_used(a: Seq<bool>, b: Seq<bool>) -> bool {
    &&& b.len() == a.len()
    &&& forall|i: int| 0 <= i < a.len() && #[trigger] a[i] ==> b[i]
}

/// `code1` is `code0` followed by instructions that name only registers of
/// the machine and write only registers free in `used`, or the register of
/// `src` where that is an intermediate one.
pub open spec fn appended_ok(code0: Seq<Instruction>, code1: Seq<Instruction>, used: Seq<bool>, src: Source) -> bool {
    &&& code0.len() <= code1.len()
    &&& code1.subrange(0, code0.len() as int) == code0
    &&& forall|k: int| code0.len() <= k < code1.len() ==> {
        &&& instr_ok(#[trigger] code1[k])
        &&& !is_jump(code1[k])
        &&& (written_reg(code1[k]) matches Some(d) ==> !used[d as int] || src == Source::RegInter(d))
    }
}

/// As `appended_ok`, where the instructions may also write the register of `src2`.
pub open spec fn appended_ok2(code0: Seq<Instruction>, code1: Seq<Instruction>, used: Seq<bool>, src1: Source, src2: Source) -> bool {
    &&& code0.len() <= code1.len()
    &&& code1.subrange(0, code0.len() as int) == code0
    &&& forall|k: int| code0.len() <= k < code1.len() ==> {
        &&& instr_ok(#[trigger] code1[k])
        &&& !is_jump(code1[k])
        &&& (written_reg(code1[k]) matches Some(d) ==> !used[d as int] || src1 == Source::RegInter(d) || src2 == Source::RegInter(d))
    }
}

/// The type two values are compared at: a real against anything is
/// compared as reals; an integer or a value modulo `n` against anything but
/// a real as that; a boolean as booleans; otherwise at the left one's type.
/// A value of type `from` can be brought to type `to`: to a real from an
/// integer, a value modulo `n` or a real; to an integer or a value modulo
/// `n` from either or an entity; to a boolean from a boolean or an impulse;
/// to any other type from anything (it is left as it is).
pub open spec fn converts_to(from: Type, to: Type) -> bool {
    match to {
        Type::Real => from is Mod || from is Int || from is Real,
        Type::Int | Type::Mod(_) => from is Mod || from is Int || from is Custom,
        Type::Bool => from is Impulse || from is Bool,
        _ => true,
    }
}

/// Both sides of a comparison can be brought to the type they are compared at.
pub open spec fn equal_coercible(tl: Type, tr: Type) -> bool {
    converts_to(tl, equal_type(tl, tr)) && converts_to(tr, equal_type(tl, tr))
}

pub open spec fn equal_type(tl: Type, tr: Type) -> Type {
    match tr {
        Type::Real => Type::Real,
        Type::Int => if tl is Real { tl } else { Type::Int },
        Type::Mod(n) => if tl is Real || tl is Int { tl } else { Type::Mod(n) },
        Type::Bool => Type::Bool,
        _ => tl,
    }
}

/// Every `cases` in the expression has at least one arm, and every arm at
/// least one pattern: the inputs on which the compiled jumps all land.
pub open spec fn jump_safe(e: Expr) -> bool
    decreases e,
{
    match e {
        Expr::Unary(u) => jump_safe(*u.expr),
        Expr::Binary(b) => jump_safe(*b.left) && jump_safe(*b.right),
        Expr::Block(b) => {
            &&& forall|i: int| 0 <= i < b.statements.len() ==> statement_jump_safe(#[trigger] b.statements@[i])
            &&& jump_safe(*b.expr)
        },
        Expr::Sample(s) => forall|i: int| 0 <= i < s.arms.len() ==> sample_arm_jump_safe(#[trigger] s.arms@[i]),
        Expr::Cases(c) => {
            &&& c.arms.len() > 0
            &&& forall|i: int| 0 <= i < c.arms.len() ==> cases_arm_jump_safe(#[trigger] c.arms@[i])
            &&& match *c.scrutinee {
                Expr::Tuple(v) => forall|i: int| 0 <= i < v.len() ==> jump_safe(#[trigger] v@[i]),
                other => jump_safe(other),
            }
        },
        _ => true,
    }
}

/// A `cases` arm has at least one pattern, and its patterns and value are
/// `jump_safe`.
pub open spec fn cases_arm_jump_safe(a: CasesArm) -> bool
    decreases a,
{
    &&& a.pattern.len() > 0
    &&& forall|i: int| 0 <= i < a.pattern.len() ==> pattern_jump_safe(#[trigger] a.pattern@[i])
    &&& jump_safe(a.expr)
}

/// The pattern holds no expression that is not `jump_safe`.
pub open spec fn pattern_jump_safe(p: SimplePattern) -> bool
    decreases p,
{
    match p {
        SimplePattern::Comparison(c) => jump_safe(*c.expr),
        SimplePattern::Tuple(parts) => forall|i: int| 0 <= i < parts.len() ==> pattern_jump_safe(#[trigger] parts@[i]),
        _ => true,
    }
}

pub open spec fn statement_jump_safe(s: Statement) -> bool
    decreases s,
{
    match s {
        Statement::Let(l) => jump_safe(l.expr),
        Statement::Error => true,
    }
}

pub open spec fn prob_jump_safe(p: Prob) -> bool
    decreases p,
{
    match p {
        Prob::Expr(e) => jump_safe(e),
        Prob::Default => true,
    }
}

pub open spec fn sample_arm_jump_safe(a: SampleArm) -> bool
    decreases a,
{
    prob_jump_safe(a.prob) && jump_safe(a.expr)
}

/// The source and type of a literal.
pub open spec fn literal_source(l: Literal) -> Source {
    match l {
        Literal::Bool(b) => Source::Bool(b),
        Literal::Int(i) => Source::Int(i),
        Literal::Real(d) => Source::Float(d),
    }
}

pub open spec fn literal_type(l: Literal) -> Type {
    match l {
        Literal::Bool(_) => Type::Bool,
        Literal::Int(_) => Type::Int,
        Literal::Real(_) => Type::Real,
    }
}

/// The type of the value an expression compiles to: a literal's, a
/// variable's declared type, an entity for a member, the block's final
/// expression's, and otherwise the type the expression carries.
pub open spec fn result_type(symbols: Seq<Symbol>, e: Expr) -> Type
    decreases e,
{
    match e {
        Expr::Literal(l) => literal_type(l),
        Expr::Ident(Ident::Symbol(id)) => match ident_info(symbols, id) {
            IdentInfo::Variable(t) => t,
            IdentInfo::EntMember { parent, .. } => Type::Custom(Ident::Symbol(parent)),
            IdentInfo::Other => Type::Unknown,
        },
        Expr::Unary(u) => u.expr_type,
        Expr::Binary(b) => b.expr_type,
        Expr::Block(b) => result_type(symbols, *b.expr),
        Expr::Sample(s) => s.expr_type,
        Expr::Cases(c) => c.expr_type,
        _ => Type::Unknown,
    }
}

/// The class of types that compare with one another and stay in the class:
/// 0 integers, values modulo `n` and entities; 1 reals; 2 booleans and
/// impulses; 3 any other.
pub open spec fn type_class(t: Type) -> int {
    match t {
        Type::Int | Type::Mod(_) | Type::Custom(_) => 0,
        Type::Real => 1,
        Type::Bool | Type::Impulse => 2,
        _ => 3,
    }
}

pub open spec fn type_classes(ts: Seq<Type>) -> Seq<int> {
    ts.map_values(|t: Type| type_class(t))
}

/// `t` is of class `c`, one that compares.
pub open spec fn same_class(c: int, t: Type) -> bool {
    c != 3 && c == type_class(t)
}

/// The negation or logical not of a value of type `ty` has an instruction.
pub open spec fn unary_ok(ty: Type, op: UnaryOp) -> bool {
    match op {
        UnaryOp::Neg => ty is Mod || ty is Int || ty is Real,
        UnaryOp::BitNot => ty is Bool,
    }
}

/// The operator `op` giving type `ty` has an instruction, and operands of
/// types `lt` and `rt` can be brought to the types it works on.
pub open spec fn binary_ok(ty: Type, op: BinaryOp, lt: Type, rt: Type) -> bool {
    match op {
        BinaryOp::Add | BinaryOp::Sub | BinaryOp::Mul => match ty {
            Type::Mod(_) | Type::Int => true,
            Type::Real => converts_to(lt, Type::Real) && converts_to(rt, Type::Real),
            _ => false,
        },
        BinaryOp::Div => match ty {
            Type::Mod(_) | Type::Int => converts_to(lt, Type::Int) && converts_to(rt, Type::Int),
            Type::Real => converts_to(lt, Type::Real) && converts_to(rt, Type::Real),
            _ => false,
        },
        BinaryOp::Pow => match ty {
            Type::Mod(_) | Type::Int => converts_to(rt, Type::Int),
            Type::Real => converts_to(lt, Type::Real) && converts_to(rt, Type::Real),
            _ => false,
        },
        BinaryOp::Lt | BinaryOp::Gt | BinaryOp::Le | BinaryOp::Ge => ty is Bool && if lt is Real || rt is Real {
            converts_to(lt, Type::Real) && converts_to(rt, Type::Real)
        } else {
            converts_to(lt, Type::Int) && converts_to(rt, Type::Int)
        },
        BinaryOp::Or | BinaryOp::And => ty is Bool && converts_to(lt, Type::Bool) && converts_to(rt, Type::Bool),
    }
}

/// The names the `let`s of the statements bind.
pub open spec fn let_ids(stmts: Seq<Statement>) -> Set<SymbolId>
    decreases stmts.len(),
{
    if stmts.len() == 0 {
        Set::empty()
    } else {
        let rest = let_ids(stmts.drop_last());
        match stmts.last() {
            Statement::Let(l) => match l.name {
                Ident::Symbol(id) => rest.insert(id),
                _ => rest,
            },
            _ => rest,
        }
    }
}

/// The classes of the scrutinee values of a `cases`: one per element of a
/// tuple, or the one value.
pub open spec fn scrutinee_classes(symbols: Seq<Symbol>, e: Expr) -> Seq<int> {
    match e {
        Expr::Tuple(v) => Seq::new(v.len() as nat, |k: int| type_class(result_type(symbols, v@[k]))),
        other => seq![type_class(result_type(symbols, other))],
    }
}

/// The expression compiles, unless the registers run out, where the
/// variables in `bound` have registers: every name is a variable in
/// `bound` (or bound by an earlier `let` of its block) or an entity member;
/// every operator has an instruction for its type and its operands can be
/// brought to it; a `sample` has arms and real probabilities; a `cases`
/// compares each scrutinee value only with values of its class.
pub open spec fn expr_ok(symbols: Seq<Symbol>, bound: Set<SymbolId>, e: Expr) -> bool
    decreases e,
{
    match e {
        Expr::Literal(_) => true,
        Expr::Ident(Ident::Symbol(id)) => match ident_info(symbols, id) {
            IdentInfo::Variable(_) => bound.contains(id),
            IdentInfo::EntMember { .. } => true,
            IdentInfo::Other => false,
        },
        Expr::Unary(u) => unary_ok(u.expr_type, u.op) && expr_ok(symbols, bound, *u.expr),
        Expr::Binary(b) => {
            &&& binary_ok(b.expr_type, b.op, result_type(symbols, *b.left), result_type(symbols, *b.right))
            &&& expr_ok(symbols, bound, *b.left)
            &&& expr_ok(symbols, bound, *b.right)
        },
        Expr::Block(b) => {
            &&& forall|i: int| 0 <= i < b.statements.len() ==> statement_ok(
                symbols,
                bound.union(let_ids(b.statements@.take(i))),
                #[trigger] b.statements@[i],
            )
            &&& expr_ok(symbols, bound.union(let_ids(b.statements@)), *b.expr)
        },
        Expr::Sample(s) => {
            &&& s.arms.len() > 0
            &&& forall|i: int| 0 <= i < s.arms.len() ==> sample_arm_ok(symbols, bound, #[trigger] s.arms@[i])
        },
        Expr::Cases(c) => {
            &&& match *c.scrutinee {
                Expr::Tuple(v) => forall|i: int| 0 <= i < v.len() ==> expr_ok(symbols, bound, #[trigger] v@[i]),
                other => expr_ok(symbols, bound, other),
            }
            &&& forall|i: int| 0 <= i < c.arms.len() ==> cases_arm_ok(
                symbols,
                bound,
                scrutinee_classes(symbols, *c.scrutinee),
                #[trigger] c.arms@[i],
            )
        },
        _ => false,
    }
}

pub open spec fn statement_ok(symbols: Seq<Symbol>, bound: Set<SymbolId>, s: Statement) -> bool
    decreases s,
{
    match s {
        Statement::Let(l) => l.name is Symbol && expr_ok(symbols, bound, l.expr),
        Statement::Error => false,
    }
}

pub open spec fn sample_arm_ok(symbols: Seq<Symbol>, bound: Set<SymbolId>, a: SampleArm) -> bool
    decreases a,
{
    &&& match a.prob {
        Prob::Default => true,
        Prob::Expr(e) => expr_ok(symbols, bound, e) && converts_to(result_type(symbols, e), Type::Real),
    }
    &&& expr_ok(symbols, bound, a.expr)
}

pub open spec fn cases_arm_ok(symbols: Seq<Symbol>, bound: Set<SymbolId>, cls: Seq<int>, a: CasesArm) -> bool
    decreases a,
{
    &&& forall|i: int| 0 <= i < a.pattern.len() ==> pattern_ok(symbols, bound, cls, #[trigger] a.pattern@[i])
    &&& expr_ok(symbols, bound, a.expr)
}

/// The pattern compiles, unless the registers run out, against scrutinee
/// values of classes `cls`: each value it names is of the class of the
/// scrutinee value it is compared with.
pub open spec fn pattern_ok(symbols: Seq<Symbol>, bound: Set<SymbolId>, cls: Seq<int>, p: SimplePattern) -> bool
    decreases p,
{
    match p {
        SimplePattern::Literal(l) => cls.len() > 0 && same_class(cls[0], literal_type(l)),
        SimplePattern::Ident(Ident::Symbol(id)) => cls.len() > 0 && match ident_info(symbols, id) {
            IdentInfo::Variable(t) => bound.contains(id) && same_class(cls[0], t),
            IdentInfo::EntMember { .. } => same_class(cls[0], Type::Int),
            IdentInfo::Other => false,
        },
        SimplePattern::Comparison(c) => {
            &&& cls.len() > 0
            &&& expr_ok(symbols, bound, *c.expr)
            &&& same_class(cls[0], result_type(symbols, *c.expr))
        },
        SimplePattern::Tuple(parts) => forall|k: int| 0 <= k < parts.len() && k < cls.len()
            ==> pattern_ok(symbols, bound, seq![cls[k]], #[trigger] parts@[k]),
        _ => true,
    }
}

/// What holds where a name is bound also holds where more names are.
pub proof fn lemma_expr_ok_mono(symbols: Seq<Symbol>, b1: Set<SymbolId>, b2: Set<SymbolId>, e: Expr)
    requires
        b1.subset_of(b2),
        expr_ok(symbols, b1, e),
    ensures
        expr_ok(symbols, b2, e),
    decreases e,
{
    match e {
        Expr::Unary(u) => lemma_expr_ok_mono(symbols, b1, b2, *u.expr),
        Expr::Binary(b) => {
            lemma_expr_ok_mono(symbols, b1, b2, *b.left);
            lemma_expr_ok_mono(symbols, b1, b2, *b.right);
        },
        Expr::Block(b) => {
            assert forall|i: int| 0 <= i < b.statements.len() implies statement_ok(
                symbols,
                b2.union(let_ids(b.statements@.take(i))),
                #[trigger] b.statements@[i],
            ) by {
                let s = b.statements@[i];
                assert(statement_ok(symbols, b1.union(let_ids(b.statements@.take(i))), s));
                if let Statement::Let(l) = s {
                    lemma_expr_ok_mono(symbols, b1.union(let_ids(b.statements@.take(i))),
                        b2.union(let_ids(b.statements@.take(i))), l.expr);
                }
            }
            lemma_expr_ok_mono(symbols, b1.union(let_ids(b.statements@)), b2.union(let_ids(b.statements@)), *b.expr);
        },
        Expr::Sample(s) => {
            assert forall|i: int| 0 <= i < s.arms.len() implies sample_arm_ok(symbols, b2, #[trigger] s.arms@[i]) by {
                let a = s.arms@[i];
                assert(sample_arm_ok(symbols, b1, a));
                if let Prob::Expr(pe) = a.prob {
                    lemma_expr_ok_mono(symbols, b1, b2, pe);
                }
                lemma_expr_ok_mono(symbols, b1, b2, a.expr);
            }
        },
        Expr::Cases(c) => {
            match *c.scrutinee {
                Expr::Tuple(v) => {
                    assert forall|i: int| 0 <= i < v.len() implies expr_ok(symbols, b2, #[trigger] v@[i]) by {
                        lemma_expr_ok_mono(symbols, b1, b2, v@[i]);
                    }
                },
                other => lemma_expr_ok_mono(symbols, b1, b2, other),
            }
            let cls = scrutinee_classes(symbols, *c.scrutinee);
            assert forall|i: int| 0 <= i < c.arms.len() implies cases_arm_ok(symbols, b2, cls, #[trigger] c.arms@[i]) by {
                let a = c.arms@[i];
                assert(cases_arm_ok(symbols, b1, cls, a));
                assert forall|j: int| 0 <= j < a.pattern.len() implies pattern_ok(symbols, b2, cls, #[trigger] a.pattern@[j]) by {
                    lemma_pattern_ok_mono(symbols, b1, b2, cls, a.pattern@[j]);
                }
                lemma_expr_ok_mono(symbols, b1, b2, a.expr);
            }
        },
        _ => {},
    }
}

pub proof fn lemma_pattern_ok_mono(symbols: Seq<Symbol>, b1: Set<SymbolId>, b2: Set<SymbolId>, cls: Seq<int>, p: SimplePattern)
    requires
        b1.subset_of(b2),
        pattern_ok(symbols, b1, cls, p),
    ensures
        pattern_ok(symbols, b2, cls, p),
    decreases p,
{
    match p {
        SimplePattern::Comparison(c) => lemma_expr_ok_mono(symbols, b1, b2, *c.expr),
        SimplePattern::Tuple(parts) => {
            assert forall|k: int| 0 <= k < parts.len() && k < cls.len()
                implies pattern_ok(symbols, b2, seq![cls[k]], #[trigger] parts@[k]) by {
                lemma_pattern_ok_mono(symbols, b1, b2, seq![cls[k]], parts@[k]);
            }
        },
        _ => {},
    }
}

/// Comparing a value with one of its class brings both to a type of that
/// class, and never fails for want of a conversion.
pub proof fn lemma_same_class_coercible(t: Type, other: Type)
    requires
        same_class(type_class(t), other),
    ensures
        equal_coercible(t, other),
        type_class(equal_type(t, other)) == type_class(t),
{
}

/// An advance keeps every variable bound.
pub proof fn lemma_advanced_dom(a: &RelCompiler, b: &RelCompiler)
    requires
        a.advanced(b),
    ensures
        a.regs().dom().subset_of(b.regs().dom()),
{
    assert forall|k: SymbolId| a.regs().dom().contains(k) implies b.regs().dom().contains(k) by {
        assert(a.regs().contains_key(k));
    }
}

/// A probability compiles, unless the registers run out: the default, or
/// an expression that compiles and whose value can be brought to a real.
pub open spec fn prob_ok(symbols: Seq<Symbol>, bound: Set<SymbolId>, p: Prob) -> bool {
    match p {
        Prob::Default => true,
        Prob::Expr(e) => expr_ok(symbols, bound, e) && converts_to(result_type(symbols, e), Type::Real),
    }
}

/// An advance keeps every variable bound: expressions that compile before
/// it still compile after.
pub proof fn lemma_advanced_ok(a: &RelCompiler, b: &RelCompiler, e: Expr)
    requires
        a.advanced(b),
        expr_ok(a.symbols(), a.regs().dom(), e),
    ensures
        expr_ok(b.symbols(), b.regs().dom(), e),
        a.regs().dom().subset_of(b.regs().dom()),
{
    assert forall|k: SymbolId| a.regs().dom().contains(k) implies b.regs().dom().contains(k) by {
        assert(a.regs().contains_key(k));
    }
    lemma_expr_ok_mono(a.symbols(), a.regs().dom(), b.regs().dom(), e);
}

impl<'a> RelCompiler<'a> {
    /// `reg` may be bound to a variable by a step from `self`: it was free,
    /// or already bound to a variable.
    pub open spec fn bindable(&self, reg: usize) -> bool {
        !self.used()[reg as int] || !self.unbound(reg)
    }

    /// What every step of compilation keeps: the symbol table and the
    /// relation; the registers in use stay in use; variables stay bound,
    /// and each binding is as it was or to a register that was free or
    /// already bound; and the errors are the same, or one more for running
    /// out of registers.
    pub open spec fn advanced(&self, new: &Self) -> bool {
        &&& new.symbols() == self.symbols()
        &&& new.rel_id() == self.rel_id()
        &&& keeps_used(self.used(), new.used())
        &&& forall|k: usize| #[trigger] self.regs().contains_key(k) ==> new.regs().contains_key(k)
        &&& forall|k: usize| #[trigger] new.regs().contains_key(k) ==> (self.regs().contains_key(k) && new.regs()[k] == self.regs()[k])
            || self.bindable(new.regs()[k])
        &&& (new.errors() == self.errors() || self.reported_too_many(new))
    }

    /// What a conversion of `src` keeps: the context; the registers in use
    /// stay in use; errors are the same, or one more for running out of
    /// registers and then no result; the code grows by instructions as
    /// `appended_ok` says; and the result is `src` itself or an intermediate
    /// register in use that is `src`'s own or was free.
    pub open spec fn coerced(
        &self,
        new: &Self,
        code0: Seq<Instruction>,
        code1: Seq<Instruction>,
        src: Source,
        r: Option<Source>,
    ) -> bool {
        &&& self.same_context(new)
        &&& keeps_used(self.used(), new.used())
        &&& (new.errors() == self.errors() || (self.reported_too_many(new) && r is None))
        &&& appended_ok(code0, code1, self.used(), src)
        &&& r matches Some(s) ==> source_ok(s) && (s == src || (s matches Source::RegInter(z) && new.used()[z as int]
            && (src == Source::RegInter(z) || !self.used()[z as int])))
    }

    /// A compiled result: code that names only registers of the machine and
    /// writes only registers free at `self`; and a source that is an
    /// immediate, a register in use, and, where it is an intermediate
    /// register, one that was free at `self` and is bound to no variable.
    pub open spec fn valid_result(&self, new: &Self, code: Seq<Instruction>, src: Source) -> bool {
        &&& code_ok(code, self.used())
        &&& source_ok(src)
        &&& src matches Source::RegVar(x) ==> new.used()[x as int] && self.bindable(x)
        &&& src matches Source::RegInter(y) ==> !self.used()[y as int] && new.used()[y as int] && new.unbound(y)
    }
}

pub proof fn lemma_keeps_used_trans(a: Seq<bool>, b: Seq<bool>, c: Seq<bool>)
    requires
        keeps_used(a, b),
        keeps_used(b, c),
    ensures
        keeps_used(a, c),
{
    assert forall|i: int| 0 <= i < a.len() && #[trigger] a[i] implies c[i] by {
        assert(b[i]);
    }
}

pub proof fn lemma_advanced_refl(c: &RelCompiler)
    ensures
        c.advanced(c),
{
}

/// A register bound after an advance was bound, or free, before it.
pub proof fn lemma_bound_back(a: &RelCompiler, b: &RelCompiler, x: usize)
    requires
        a.wf(),
        b.wf(),
        a.advanced(b),
        !b.unbound(x),
    ensures
        a.bindable(x),
{
    let k = choose|k: usize| #[trigger] b.regs().contains_key(k) && b.regs()[k] == x;
    assert(b.regs().contains_key(k));
}

/// Two steps, the first of which reported nothing, make one.
pub proof fn lemma_advanced_trans(a: &RelCompiler, b: &RelCompiler, c: &RelCompiler)
    requires
        a.wf(),
        b.wf(),
        c.wf(),
        a.advanced(b),
        b.advanced(c),
        b.errors() == a.errors(),
    ensures
        a.advanced(c),
{
    lemma_keeps_used_trans(a.used(), b.used(), c.used());
    assert forall|k: usize| #[trigger] c.regs().contains_key(k) implies (a.regs().contains_key(k) && c.regs()[k] == a.regs()[k])
        || a.bindable(c.regs()[k]) by {
        let r = c.regs()[k];
        assert(r < NUM_REGS);
        if b.regs().contains_key(k) && c.regs()[k] == b.regs()[k] {
            assert(b.regs().contains_key(k));
        } else if !b.used()[r as int] {
            if a.used()[r as int] {
                assert(b.used()[r as int]);
            }
        } else {
            lemma_bound_back(a, b, r);
        }
    }
}

/// A step of `took_dest`, or of allocation, is an advance.
pub proof fn lemma_took_dest_advanced(a: &RelCompiler, b: &RelCompiler, src: Source)
    requires
        a.wf(),
        a.took_dest(b, src),
    ensures
        a.advanced(b),
        b.errors() == a.errors() ==> b.used() == crate::rel_compiler::used_after_dest(a.used(), src),
{
    lemma_first_free_from(a.used(), 0);
}

/// In a well-formed state a free register is bound to no variable.
pub proof fn lemma_free_unbound(c: &RelCompiler, r: usize)
    requires
        c.wf(),
        r < NUM_REGS,
        !c.used()[r as int],
    ensures
        c.unbound(r),
{
    assert forall|k: usize| #[trigger] c.regs().contains_key(k) implies c.regs()[k] != r by {
        assert(c.used()[c.regs()[k] as int]);
    }
}

/// An advance keeps a register in use and unbound, unbound.
pub proof fn lemma_advanced_unbound(a: &RelCompiler, b: &RelCompiler, r: usize)
    requires
        a.wf(),
        b.wf(),
        a.advanced(b),
        r < NUM_REGS,
        a.used()[r as int],
        a.unbound(r),
    ensures
        b.unbound(r),
        b.used()[r as int],
{
    assert forall|k: usize| #[trigger] b.regs().contains_key(k) implies b.regs()[k] != r by {
        if a.regs().contains_key(k) && b.regs()[k] == a.regs()[k] {
        } else {
            assert(a.bindable(b.regs()[k]));
        }
    }
}

pub proof fn lemma_code_ok_append(c1: Seq<Instruction>, c2: Seq<Instruction>, u1: Seq<bool>, u2: Seq<bool>)
    requires
        u1.len() == NUM_REGS,
        code_ok(c1, u1),
        code_ok(c2, u2),
        keeps_used(u1, u2),
    ensures
        code_ok(c1 + c2, u1),
{
    assert forall|k: int| 0 <= k < (c1 + c2).len() implies {
        &&& instr_ok(#[trigger] (c1 + c2)[k])
        &&& (written_reg((c1 + c2)[k]) matches Some(d) ==> !u1[d as int])
    } by {
        if k >= c1.len() {
            let i = (c1 + c2)[k];
            assert(i == c2[k - c1.len()]);
            if let Some(d) = written_reg(i) {
                assert(!u2[d as int]);
                assert(instr_ok(i));
                if u1[d as int] {
                    assert(u2[d as int]);
                }
            }
        }
    }
}

pub proof fn lemma_code_ok_push(c: Seq<Instruction>, i: Instruction, u: Seq<bool>)
    requires
        code_ok(c, u),
        instr_ok(i),
        written_reg(i) matches Some(d) ==> !u[d as int],
    ensures
        code_ok(c.push(i), u),
{
    assert forall|k: int| 0 <= k < c.push(i).len() implies {
        &&& instr_ok(#[trigger] c.push(i)[k])
        &&& (written_reg(c.push(i)[k]) matches Some(d) ==> !u[d as int])
    } by {
        if k < c.len() {
            assert(c.push(i)[k] == c[k]);
        }
    }
}

pub proof fn lemma_appended_refl(code: Seq<Instruction>, used: Seq<bool>, src: Source)
    ensures
        appended_ok(code, code, used, src),
{
    assert(code.subrange(0, code.len() as int) =~= code);
}

pub proof fn lemma_appended_push(code0: Seq<Instruction>, code1: Seq<Instruction>, i: Instruction, used: Seq<bool>, src: Source)
    requires
        appended_ok(code0, code1, used, src),
        instr_ok(i),
        !is_jump(i),
        written_reg(i) matches Some(d) ==> !used[d as int] || src == Source::RegInter(d),
    ensures
        appended_ok(code0, code1.push(i), used, src),
{
    assert(code1.push(i).subrange(0, code0.len() as int) =~= code1.subrange(0, code0.len() as int));
    assert forall|k: int| code0.len() <= k < code1.push(i).len() implies {
        &&& instr_ok(#[trigger] code1.push(i)[k])
        &&& !is_jump(code1.push(i)[k])
        &&& (written_reg(code1.push(i)[k]) matches Some(d) ==> !used[d as int] || src == Source::RegInter(d))
    } by {
        if k < code1.len() {
            assert(code1.push(i)[k] == code1[k]);
        }
    }
}

pub proof fn lemma_code_ok_empty(u: Seq<bool>)
    ensures
        code_ok(Seq::empty(), u),
{
}

/// Where `dest_choice` gives a register, it is of the machine; one newly
/// taken was free.
pub proof fn lemma_dest_choice(used: Seq<bool>, src: Source)
    requires
        used.len() == NUM_REGS,
        source_ok(src),
    ensures
        dest_choice(used, src) matches Some(d) ==> d < NUM_REGS,
        !(src is RegInter) ==> (dest_choice(used, src) matches Some(d) ==> !used[d as int]),
        !(src is RegInter) ==> (dest_choice(used, src) is None <==> first_free(used) >= NUM_REGS),
{
    lemma_first_free_from(used, 0);
}

/// Binding a variable to a bindable register in use is an advance.
pub proof fn lemma_bind_advanced(s0: &RelCompiler, a: &RelCompiler, b: &RelCompiler, id: usize, reg: usize)
    requires
        s0.wf(),
        a.wf(),
        b.wf(),
        s0.advanced(a),
        a.errors() == s0.errors(),
        b.regs() == a.regs().insert(id, reg),
        b.symbols() == a.symbols(),
        b.rel_id() == a.rel_id(),
        b.used() == a.used(),
        b.errors() == a.errors(),
        s0.bindable(reg),
    ensures
        s0.advanced(b),
{
    assert forall|k: usize| #[trigger] b.regs().contains_key(k) implies (s0.regs().contains_key(k) && b.regs()[k] == s0.regs()[k])
        || s0.bindable(b.regs()[k]) by {
        if k != id {
            assert(a.regs().contains_key(k));
        }
    }
}

/// Freeing a register that was free at `s0` and is bound to no variable
/// keeps an advance from `s0`.
pub proof fn lemma_free_advanced(s0: &RelCompiler, a: &RelCompiler, b: &RelCompiler, reg: usize)
    requires
        s0.wf(),
        a.wf(),
        b.wf(),
        s0.advanced(a),
        a.same_context(b),
        b.errors() == a.errors(),
        b.used() == a.used().update(reg as int, false),
        reg < NUM_REGS,
        !s0.used()[reg as int],
    ensures
        s0.advanced(b),
{
    assert forall|i: int| 0 <= i < s0.used().len() && #[trigger] s0.used()[i] implies b.used()[i] by {
        assert(a.used()[i]);
    }
}

pub proof fn lemma_appended_chain(
    c0: Seq<Instruction>,
    c1: Seq<Instruction>,
    c2: Seq<Instruction>,
    u0: Seq<bool>,
    u1: Seq<bool>,
    s1: Source,
    s2: Source,
)
    requires
        u0.len() == NUM_REGS,
        appended_ok(c0, c1, u0, s1),
        appended_ok(c1, c2, u1, s2),
        keeps_used(u0, u1),
    ensures
        appended_ok2(c0, c2, u0, s1, s2),
{
    assert(c2.subrange(0, c0.len() as int) =~= c2.subrange(0, c1.len() as int).subrange(0, c0.len() as int));
    assert forall|k: int| c0.len() <= k < c2.len() implies {
        &&& instr_ok(#[trigger] c2[k])
        &&& !is_jump(c2[k])
        &&& (written_reg(c2[k]) matches Some(d) ==> !u0[d as int] || s1 == Source::RegInter(d) || s2 == Source::RegInter(d))
    } by {
        if k < c1.len() {
            assert(c2[k] == c2.subrange(0, c1.len() as int)[k]);
            assert(c2[k] == c1[k]);
        } else {
            if let Some(d) = written_reg(c2[k]) {
                assert(instr_ok(c2[k]));
                if u0[d as int] && !(s2 == Source::RegInter(d)) {
                    assert(u1[d as int]);
                }
            }
        }
    }
}

pub proof fn lemma_code_ok_drop_last(c: Seq<Instruction>, u: Seq<bool>)
    requires
        code_ok(c, u),
        c.len() > 0,
    ensures
        code_ok(c.drop_last(), u),
{
    assert forall|k: int| 0 <= k < c.drop_last().len() implies {
        &&& instr_ok(#[trigger] c.drop_last()[k])
        &&& (written_reg(c.drop_last()[k]) matches Some(d) ==> !u[d as int])
    } by {
        assert(c.drop_last()[k] == c[k]);
    }
}

pub proof fn lemma_code_ok_update(c: Seq<Instruction>, k: int, i: Instruction, u: Seq<bool>)
    requires
        code_ok(c, u),
        0 <= k < c.len(),
        instr_ok(i),
        written_reg(i) matches Some(d) ==> !u[d as int],
    ensures
        code_ok(c.update(k, i), u),
{
    assert forall|m: int| 0 <= m < c.update(k, i).len() implies {
        &&& instr_ok(#[trigger] c.update(k, i)[m])
        &&& (written_reg(c.update(k, i)[m]) matches Some(d) ==> !u[d as int])
    } by {
        if m != k {
            assert(c.update(k, i)[m] == c[m]);
        }
    }
}

/// Code grown as `appended_ok2` says stays `code_ok` for an earlier state
/// in which both sources' registers were free.
pub proof fn lemma_appended2_code_ok(c0: Seq<Instruction>, c1: Seq<Instruction>, u0: Seq<bool>, u: Seq<bool>, s1: Source, s2: Source)
    requires
        u0.len() == NUM_REGS,
        code_ok(c0, u0),
        appended_ok2(c0, c1, u, s1, s2),
        keeps_used(u0, u),
        s1 matches Source::RegInter(y) ==> !u0[y as int],
        s2 matches Source::RegInter(y) ==> !u0[y as int],
    ensures
        code_ok(c1, u0),
{
    assert forall|k: int| 0 <= k < c1.len() implies {
        &&& instr_ok(#[trigger] c1[k])
        &&& (written_reg(c1[k]) matches Some(d) ==> !u0[d as int])
    } by {
        if k < c0.len() {
            assert(c1[k] == c1.subrange(0, c0.len() as int)[k]);
        } else {
            if let Some(d) = written_reg(c1[k]) {
                assert(instr_ok(c1[k]));
                if u0[d as int] {
                    assert(u[d as int]);
                }
            }
        }
    }
}

/// Instructions appended as `appended_ok` says keep the jumps landing.
pub proof fn lemma_appended_jumps(c0: Seq<Instruction>, c1: Seq<Instruction>, used: Seq<bool>, src: Source)
    requires
        appended_ok(c0, c1, used, src),
        jumps_ok(c0),
    ensures
        jumps_ok(c1),
{
    let rest = c1.subrange(c0.len() as int, c1.len() as int);
    assert(jumps_ok(rest)) by {
        assert forall|k: int| 0 <= k < rest.len() && is_jump(#[trigger] rest[k]) implies exists|t: int| t <= rest.len()
            && lands(rest, k, t) by {
            assert(rest[k] == c1[k + c0.len()]);
        }
    }
    lemma_jumps_ok_append(c0, rest);
    assert(c0 + rest =~= c1);
}

pub proof fn lemma_appended2_jumps(c0: Seq<Instruction>, c1: Seq<Instruction>, used: Seq<bool>, s1: Source, s2: Source)
    requires
        appended_ok2(c0, c1, used, s1, s2),
        jumps_ok(c0),
    ensures
        jumps_ok(c1),
{
    let rest = c1.subrange(c0.len() as int, c1.len() as int);
    assert(jumps_ok(rest)) by {
        assert forall|k: int| 0 <= k < rest.len() && is_jump(#[trigger] rest[k]) implies exists|t: int| t <= rest.len()
            && lands(rest, k, t) by {
            assert(rest[k] == c1[k + c0.len()]);
        }
    }
    lemma_jumps_ok_append(c0, rest);
    assert(c0 + rest =~= c1);
}

/// Changing a jump's offset keeps what the instruction reads and writes.
pub proof fn lemma_with_offset_ok(i: Instruction, o: i16)
    ensures
        instr_ok(i) ==> instr_ok(with_offset(i, o)),
        written_reg(with_offset(i, o)) == written_reg(i),
{
}

/// A conversion is an advance.
pub proof fn lemma_coerced_advanced(
    a: &RelCompiler,
    b: &RelCompiler,
    c0: Seq<Instruction>,
    c1: Seq<Instruction>,
    src: Source,
    r: Option<Source>,
)
    requires
        a.wf(),
        b.wf(),
        a.coerced(b, c0, c1, src, r),
    ensures
        a.advanced(b),
{
}

/// Code grown as `appended_ok` says stays `code_ok` for an earlier state in
/// which the source's register was free.
pub proof fn lemma_appended_code_ok(c0: Seq<Instruction>, c1: Seq<Instruction>, u0: Seq<bool>, u: Seq<bool>, src: Source)
    requires
        u0.len() == NUM_REGS,
        code_ok(c0, u0),
        appended_ok(c0, c1, u, src),
        keeps_used(u0, u),
        src matches Source::RegInter(y) ==> !u0[y as int],
    ensures
        code_ok(c1, u0),
{
    assert forall|k: int| 0 <= k < c1.len() implies {
        &&& instr_ok(#[trigger] c1[k])
        &&& (written_reg(c1[k]) matches Some(d) ==> !u0[d as int])
    } by {
        if k < c0.len() {
            assert(c1[k] == c1.subrange(0, c0.len() as int)[k]);
        } else {
            if let Some(d) = written_reg(c1[k]) {
                assert(instr_ok(c1[k]));
                assert(d < NUM_REGS) by {
                    assert(instr_ok(c1[k]));
                }
                if u0[d as int] {
                    assert(u[d as int]);
                }
            }
        }
    }
}

/// The source is a valid operand at `new` for code compiled from `start`:
/// in range, a variable's register in use, or an intermediate register that
/// was free at `start` and is now in use and bound to no variable.
pub open spec fn operand_ok(start: Seq<bool>, new: &RelCompiler, src: Source) -> bool {
    &&& source_ok(src)
    &&& src matches Source::RegVar(x) ==> new.used()[x as int]
    &&& src matches Source::RegInter(y) ==> !start[y as int] && new.used()[y as int] && new.unbound(y)
}

/// An advance keeps an operand valid.
pub proof fn lemma_operand_advanced(start: Seq<bool>, a: &RelCompiler, b: &RelCompiler, src: Source)
    requires
        a.wf(),
        b.wf(),
        operand_ok(start, a, src),
        a.advanced(b),
    ensures
        operand_ok(start, b, src),
{
    if let Source::RegInter(y) = src {
        lemma_advanced_unbound(a, b, y);
    }
}

/// A conversion keeps valid the operand it converts (giving a valid one) and
/// any other valid operand.
pub proof fn lemma_coerced_operands(
    start: Seq<bool>,
    a: &RelCompiler,
    b: &RelCompiler,
    c0: Seq<Instruction>,
    c1: Seq<Instruction>,
    src: Source,
    r: Source,
    other: Source,
)
    requires
        a.wf(),
        b.wf(),
        start.len() == NUM_REGS,
        keeps_used(start, a.used()),
        a.coerced(b, c0, c1, src, Some(r)),
        operand_ok(start, a, src),
        operand_ok(start, a, other),
        src matches Source::RegInter(x) ==> (other matches Source::RegInter(w) ==> x != w),
    ensures
        operand_ok(start, b, r),
        operand_ok(start, b, other),
        r matches Source::RegInter(z) ==> (other matches Source::RegInter(w) ==> z != w),
{
    lemma_coerced_advanced(a, b, c0, c1, src, Some(r));
    lemma_operand_advanced(start, a, b, src);
    lemma_operand_advanced(start, a, b, other);
    if let Source::RegInter(z) = r {
        if r != src {
            if src == Source::RegInter(z) {
            } else {
                assert(!a.used()[z as int]);
                lemma_free_unbound(a, z);
                if start[z as int] {
                    assert(a.used()[z as int]);
                }
            }
        }
    }
}

/// Register `r` holds one of the intermediate values in `srcs`.
pub open spec fn is_scrutinee_reg(srcs: Seq<Source>, r: int) -> bool {
    exists|k: int| 0 <= k < srcs.len() && #[trigger] srcs[k] == Source::RegInter(r as usize)
}

/// The registers in use in `used` that hold none of the intermediate values in `srcs`.
pub open spec fn scrutinee_start(used: Seq<bool>, srcs: Seq<Source>) -> Seq<bool> {
    Seq::new(used.len(), |i: int| used[i] && !is_scrutinee_reg(srcs, i))
}

/// The scrutinee values are valid operands for code compiled from `start`,
/// none of them in register `avoid`.
pub open spec fn sources_ok(start: Seq<bool>, c: &RelCompiler, srcs: Seq<Source>, avoid: usize) -> bool {
    forall|k: int| 0 <= k < srcs.len() ==> operand_ok(start, c, #[trigger] srcs[k]) && srcs[k] != Source::RegInter(avoid)
}

pub proof fn lemma_sources_advanced(start: Seq<bool>, a: &RelCompiler, b: &RelCompiler, srcs: Seq<Source>, avoid: usize)
    requires
        a.wf(),
        b.wf(),
        a.advanced(b),
        sources_ok(start, a, srcs, avoid),
    ensures
        sources_ok(start, b, srcs, avoid),
{
    assert forall|k: int| 0 <= k < srcs.len() implies operand_ok(start, b, #[trigger] srcs[k]) && srcs[k] != Source::RegInter(avoid) by {
        lemma_operand_advanced(start, a, b, srcs[k]);
    }
}

/// The jump taken when a comparison pattern fails: the negated comparison.
pub open spec fn pattern_miss_jump(op: CompOp, float_op: bool, src1: Source, src2: Source) -> Instruction {
    match op {
        CompOp::Lt => if float_op { Instruction::FJGE { offset: 3, src1, src2 } } else { Instruction::IJGE { offset: 3, src1, src2 } },
        CompOp::Gt => if float_op { Instruction::FJLE { offset: 3, src1, src2 } } else { Instruction::IJLE { offset: 3, src1, src2 } },
        CompOp::Le => if float_op { Instruction::FJGT { offset: 3, src1, src2 } } else { Instruction::IJGT { offset: 3, src1, src2 } },
        CompOp::Ge => if float_op { Instruction::FJLT { offset: 3, src1, src2 } } else { Instruction::IJLT { offset: 3, src1, src2 } },
    }
}

fn make_pattern_miss_jump(op: CompOp, float_op: bool, src1: Source, src2: Source) -> (i: Instruction)
    ensures
        i == pattern_miss_jump(op, float_op, src1, src2),
        source_ok(src1) && source_ok(src2) ==> instr_ok(i),
        written_reg(i) is None,
{
    match op {
        CompOp::Lt => if float_op { Instruction::FJGE { offset: 3, src1, src2 } } else { Instruction::IJGE { offset: 3, src1, src2 } },
        CompOp::Gt => if float_op { Instruction::FJLE { offset: 3, src1, src2 } } else { Instruction::IJLE { offset: 3, src1, src2 } },
        CompOp::Le => if float_op { Instruction::FJGT { offset: 3, src1, src2 } } else { Instruction::IJGT { offset: 3, src1, src2 } },
        CompOp::Ge => if float_op { Instruction::FJLT { offset: 3, src1, src2 } } else { Instruction::IJLT { offset: 3, src1, src2 } },
    }
}

pub open spec fn is_real(t: Type) -> bool {
    t is Real
}

fn is_real_type(t: &Type) -> (r: bool)
    ensures
        r == is_real(*t),
{
    match t {
        Type::Real => true,
        _ => false,
    }
}

fn is_impulse_type(t: &Type) -> (r: bool)
    ensures
        r == (*t is Impulse),
{
    match t {
        Type::Impulse => true,
        _ => false,
    }
}

/// The instruction for `dest = op src` at type `ty`: negation multiplies by
/// `-1` (real or integer), `~` of an impulse tests it against `r0`, and of a
/// boolean is `NOT`.
pub open spec fn unary_instruction(op: UnaryOp, ty: Type, impulse: bool, dest: usize, src: Source) -> Instruction {
    match op {
        UnaryOp::Neg => if ty is Real {
            Instruction::FMUL { dest, src1: src, src2: Source::Float(Decimal { mantissa: -1i64, scale: 0 }) }
        } else {
            Instruction::IMUL { dest, src1: src, src2: Source::Int(-1i64) }
        },
        UnaryOp::BitNot => if impulse {
            Instruction::INE { dest, src1: src, src2: Source::RegInter(0) }
        } else {
            Instruction::NOT { dest, src }
        },
    }
}

proof fn lemma_binary_ends(
    symbols: Seq<Symbol>,
    b: BinaryExpr,
    code: Seq<Instruction>,
    dest: usize,
    lcode: Seq<Instruction>,
    ls: Source,
    rcode: Seq<Instruction>,
    rs: Source,
    dl: usize,
    dr: usize,
    on_reals: bool,
    b2: Seq<Instruction>,
    b3: Seq<Instruction>,
    b4: Seq<Instruction>,
    l: Source,
    rr: Source,
)
    requires
        body_ends(symbols, *b.left, lcode, ls),
        body_ends(symbols, *b.right, rcode, rs),
        on_reals == binary_on_reals(b.op, b.expr_type, result_type(symbols, *b.left), result_type(symbols, *b.right)),
        b2 == lcode + rcode,
        b3 == append_conversion(b2, b, false, result_type(symbols, *b.left), on_reals, ls, dl),
        b4 == append_conversion(b3, b, true, result_type(symbols, *b.right), on_reals, rs, dr),
        l == converted_operand(operand_conversion(b, false, result_type(symbols, *b.left), on_reals, ls, dl), ls, dl),
        rr == converted_operand(operand_conversion(b, true, result_type(symbols, *b.right), on_reals, rs, dr), rs, dr),
        code == b4.push(binary_instruction(b.op, on_reals, is_mod_pow(b), dest, l, rr)),
    ensures
        binary_ends(symbols, b, code, Source::RegInter(dest)),
{
    lemma_operand_ends(symbols, *b.left, lcode, ls);
    lemma_operand_ends(symbols, *b.right, rcode, rs);
    let src = Source::RegInter(dest);
    let lt = result_type(symbols, *b.left);
    let rt = result_type(symbols, *b.right);
    let lconv = operand_conversion(b, false, lt, on_reals, ls, dl);
    let rconv = operand_conversion(b, true, rt, on_reals, rs, dr);
    lemma_append_conversion(b2, b, false, lt, on_reals, ls, dl);
    lemma_append_conversion(b3, b, true, rt, on_reals, rs, dr);
    assert(src->RegInter_0 == dest);
    assert(code.len() > 0);
    assert(code =~= lcode + rcode + lconv + rconv + seq![binary_instruction(b.op, on_reals, is_mod_pow(b),
        src->RegInter_0, converted_operand(lconv, ls, dl), converted_operand(rconv, rs, dr))]);
    assert(operand_ends(symbols, *b.left, lcode, ls) && operand_ends(symbols, *b.right, rcode, rs));
}

/// The code `code` followed by the conversion of an operand, as the
/// conversions append it.
pub open spec fn append_conversion(code: Seq<Instruction>, b: BinaryExpr, right: bool, ty: Type, on_reals: bool, s: Source, d: usize) -> Seq<Instruction> {
    let plan = binary_plan(b.op, b.expr_type);
    if plan == 0 || (plan == 2 && !right) {
        code
    } else if on_reals {
        match ty {
            Type::Mod(n) => if reduces_operand(b.op, b.expr_type, right) {
                code.push(Instruction::IMOD { dest: d, src1: s, src2: Source::Int(n) })
                    .push(Instruction::I2F { dest: d, src: Source::RegInter(d) })
            } else {
                code.push(Instruction::I2F { dest: d, src: s })
            },
            Type::Int => code.push(Instruction::I2F { dest: d, src: s }),
            _ => code,
        }
    } else if plan == 5 {
        match ty {
            Type::Impulse => code.push(Instruction::IEQ { dest: d, src1: s, src2: Source::RegVar(0) }),
            _ => code,
        }
    } else {
        match ty {
            Type::Mod(n) => code.push(Instruction::IMOD { dest: d, src1: s, src2: Source::Int(n) }),
            _ => code,
        }
    }
}

proof fn lemma_append_conversion(code: Seq<Instruction>, b: BinaryExpr, right: bool, ty: Type, on_reals: bool, s: Source, d: usize)
    ensures
        append_conversion(code, b, right, ty, on_reals, s, d) == code + operand_conversion(b, right, ty, on_reals, s, d),
{
    assert(append_conversion(code, b, right, ty, on_reals, s, d) =~= code + operand_conversion(b, right, ty, on_reals, s, d));
}

/// The instruction moves a value into register `dest`.
pub open spec fn moves_to(i: Instruction, dest: usize) -> bool {
    i matches Instruction::MOV { dest: d, .. } && d == dest
}

/// The code ends by moving the result into register `dest`.
pub open spec fn ends_in_move(code: Seq<Instruction>, dest: usize) -> bool {
    code.len() > 0 && moves_to(code.last(), dest)
}

/// The jumps at `exits` each follow the move of an arm's value into `dest`
/// and land at the end of the code.
pub open spec fn exits_land(code: Seq<Instruction>, dest: usize, exits: Seq<usize>) -> bool {
    forall|q: int| 0 <= q < exits.len() ==> {
        &&& 1 <= #[trigger] exits[q] < code.len()
        &&& code[exits[q] as int] is JMP
        &&& moves_to(code[exits[q] - 1], dest)
        &&& lands(code, exits[q] as int, code.len() as int)
    }
}

/// The jump taken where a value held at `held` is not equal to `other`: a
/// real comparison where they are compared as reals.
pub open spec fn equal_miss(i: Instruction, held: Source, other: Source, on_reals: bool) -> bool {
    if on_reals {
        i matches Instruction::FJNE { offset, src1, src2 } && offset == 3 && src1 == held && src2 == other
    } else {
        i matches Instruction::IJNE { offset, src1, src2 } && offset == 3 && src1 == held && src2 == other
    }
}

/// The jump taken where a value held at `held` is not equal to `other` of
/// type `other_type`, both brought to the type `t` they are compared at
/// (`other` converted into a register `d` where it needs converting).
pub open spec fn compared_miss(i: Instruction, held: Source, other: Source, other_type: Type, t: Type) -> bool {
    exists|d: usize| #[trigger] equal_miss(i, held, converted(other_type, t, other, d), is_real(t))
}

/// The value a name in a pattern stands for: a variable's register, the
/// integer mapping of an entity member.
pub open spec fn ident_pattern_source(symbols: Seq<Symbol>, regs: Map<SymbolId, usize>, id: SymbolId) -> Source {
    match ident_info(symbols, id) {
        IdentInfo::EntMember { mapping, .. } => Source::Int(mapping as i64),
        _ => Source::RegVar(regs[id]),
    }
}

/// The type a name in a pattern is compared at: a variable's own type, the
/// integer mapping of an entity member.
pub open spec fn ident_pattern_type(symbols: Seq<Symbol>, id: SymbolId) -> Type {
    match ident_info(symbols, id) {
        IdentInfo::Variable(t) => t,
        _ => Type::Int,
    }
}

/// Whether the operator compares its operands.
pub open spec fn is_comparison(op: BinaryOp) -> bool {
    op is Lt || op is Gt || op is Le || op is Ge
}

/// Whether a binary operation of type `ty` is computed on reals: real
/// arithmetic, or a comparison with a real operand.
pub open spec fn binary_on_reals(op: BinaryOp, ty: Type, left: Type, right: Type) -> bool {
    ty is Real || (is_comparison(op) && (left is Real || right is Real))
}

/// What the code of an expression is known to be by its form: nothing for
/// a literal (its value is an immediate) or a name (its value is in its
/// register or an immediate), the operator's instruction last
/// for a unary or binary operation, the random draw first for a sample, and
/// the code of its result expression last for a block (as far as it is not
/// itself a block).
pub open spec fn body_ends(symbols: Seq<Symbol>, e: Expr, code: Seq<Instruction>, src: Source) -> bool {
    match e {
        Expr::Block(b) => exists|k: int|
            0 <= k <= code.len() && #[trigger] form_ends(symbols, *b.expr, code.subrange(k, code.len() as int), src),
        _ => form_ends(symbols, e, code, src),
    }
}

/// What `body_ends` says of an expression that is not a block.
pub open spec fn form_ends(symbols: Seq<Symbol>, e: Expr, code: Seq<Instruction>, src: Source) -> bool {
    match e {
        Expr::Literal(l) => code.len() == 0 && src == literal_source(l),
        Expr::Ident(i) => code.len() == 0 && ident_source_form(symbols, i, src),
        Expr::Unary(u) => unary_ends(symbols, u, code, src),
        Expr::Binary(b) => binary_ends(symbols, b, code, src),
        Expr::Sample(sm) => code.len() > 0 && code[0] is RND && sample_ends(sm, code, src),
        Expr::Cases(c) => cases_ends(c, code, src),
        _ => true,
    }
}

/// The code of a `sample` ends by moving the last arm's value into the
/// result register, and the exit jump of every other arm follows that arm's
/// move and lands at the end.
pub open spec fn sample_ends(s: SampleExpr, code: Seq<Instruction>, src: Source) -> bool {
    &&& src is RegInter
    &&& ends_in_move(code, src->RegInter_0)
    &&& exists|exits: Seq<usize>| exits.len() + 1 == s.arms.len() && #[trigger] exits_land(code, src->RegInter_0, exits)
}

/// The code of a `cases` with arms ends by moving the last arm's value into
/// the result register; where its jumps are safe, the exit jump of every
/// other arm follows that arm's move and lands at the end.
pub open spec fn cases_ends(c: CasesExpr, code: Seq<Instruction>, src: Source) -> bool {
    &&& c.arms.len() > 0 ==> src is RegInter && ends_in_move(code, src->RegInter_0)
    &&& jump_safe(Expr::Cases(c)) ==> exists|exits: Seq<usize>|
        exits.len() + 1 == c.arms.len() && #[trigger] exits_land(code, src->RegInter_0, exits)
}

/// The code of a negation or `~` ends in its instruction, into the
/// register that holds the result.
pub open spec fn unary_ends(symbols: Seq<Symbol>, u: UnaryExpr, code: Seq<Instruction>, src: Source) -> bool {
    let impulse = result_type(symbols, *u.expr) is Impulse;
    &&& code.len() > 0
    &&& src is RegInter
    &&& exists|operand: Source| code.last() == #[trigger] unary_instruction(u.op, u.expr_type, impulse, src->RegInter_0, operand)
}

/// A variable's value is in a variable register; an entity member's is
/// its number.
pub open spec fn ident_source_form(symbols: Seq<Symbol>, i: Ident, src: Source) -> bool {
    match i {
        Ident::Symbol(id) => match ident_info(symbols, id) {
            IdentInfo::Variable(_) => src is RegVar,
            IdentInfo::EntMember { mapping, .. } => src == Source::Int(mapping as i64),
            IdentInfo::Other => true,
        },
        Ident::Str { .. } => true,
    }
}

/// The code of a binary operation: the code of the left operand, that of
/// the right one, the conversion of each to the instruction's type, and the
/// instruction for its operator on the converted operands, into the
/// register that holds the result.
pub open spec fn binary_ends(symbols: Seq<Symbol>, b: BinaryExpr, code: Seq<Instruction>, src: Source) -> bool {
    let lt = result_type(symbols, *b.left);
    let rt = result_type(symbols, *b.right);
    let on_reals = binary_on_reals(b.op, b.expr_type, lt, rt);
    &&& code.len() > 0
    &&& src is RegInter
    &&& exists|lcode: Seq<Instruction>, ls: Source, rcode: Seq<Instruction>, rs: Source, dl: usize, dr: usize|
        #![trigger operand_ends(symbols, *b.left, lcode, ls), operand_ends(symbols, *b.right, rcode, rs),
            operand_conversion(b, false, lt, on_reals, ls, dl), operand_conversion(b, true, rt, on_reals, rs, dr)]
        {
            let lconv = operand_conversion(b, false, lt, on_reals, ls, dl);
            let rconv = operand_conversion(b, true, rt, on_reals, rs, dr);
            &&& operand_ends(symbols, *b.left, lcode, ls)
            &&& operand_ends(symbols, *b.right, rcode, rs)
            &&& code == lcode + rcode + lconv + rconv + seq![binary_instruction(b.op, on_reals, is_mod_pow(b),
                src->RegInter_0, converted_operand(lconv, ls, dl), converted_operand(rconv, rs, dr))]
        }
}

/// What is known of the code of an operand of a binary operation: as of
/// any expression by its form, where the operand's own operands are known
/// only by its last instruction, and nothing of a block.
pub open spec fn operand_ends(symbols: Seq<Symbol>, e: Expr, code: Seq<Instruction>, src: Source) -> bool {
    match e {
        Expr::Literal(l) => code.len() == 0 && src == literal_source(l),
        Expr::Ident(i) => code.len() == 0 && ident_source_form(symbols, i, src),
        Expr::Unary(u) => unary_ends(symbols, u, code, src),
        Expr::Binary(b) => binary_last(symbols, b, code, src),
        Expr::Sample(sm) => code.len() > 0 && code[0] is RND && sample_ends(sm, code, src),
        Expr::Cases(c) => cases_ends(c, code, src),
        _ => true,
    }
}

/// The code of a binary operation ends in the instruction for its operator,
/// into the register that holds the result.
pub open spec fn binary_last(symbols: Seq<Symbol>, b: BinaryExpr, code: Seq<Instruction>, src: Source) -> bool {
    &&& code.len() > 0
    &&& src is RegInter
    &&& exists|l: Source, rr: Source| code.last() == #[trigger] binary_instruction(
        b.op,
        binary_on_reals(b.op, b.expr_type, result_type(symbols, *b.left), result_type(symbols, *b.right)),
        is_mod_pow(b),
        src->RegInter_0,
        l,
        rr,
    )
}

/// What the code of an expression is known to be tells what it is known
/// to be as an operand.
proof fn lemma_operand_ends(symbols: Seq<Symbol>, e: Expr, code: Seq<Instruction>, src: Source)
    requires
        body_ends(symbols, e, code, src),
    ensures
        operand_ends(symbols, e, code, src),
{
    if let Expr::Binary(b) = e {
        let lt = result_type(symbols, *b.left);
        let rt = result_type(symbols, *b.right);
        let on_reals = binary_on_reals(b.op, b.expr_type, lt, rt);
        let (lcode, ls, rcode, rs, dl, dr) = choose|lcode: Seq<Instruction>, ls: Source, rcode: Seq<Instruction>, rs: Source, dl: usize, dr: usize|
            #![trigger operand_ends(symbols, *b.left, lcode, ls), operand_ends(symbols, *b.right, rcode, rs),
                operand_conversion(b, false, lt, on_reals, ls, dl), operand_conversion(b, true, rt, on_reals, rs, dr)]
            {
                let lconv = operand_conversion(b, false, lt, on_reals, ls, dl);
                let rconv = operand_conversion(b, true, rt, on_reals, rs, dr);
                &&& operand_ends(symbols, *b.left, lcode, ls)
                &&& operand_ends(symbols, *b.right, rcode, rs)
                &&& code == lcode + rcode + lconv + rconv + seq![binary_instruction(b.op, on_reals, is_mod_pow(b),
                    src->RegInter_0, converted_operand(lconv, ls, dl), converted_operand(rconv, rs, dr))]
            };
        let lconv = operand_conversion(b, false, lt, on_reals, ls, dl);
        let rconv = operand_conversion(b, true, rt, on_reals, rs, dr);
        assert(code.last() == binary_instruction(b.op, on_reals, is_mod_pow(b), src->RegInter_0,
            converted_operand(lconv, ls, dl), converted_operand(rconv, rs, dr)));
    }
}

/// How the operands of a binary operation of type `t` are brought to its
/// instruction: 0 not at all, 1 both to integers, 2 the right one to an
/// integer, 3 both to reals, 4 a comparison, 5 both to booleans.
pub open spec fn binary_plan(op: BinaryOp, t: Type) -> u8 {
    if t is Real {
        3
    } else if t is Bool {
        if op is Or || op is And { 5 } else { 4 }
    } else if op is Div {
        1
    } else if op is Pow {
        2
    } else {
        0
    }
}

/// Whether an operand of type `Mod(n)` is reduced modulo `n` before it is
/// made a real: both operands of a real division or of a comparison, and
/// the exponent of a real power.
pub open spec fn reduces_operand(op: BinaryOp, t: Type, right: bool) -> bool {
    (t is Real && (op is Div || (op is Pow && right))) || (t is Bool && is_comparison(op))
}

/// The code that makes a value of type `ty` at `s` an integer in register `d`.
pub open spec fn int_conversion(ty: Type, s: Source, d: usize) -> Seq<Instruction> {
    match ty {
        Type::Mod(n) => seq![Instruction::IMOD { dest: d, src1: s, src2: Source::Int(n) }],
        _ => seq![],
    }
}

/// The code that makes a value of type `ty` at `s` a real in register `d`,
/// reducing a `Mod(n)` value modulo `n` first where `reduce`.
pub open spec fn real_conversion(ty: Type, s: Source, d: usize, reduce: bool) -> Seq<Instruction> {
    match ty {
        Type::Mod(n) => if reduce {
            seq![
                Instruction::IMOD { dest: d, src1: s, src2: Source::Int(n) },
                Instruction::I2F { dest: d, src: Source::RegInter(d) },
            ]
        } else {
            seq![Instruction::I2F { dest: d, src: s }]
        },
        Type::Int => seq![Instruction::I2F { dest: d, src: s }],
        _ => seq![],
    }
}

/// The code that makes a value of type `ty` at `s` a boolean in register `d`.
pub open spec fn bool_conversion(ty: Type, s: Source, d: usize) -> Seq<Instruction> {
    match ty {
        Type::Impulse => seq![Instruction::IEQ { dest: d, src1: s, src2: Source::RegVar(0) }],
        _ => seq![],
    }
}

/// The code that brings the left (or `right`) operand of `b`, of type `ty`
/// at `s`, to the instruction's type, using register `d`.
pub open spec fn operand_conversion(b: BinaryExpr, right: bool, ty: Type, on_reals: bool, s: Source, d: usize) -> Seq<Instruction> {
    let plan = binary_plan(b.op, b.expr_type);
    if plan == 0 || (plan == 2 && !right) {
        seq![]
    } else if on_reals {
        real_conversion(ty, s, d, reduces_operand(b.op, b.expr_type, right))
    } else if plan == 5 {
        bool_conversion(ty, s, d)
    } else {
        int_conversion(ty, s, d)
    }
}

/// Where an operand at `s` is after its conversion `conv` into register `d`.
pub open spec fn converted_operand(conv: Seq<Instruction>, s: Source, d: usize) -> Source {
    if conv.len() == 0 { s } else { Source::RegInter(d) }
}

/// A power modulo `n`.
pub open spec fn is_mod_pow(b: BinaryExpr) -> bool {
    b.expr_type is Mod && b.op is Pow
}

/// The instruction for `dest = src1 op src2`: real arithmetic and
/// comparison where `float_op`, integer otherwise. A power modulo `n` is
/// compiled as `IDIV`.
pub open spec fn binary_instruction(op: BinaryOp, float_op: bool, mod_pow: bool, dest: usize, src1: Source, src2: Source) -> Instruction {
    match op {
        BinaryOp::Add => if float_op { Instruction::FADD { dest, src1, src2 } } else { Instruction::IADD { dest, src1, src2 } },
        BinaryOp::Sub => if float_op { Instruction::FSUB { dest, src1, src2 } } else { Instruction::ISUB { dest, src1, src2 } },
        BinaryOp::Mul => if float_op { Instruction::FMUL { dest, src1, src2 } } else { Instruction::IMUL { dest, src1, src2 } },
        BinaryOp::Div => if float_op { Instruction::FDIV { dest, src1, src2 } } else { Instruction::IDIV { dest, src1, src2 } },
        BinaryOp::Pow => if float_op {
            Instruction::FPOW { dest, src1, src2 }
        } else if mod_pow {
            Instruction::IDIV { dest, src1, src2 }
        } else {
            Instruction::IPOW { dest, src1, src2 }
        },
        BinaryOp::Lt => if float_op { Instruction::FLT { dest, src1, src2 } } else { Instruction::ILT { dest, src1, src2 } },
        BinaryOp::Gt => if float_op { Instruction::FGT { dest, src1, src2 } } else { Instruction::IGT { dest, src1, src2 } },
        BinaryOp::Le => if float_op { Instruction::FLE { dest, src1, src2 } } else { Instruction::ILE { dest, src1, src2 } },
        BinaryOp::Ge => if float_op { Instruction::FGE { dest, src1, src2 } } else { Instruction::IGE { dest, src1, src2 } },
        BinaryOp::Or => Instruction::OR { dest, src1, src2 },
        BinaryOp::And => Instruction::AND { dest, src1, src2 },
    }
}

fn make_binary_instruction(op: BinaryOp, float_op: bool, mod_pow: bool, dest: usize, src1: Source, src2: Source) -> (i: Instruction)
    ensures
        i == binary_instruction(op, float_op, mod_pow, dest, src1, src2),
        dest < NUM_REGS && source_ok(src1) && source_ok(src2) ==> instr_ok(i),
        written_reg(i) == Some(dest),
{
    match op {
        BinaryOp::Add => if float_op { Instruction::FADD { dest, src1, src2 } } else { Instruction::IADD { dest, src1, src2 } },
        BinaryOp::Sub => if float_op { Instruction::FSUB { dest, src1, src2 } } else { Instruction::ISUB { dest, src1, src2 } },
        BinaryOp::Mul => if float_op { Instruction::FMUL { dest, src1, src2 } } else { Instruction::IMUL { dest, src1, src2 } },
        BinaryOp::Div => if float_op { Instruction::FDIV { dest, src1, src2 } } else { Instruction::IDIV { dest, src1, src2 } },
        BinaryOp::Pow => if float_op {
            Instruction::FPOW { dest, src1, src2 }
        } else if mod_pow {
            Instruction::IDIV { dest, src1, src2 }
        } else {
            Instruction::IPOW { dest, src1, src2 }
        },
        BinaryOp::Lt => if float_op { Instruction::FLT { dest, src1, src2 } } else { Instruction::ILT { dest, src1, src2 } },
        BinaryOp::Gt => if float_op { Instruction::FGT { dest, src1, src2 } } else { Instruction::IGT { dest, src1, src2 } },
        BinaryOp::Le => if float_op { Instruction::FLE { dest, src1, src2 } } else { Instruction::ILE { dest, src1, src2 } },
        BinaryOp::Ge => if float_op { Instruction::FGE { dest, src1, src2 } } else { Instruction::IGE { dest, src1, src2 } },
        BinaryOp::Or => Instruction::OR { dest, src1, src2 },
        BinaryOp::And => Instruction::AND { dest, src1, src2 },
    }
}

impl<'a> RelCompiler<'a> {
    /// Compiles an expression: the instructions, where the value ends up,
    /// and its type. `None` where the expression cannot be compiled (an
    /// error node, a tuple outside a `cases`, a name that is not a variable
    /// or entity member, an operator the type has no instruction for, an
    /// operand that cannot be brought to the needed type) or where the
    /// registers run out, which is then reported.
    pub fn compile_expr(&mut self, expr: Expr) -> (r: Option<(Vec<Instruction>, Source, Type)>)
        requires
            old(self).wf(),
        ensures
            final(self).wf(),
            old(self).advanced(final(self)),
            final(self).errors() != old(self).errors() ==> r is None,
            r matches Some((code, src, ty)) ==> old(self).valid_result(final(self), code@, src),
            r matches Some((code, src, ty)) ==> (jump_safe(expr) ==> jumps_ok(code@)),
            expr matches Expr::Literal(l) ==> {
                &&& r matches Some((code, src, ty))
                &&& code@.len() == 0 && src == literal_source(l) && ty == literal_type(l)
                &&& old(self).same_state(final(self))
            },
            expr matches Expr::Ident(i) ==> old(self).same_state(final(self)) && match (i, r) {
                (Ident::Symbol(id), Some((code, src, ty))) => code@.len() == 0 && match ident_info(old(self).symbols(), id) {
                    IdentInfo::Variable(t) => {
                        &&& old(self).regs().contains_key(id)
                        &&& src == Source::RegVar(old(self).regs()[id])
                        &&& ty == t
                    },
                    IdentInfo::EntMember { parent, mapping } => src == Source::Int(mapping as i64)
                        && ty == Type::Custom(Ident::Symbol(parent)),
                    IdentInfo::Other => false,
                },
                (Ident::Symbol(id), None) => match ident_info(old(self).symbols(), id) {
                    IdentInfo::Variable(_) => !old(self).regs().contains_key(id),
                    IdentInfo::EntMember { .. } => false,
                    IdentInfo::Other => true,
                },
                (Ident::Str { .. }, r) => r is None,
            },
            expr matches Expr::Unary(u) ==> (r matches Some((code, src, ty)) ==> ty == u.expr_type && src is RegInter
                && unary_ends(old(self).symbols(), u, code@, src)),
            expr matches Expr::Binary(b) ==> (r matches Some((code, src, ty)) ==> ty == b.expr_type && src is RegInter
                && binary_ends(old(self).symbols(), b, code@, src)),
            expr is Sample ==> (r matches Some((code, src, ty)) ==> code@.len() > 0 && code@[0] is RND),
            r matches Some((code, src, ty)) ==> body_ends(old(self).symbols(), expr, code@, src),
            expr is Error || expr is Tuple ==> r is None && old(self).same_state(final(self)),
            r matches Some((code, src, ty)) ==> ty == result_type(old(self).symbols(), expr),
            final(self).errors() == old(self).errors() && expr_ok(old(self).symbols(), old(self).regs().dom(), expr)
                ==> r is Some,
        decreases expr,
    {
        match expr {
            Expr::Literal(literal) => {
                let (src, ty) = match literal {
                    Literal::Bool(b) => (Source::Bool(b), Type::Bool),
                    Literal::Int(i) => (Source::Int(i), Type::Int),
                    Literal::Real(d) => (Source::Float(d), Type::Real),
                };
                Some((Vec::new(), src, ty))
            },
            Expr::Ident(Ident::Symbol(id)) => {
                match self.ident_info(id) {
                    IdentInfo::Variable(t) => match self.lookup(id) {
                        Some(reg) => Some((Vec::new(), Source::RegVar(reg), t)),
                        None => None,
                    },
                    IdentInfo::EntMember { parent, mapping } => {
                        Some((Vec::new(), Source::Int(mapping as i64), Type::Custom(Ident::Symbol(parent))))
                    },
                    IdentInfo::Other => None,
                }
            },
            Expr::Ident(Ident::Str { .. }) => None,
            Expr::Unary(unary) => self.compile_unary(unary),
            Expr::Binary(binary) => self.compile_binary(binary),
            Expr::Block(block) => self.compile_block(block),
            Expr::Sample(sample) => self.compile_sample(sample),
            Expr::Cases(cases) => self.compile_cases(cases),
            Expr::Tuple(_) => None,
            Expr::Error => None,
        }
    }

    /// `-x` (times `-1`, integer or real) and `~x` (`NOT`, or for an
    /// impulse `x != r0`).
    fn compile_unary(&mut self, unary: UnaryExpr) -> (r: Option<(Vec<Instruction>, Source, Type)>)
        requires
            old(self).wf(),
        ensures
            final(self).wf(),
            old(self).advanced(final(self)),
            final(self).errors() != old(self).errors() ==> r is None,
            r matches Some((code, src, ty)) ==> old(self).valid_result(final(self), code@, src)
                && ty == unary.expr_type && src is RegInter,
            r matches Some((code, src, ty)) ==> (jump_safe(*unary.expr) ==> jumps_ok(code@)),
            r matches Some((code, src, ty)) ==> unary_ends(old(self).symbols(), unary, code@, src),
            final(self).errors() == old(self).errors()
                && expr_ok(old(self).symbols(), old(self).regs().dom(), Expr::Unary(unary)) ==> r is Some,
        decreases unary,
    {
        let UnaryExpr { expr, op, expr_type, .. } = unary;
        // which instruction: integer negation, real negation or logical not
        let kind: u8 = match (&expr_type, op) {
            (Type::Mod(_), UnaryOp::Neg) => 0,
            (Type::Int, UnaryOp::Neg) => 0,
            (Type::Real, UnaryOp::Neg) => 1,
            (Type::Bool, UnaryOp::BitNot) => 2,
            _ => return None,
        };
        let ghost s0 = *self;
        let (mut bytecode, src, sub_type) = match self.compile_expr(*expr) {
            Some(res) => res,
            None => return None,
        };
        let ghost s1 = *self;
        proof {
            lemma_dest_choice(s1.used(), src);
        }
        let dest = match self.dest_for(src) {
            Some(d) => d,
            None => {
                proof {
                    lemma_took_dest_advanced(&s1, self, src);
                    lemma_advanced_trans(&s0, &s1, self);
                }
                return None;
            },
        };
        let inst = if kind == 0 {
            Instruction::IMUL { dest, src1: src, src2: Source::Int(-1) }
        } else if kind == 1 {
            Instruction::FMUL { dest, src1: src, src2: Source::Float(Decimal { mantissa: -1, scale: 0 }) }
        } else if is_impulse_type(&sub_type) {
            Instruction::INE { dest, src1: src, src2: Source::RegInter(0) }
        } else {
            Instruction::NOT { dest, src }
        };
        proof {
            lemma_took_dest_advanced(&s1, self, src);
            lemma_advanced_trans(&s0, &s1, self);
            lemma_code_ok_push(bytecode@, inst, s0.used());
            if jump_safe(*unary.expr) {
                lemma_jumps_ok_push(bytecode@, inst);
            }
            if !(src is RegInter) {
                lemma_free_unbound(&s1, dest);
            }
        }
        bytecode.push(inst);
        proof {
            assert(inst == unary_instruction(unary.op, unary.expr_type, result_type(s0.symbols(), *unary.expr) is Impulse, dest, src));
            assert(bytecode@.last() == inst);
        }
        Some((bytecode, Source::RegInter(dest), expr_type))
    }

    /// A binary operation: both operands compiled, brought to the types the
    /// instruction takes, then the instruction into the destination.
    #[verifier::rlimit(100)]
    #[verifier::spinoff_prover]
    fn compile_binary(&mut self, binary: BinaryExpr) -> (r: Option<(Vec<Instruction>, Source, Type)>)
        requires
            old(self).wf(),
        ensures
            final(self).wf(),
            old(self).advanced(final(self)),
            final(self).errors() != old(self).errors() ==> r is None,
            r matches Some((code, src, ty)) ==> old(self).valid_result(final(self), code@, src)
                && ty == binary.expr_type && src is RegInter,
            r matches Some((code, src, ty)) ==> (jump_safe(*binary.left) && jump_safe(*binary.right) ==> jumps_ok(code@)),
            r matches Some((code, src, ty)) ==> binary_ends(old(self).symbols(), binary, code@, src),
            final(self).errors() == old(self).errors()
                && expr_ok(old(self).symbols(), old(self).regs().dom(), Expr::Binary(binary)) ==> r is Some,
        decreases binary,
    {
        let BinaryExpr { left, right, op, expr_type, .. } = binary;
        // how the operands are brought to the instruction's types:
        // 0 not at all, 1 both to integers, 2 the right one to an integer,
        // 3 both to reals, 4 comparison, 5 both to booleans
        let (plan, mod_pow, reduce_left, reduce_right): (u8, bool, bool, bool) = match (&expr_type, op) {
            (Type::Mod(_), BinaryOp::Add) | (Type::Mod(_), BinaryOp::Sub) | (Type::Mod(_), BinaryOp::Mul) => (0, false, false, false),
            (Type::Int, BinaryOp::Add) | (Type::Int, BinaryOp::Sub) | (Type::Int, BinaryOp::Mul) => (0, false, false, false),
            (Type::Mod(_), BinaryOp::Div) | (Type::Int, BinaryOp::Div) => (1, false, false, false),
            (Type::Mod(_), BinaryOp::Pow) => (2, true, false, false),
            (Type::Int, BinaryOp::Pow) => (2, false, false, false),
            (Type::Real, BinaryOp::Add) | (Type::Real, BinaryOp::Sub) | (Type::Real, BinaryOp::Mul) => (3, false, false, false),
            (Type::Real, BinaryOp::Div) => (3, false, true, true),
            (Type::Real, BinaryOp::Pow) => (3, false, false, true),
            (Type::Bool, BinaryOp::Lt) | (Type::Bool, BinaryOp::Gt) | (Type::Bool, BinaryOp::Le) | (Type::Bool, BinaryOp::Ge) => (4, false, true, true),
            (Type::Bool, BinaryOp::Or) | (Type::Bool, BinaryOp::And) => (5, false, false, false),
            _ => return None,
        };
        proof {
            assert((plan == 3) == (binary.expr_type is Real));
            assert((plan == 4) == is_comparison(binary.op));
            assert(mod_pow == (binary.expr_type is Mod && binary.op is Pow));
            assert(plan == binary_plan(binary.op, binary.expr_type));
            assert(reduce_left == reduces_operand(binary.op, binary.expr_type, false));
            assert(reduce_right == reduces_operand(binary.op, binary.expr_type, true));
        }
        let ghost s0 = *self;
        let (left_code, src1, left_type) = match self.compile_expr(*left) {
            Some(res) => res,
            None => return None,
        };
        let ghost s1 = *self;
        proof {
            if expr_ok(s0.symbols(), s0.regs().dom(), *binary.right) {
                lemma_advanced_ok(&s0, &s1, *binary.right);
            }
        }
        let (right_code, src2, right_type) = match self.compile_expr(*right) {
            Some(res) => res,
            None => {
                proof {
                    lemma_advanced_trans(&s0, &s1, self);
                }
                return None;
            },
        };
        let ghost s2 = *self;
        proof {
            lemma_advanced_trans(&s0, &s1, &s2);
            lemma_code_ok_append(left_code@, right_code@, s0.used(), s1.used());
            if jump_safe(*binary.left) && jump_safe(*binary.right) {
                lemma_jumps_ok_append(left_code@, right_code@);
            }
            lemma_operand_advanced(s0.used(), &s1, &s2, src1);
            if let Source::RegInter(y2) = src2 {
                if s0.used()[y2 as int] {
                    assert(s1.used()[y2 as int]);
                }
            }
            assert(operand_ok(s0.used(), &s2, src2));
            if let Source::RegInter(y1) = src1 {
                if let Source::RegInter(y2) = src2 {
                    assert(s1.used()[y1 as int]);
                    assert(!s1.used()[y2 as int]);
                }
            }
        }
        let ghost lc = left_code@;
        let ghost rc = right_code@;
        let mut bytecode = left_code;
        let mut right_code = right_code;
        bytecode.append(&mut right_code);
        let float_op = plan == 3 || (plan == 4 && (is_real_type(&left_type) || is_real_type(&right_type)));
        proof {
            assert(left_type == result_type(s0.symbols(), *binary.left));
            assert(right_type == result_type(s0.symbols(), *binary.right));
            assert(float_op == binary_on_reals(binary.op, binary.expr_type, left_type, right_type));
        }
        let ghost b2 = bytecode@;
        let left_src = if plan == 0 || plan == 2 {
            proof {
                lemma_appended_refl(b2, s2.used(), src1);
            }
            src1
        } else {
            let c = if float_op {
                self.coerce_real(&mut bytecode, src1, &left_type, reduce_left)
            } else if plan == 5 {
                self.coerce_bool(&mut bytecode, src1, &left_type)
            } else {
                self.coerce_int(&mut bytecode, src1, &left_type)
            };
            match c {
                Some(s) => s,
                None => {
                    proof {
                        lemma_coerced_advanced(&s2, self, b2, bytecode@, src1, c);
                        lemma_advanced_trans(&s0, &s2, self);
                    }
                    return None;
                },
            }
        };
        let ghost s3 = *self;
        let ghost b3 = bytecode@;
        let ghost dl: usize = match dest_choice(s2.used(), src1) {
            Some(d) => d,
            None => 0usize,
        };
        proof {
            assert(b3 == append_conversion(b2, binary, false, left_type, float_op, src1, dl));
            assert(left_src == converted_operand(operand_conversion(binary, false, left_type, float_op, src1, dl), src1, dl));
        }
        proof {
            if plan == 0 || plan == 2 {
                assert(s2.coerced(&s3, b2, b3, src1, Some(left_src)));
            }
            lemma_coerced_operands(s0.used(), &s2, &s3, b2, b3, src1, left_src, src2);
            lemma_coerced_advanced(&s2, &s3, b2, b3, src1, Some(left_src));
            lemma_advanced_trans(&s0, &s2, &s3);
            lemma_appended_code_ok(b2, b3, s0.used(), s2.used(), src1);
            if jump_safe(*binary.left) && jump_safe(*binary.right) {
                lemma_appended_jumps(b2, b3, s2.used(), src1);
            }
        }
        let right_src = if plan == 0 {
            proof {
                lemma_appended_refl(b3, s3.used(), src2);
            }
            src2
        } else {
            let c = if float_op {
                self.coerce_real(&mut bytecode, src2, &right_type, reduce_right)
            } else if plan == 5 {
                self.coerce_bool(&mut bytecode, src2, &right_type)
            } else {
                self.coerce_int(&mut bytecode, src2, &right_type)
            };
            match c {
                Some(s) => s,
                None => {
                    proof {
                        lemma_coerced_advanced(&s3, self, b3, bytecode@, src2, c);
                        lemma_advanced_trans(&s0, &s3, self);
                    }
                    return None;
                },
            }
        };
        let ghost s4 = *self;
        let ghost b4 = bytecode@;
        let ghost dr: usize = match dest_choice(s3.used(), src2) {
            Some(d) => d,
            None => 0usize,
        };
        proof {
            assert(b4 == append_conversion(b3, binary, true, right_type, float_op, src2, dr));
            assert(right_src == converted_operand(operand_conversion(binary, true, right_type, float_op, src2, dr), src2, dr));
        }
        proof {
            if plan == 0 {
                assert(s3.coerced(&s4, b3, b4, src2, Some(right_src)));
            }
            lemma_coerced_operands(s0.used(), &s3, &s4, b3, b4, src2, right_src, left_src);
            lemma_coerced_advanced(&s3, &s4, b3, b4, src2, Some(right_src));
            lemma_advanced_trans(&s0, &s3, &s4);
            lemma_appended_code_ok(b3, b4, s0.used(), s3.used(), src2);
            if jump_safe(*binary.left) && jump_safe(*binary.right) {
                lemma_appended_jumps(b3, b4, s3.used(), src2);
            }
            lemma_first_free_from(s4.used(), 0);
        }
        let dest = match self.get_binary_dest(left_src, right_src) {
            Some(d) => d,
            None => {
                proof {
                    lemma_took_dest_advanced(&s4, self, Source::Int(0));
                    lemma_advanced_trans(&s0, &s4, self);
                }
                return None;
            },
        };
        let inst = make_binary_instruction(op, float_op, mod_pow, dest, left_src, right_src);
        proof {
            // the destination was free when compilation began, and stays in use
            if let Source::RegInter(z) = left_src {
                assert(dest == z);
            } else if let Source::RegInter(w) = right_src {
                assert(dest == w);
            } else {
                assert(!s4.used()[dest as int]);
                lemma_free_unbound(&s4, dest);
                if s0.used()[dest as int] {
                    assert(s4.used()[dest as int]);
                }
            }
            assert(keeps_used(s0.used(), self.used())) by {
                assert forall|i: int| 0 <= i < s0.used().len() && #[trigger] s0.used()[i] implies self.used()[i] by {
                    assert(s4.used()[i]);
                }
            }
            lemma_code_ok_push(bytecode@, inst, s0.used());
            if jump_safe(*binary.left) && jump_safe(*binary.right) {
                lemma_jumps_ok_push(bytecode@, inst);
            }
            assert(self.unbound(dest)) by {
                assert(self.regs() == s4.regs());
            }
        }
        let ghost before_inst = bytecode@;
        bytecode.push(inst);
        proof {
            assert(bytecode@.last() == inst);
            lemma_binary_ends(s0.symbols(), binary, bytecode@, dest, lc, src1, rc, src2, dl, dr, float_op, b2, b3, b4,
                left_src, right_src);
        }
        Some((bytecode, Source::RegInter(dest), expr_type))
    }

    /// `{ let x = e; ...; result }`: each `let` binds its variable to the
    /// register holding the value (a copy into a new register for an
    /// immediate), then the result is compiled.
    fn compile_block(&mut self, block: BlockExpr) -> (r: Option<(Vec<Instruction>, Source, Type)>)
        requires
            old(self).wf(),
        ensures
            final(self).wf(),
            old(self).advanced(final(self)),
            final(self).errors() != old(self).errors() ==> r is None,
            r matches Some((code, src, ty)) ==> old(self).valid_result(final(self), code@, src),
            r matches Some((code, src, ty)) ==> (jump_safe(Expr::Block(block)) ==> jumps_ok(code@)),
            r matches Some((code, src, ty)) ==> ty == result_type(old(self).symbols(), *block.expr),
            r matches Some((code, src, ty)) ==> body_ends(old(self).symbols(), Expr::Block(block), code@, src),
            final(self).errors() == old(self).errors()
                && expr_ok(old(self).symbols(), old(self).regs().dom(), Expr::Block(block)) ==> r is Some,
        decreases block,
    {
        let ghost s0 = *self;
        let ghost whole = block;
        let ghost ok = expr_ok(s0.symbols(), s0.regs().dom(), Expr::Block(block));
        let BlockExpr { statements, expr, .. } = block;
        let ghost stmts = statements@;
        let n = statements.len();
        let mut rest = statements;
        let mut bytecode: Vec<Instruction> = Vec::new();
        let mut i: usize = 0;
        proof {
            lemma_advanced_refl(&s0);
            lemma_code_ok_empty(s0.used());
            lemma_jumps_ok_empty();
        }
        while i < n
            invariant
                n == stmts.len(),
                i <= n,
                stmts == whole.statements@,
                whole == block,
                jump_safe(Expr::Block(whole)) ==> jumps_ok(bytecode@),
                rest@ == stmts.skip(i as int),
                self.wf(),
                s0 == *old(self),
                s0.wf(),
                s0.advanced(self),
                self.errors() == s0.errors(),
                code_ok(bytecode@, s0.used()),
                ok == expr_ok(s0.symbols(), s0.regs().dom(), Expr::Block(whole)),
                s0.regs().dom().union(let_ids(stmts.take(i as int))).subset_of(self.regs().dom()),
            decreases n - i,
        {
            assert(rest@[0] == stmts[i as int]);
            let statement = rest.remove(0);
            assert(rest@ =~= stmts.skip(i + 1));
            proof {
                if ok {
                    assert(statement_ok(s0.symbols(), s0.regs().dom().union(let_ids(stmts.take(i as int))), stmts[i as int]));
                }
            }
            let let_statement = match statement {
                Statement::Let(l) => l,
                Statement::Error => return None,
            };
            let id = match let_statement.name {
                Ident::Symbol(id) => id,
                _ => return None,
            };
            proof {
                let v = whole.statements;
                assert(decreases_to!(whole => v));
                assert(decreases_to!(v => v@));
                assert(decreases_to!(v@ => v@[i as int]));
                assert(decreases_to!(whole => let_statement.expr));
            }
            let ghost s1 = *self;
            let ghost bi = s0.regs().dom().union(let_ids(stmts.take(i as int)));
            proof {
                assert(stmts.take(i + 1).drop_last() =~= stmts.take(i as int));
                assert(stmts.take(i + 1).last() == stmts[i as int]);
                if ok {
                    assert(statement_ok(s0.symbols(), bi, stmts[i as int]));
                    lemma_expr_ok_mono(s0.symbols(), bi, s1.regs().dom(), let_statement.expr);
                }
            }
            let (code, src, _sub_type) = match self.compile_expr(let_statement.expr) {
                Some(res) => res,
                None => {
                    proof {
                        lemma_advanced_trans(&s0, &s1, self);
                    }
                    return None;
                },
            };
            let ghost s2 = *self;
            proof {
                lemma_advanced_trans(&s0, &s1, &s2);
                lemma_code_ok_append(bytecode@, code@, s0.used(), s1.used());
                if jump_safe(Expr::Block(whole)) {
                    assert(statement_jump_safe(stmts[i as int]));
                    lemma_jumps_ok_append(bytecode@, code@);
                }
            }
            let mut code = code;
            bytecode.append(&mut code);
            match src {
                Source::RegVar(reg) | Source::RegInter(reg) => {
                    proof {
                        if let Source::RegVar(x) = src {
                            if !s1.used()[x as int] {
                                if s0.used()[x as int] {
                                    assert(s1.used()[x as int]);
                                }
                            } else {
                                lemma_bound_back(&s0, &s1, x);
                            }
                        } else {
                            if s0.used()[reg as int] {
                                assert(s1.used()[reg as int]);
                            }
                        }
                    }
                    self.bind(id, reg);
                    proof {
                        lemma_bind_advanced(&s0, &s2, self, id, reg);
                    }
                },
                _ => {
                    proof {
                        lemma_first_free_from(s2.used(), 0);
                    }
                    let dest = match self.get_next_reg() {
                        Some(d) => d,
                        None => {
                            proof {
                                lemma_took_dest_advanced(&s2, self, src);
                                lemma_advanced_trans(&s0, &s2, self);
                            }
                            return None;
                        },
                    };
                    let ghost s3 = *self;
                    proof {
                        lemma_took_dest_advanced(&s2, self, src);
                        lemma_advanced_trans(&s0, &s2, self);
                        if s0.used()[dest as int] {
                            assert(s2.used()[dest as int]);
                        }
                        lemma_code_ok_push(bytecode@, Instruction::MOV { dest, src }, s0.used());
                        if jump_safe(Expr::Block(whole)) {
                            lemma_jumps_ok_push(bytecode@, Instruction::MOV { dest, src });
                        }
                    }
                    self.bind(id, dest);
                    bytecode.push(Instruction::MOV { dest, src });
                    proof {
                        lemma_bind_advanced(&s0, &s3, self, id, dest);
                    }
                },
            }
            proof {
                assert(self.regs().contains_key(id));
                assert(let_ids(stmts.take(i + 1)) == let_ids(stmts.take(i as int)).insert(id));
                assert forall|k: SymbolId| s0.regs().dom().union(let_ids(stmts.take(i + 1))).contains(k)
                    implies self.regs().dom().contains(k) by {
                    if k != id {
                        assert(s0.regs().dom().union(let_ids(stmts.take(i as int))).contains(k));
                        assert(s1.regs().contains_key(k));
                        assert(s2.regs().contains_key(k));
                    }
                }
            }
            i = i + 1;
        }
        let ghost s4 = *self;
        proof {
            assert(stmts.take(n as int) =~= stmts);
            if ok {
                lemma_expr_ok_mono(s0.symbols(), s0.regs().dom().union(let_ids(stmts)), s4.regs().dom(), *block.expr);
            }
        }
        let (code, src, ty) = match self.compile_expr(*expr) {
            Some(res) => res,
            None => {
                proof {
                    lemma_advanced_trans(&s0, &s4, self);
                }
                return None;
            },
        };
        proof {
            lemma_advanced_trans(&s0, &s4, self);
            lemma_code_ok_append(bytecode@, code@, s0.used(), s4.used());
            if jump_safe(Expr::Block(whole)) {
                lemma_jumps_ok_append(bytecode@, code@);
            }
            match src {
                Source::RegVar(x) => {
                    if !s4.used()[x as int] {
                        if s0.used()[x as int] {
                            assert(s4.used()[x as int]);
                        }
                    } else {
                        lemma_bound_back(&s0, &s4, x);
                    }
                },
                Source::RegInter(y) => {
                    if s0.used()[y as int] {
                        assert(s4.used()[y as int]);
                    }
                },
                _ => {},
            }
        }
        let ghost pre = bytecode@;
        let ghost post = code@;
        let mut code = code;
        bytecode.append(&mut code);
        proof {
            assert(bytecode@ == pre + post);
            assert(s4.symbols() == s0.symbols());
            assert(body_ends(s0.symbols(), *whole.expr, post, src));
            assert(bytecode@.subrange(pre.len() as int, bytecode@.len() as int) =~= post);
            let k = pre.len() as int;
            assert(form_ends(s0.symbols(), *whole.expr, bytecode@.subrange(k, bytecode@.len() as int), src));
            assert(body_ends(s0.symbols(), Expr::Block(whole), bytecode@, src));
        }
        Some((bytecode, src, ty))
    }

    /// The cumulative probability of one more arm of a `sample`: its
    /// probability converted to a real, added to the previous cumulative
    /// one (`last`); 1 for the default arm. The register holding it.
    fn compile_prob(
        &mut self,
        bytecode: &mut Vec<Instruction>,
        prob: Prob,
        last: Option<usize>,
        Ghost(start): Ghost<Seq<bool>>,
    ) -> (r: Option<usize>)
        requires
            old(self).wf(),
            start.len() == NUM_REGS,
            keeps_used(start, old(self).used()),
            code_ok(old(bytecode)@, start),
            last matches Some(l) ==> l < NUM_REGS && old(self).used()[l as int] && old(self).unbound(l) && !start[l as int],
        ensures
            final(self).wf(),
            old(self).advanced(final(self)),
            final(self).errors() != old(self).errors() ==> r is None,
            code_ok(final(bytecode)@, start),
            old(bytecode)@.len() <= final(bytecode)@.len(),
            final(bytecode)@.subrange(0, old(bytecode)@.len() as int) == old(bytecode)@,
            r matches Some(d) ==> d < NUM_REGS && !old(self).used()[d as int] && final(self).used()[d as int]
                && final(self).unbound(d),
            jumps_ok(old(bytecode)@) && prob_jump_safe(prob) ==> jumps_ok(final(bytecode)@),
            final(self).errors() == old(self).errors() && prob_ok(old(self).symbols(), old(self).regs().dom(), prob)
                ==> r is Some,
        decreases prob,
    {
        let ghost s0 = *self;
        let ghost prob0 = prob;
        let ghost b0 = bytecode@;
        let ghost safe = jumps_ok(b0) && prob_jump_safe(prob0);
        proof {
            lemma_first_free_from(s0.used(), 0);
            lemma_advanced_refl(&s0);
        }
        match prob {
            Prob::Expr(e) => {
                let (code, psrc, sub_type) = match self.compile_expr(e) {
                    Some(res) => res,
                    None => return None,
                };
                let ghost s2 = *self;
                proof {
                    lemma_keeps_used_trans(start, s0.used(), s2.used());
                    lemma_code_ok_append(bytecode@, code@, start, s0.used());
                    if let Source::RegInter(y) = psrc {
                        if start[y as int] {
                            assert(s0.used()[y as int]);
                        }
                    }
                    if let Some(l) = last {
                        lemma_advanced_unbound(&s0, &s2, l);
                    }
                    assert(operand_ok(start, &s2, psrc));
                    let o = match last { Some(l) => Source::RegInter(l), None => Source::Int(0) };
                    assert(operand_ok(start, &s2, o));
                }
                let mut code = code;
                let ghost code_s = code@;
                bytecode.append(&mut code);
                let ghost b2 = bytecode@;
                proof {
                    if safe {
                        lemma_jumps_ok_append(b0, code_s);
                    }
                }
                let csrc = match self.coerce_real(bytecode, psrc, &sub_type, true) {
                    Some(c) => c,
                    None => {
                        proof {
                            lemma_coerced_advanced(&s2, self, b2, bytecode@, psrc, None);
                            lemma_advanced_trans(&s0, &s2, self);
                            if safe {
                                lemma_appended_jumps(b2, bytecode@, s2.used(), psrc);
                            }
                        }
                        return None;
                    },
                };
                let ghost s3 = *self;
                proof {
                    if safe {
                        lemma_appended_jumps(b2, bytecode@, s2.used(), psrc);
                    }
                }
                proof {
                    let o = match last { Some(l) => Source::RegInter(l), None => Source::Int(0) };
                    if let Source::RegInter(y) = psrc {
                        if let Some(l) = last {
                            assert(s0.used()[l as int]);
                        }
                    }
                    lemma_coerced_operands(start, &s2, &s3, b2, bytecode@, psrc, csrc, o);
                    lemma_coerced_advanced(&s2, &s3, b2, bytecode@, psrc, Some(csrc));
                    lemma_advanced_trans(&s0, &s2, &s3);
                    lemma_keeps_used_trans(start, s2.used(), s3.used());
                    lemma_appended_code_ok(b2, bytecode@, start, s2.used(), psrc);
                    lemma_first_free_from(s3.used(), 0);
                    lemma_dest_choice(s3.used(), csrc);
                }
                match last {
                    Some(last_reg) => {
                        let dest = match self.dest_for(csrc) {
                            Some(d) => d,
                            None => {
                                proof {
                                    lemma_took_dest_advanced(&s3, self, csrc);
                                    lemma_advanced_trans(&s0, &s3, self);
                                }
                                return None;
                            },
                        };
                        let inst = Instruction::FADD { dest, src1: csrc, src2: Source::RegInter(last_reg) };
                        proof {
                            lemma_took_dest_advanced(&s3, self, csrc);
                            lemma_advanced_trans(&s0, &s3, self);
                            if !(csrc is RegInter) {
                                lemma_free_unbound(&s3, dest);
                                if start[dest as int] {
                                    assert(s3.used()[dest as int]);
                                }
                                if s0.used()[dest as int] {
                                    assert(s3.used()[dest as int]);
                                }
                            }
                            lemma_code_ok_push(bytecode@, inst, start);
                    if safe {
                        lemma_jumps_ok_push(bytecode@, inst);
                    }
                            assert(self.regs() == s3.regs());
                        }
                        bytecode.push(inst);
                        Some(dest)
                    },
                    None => match csrc {
                        Source::RegInter(reg) => {
                            proof {
                                if s0.used()[reg as int] {
                                    assert(false);
                                }
                            }
                            Some(reg)
                        },
                        _ => {
                            let reg = match self.get_next_reg() {
                                Some(d) => d,
                                None => {
                                    proof {
                                        lemma_took_dest_advanced(&s3, self, Source::Int(0));
                                        lemma_advanced_trans(&s0, &s3, self);
                                    }
                                    return None;
                                },
                            };
                            let inst = Instruction::MOV { dest: reg, src: csrc };
                            proof {
                                lemma_took_dest_advanced(&s3, self, Source::Int(0));
                                lemma_advanced_trans(&s0, &s3, self);
                                lemma_free_unbound(&s3, reg);
                                if start[reg as int] {
                                    assert(s3.used()[reg as int]);
                                }
                                if s0.used()[reg as int] {
                                    assert(s3.used()[reg as int]);
                                }
                                lemma_code_ok_push(bytecode@, inst, start);
                    if safe {
                        lemma_jumps_ok_push(bytecode@, inst);
                    }
                                assert(self.regs() == s3.regs());
                            }
                            bytecode.push(inst);
                            Some(reg)
                        },
                    },
                }
            },
            Prob::Default => {
                let dest = match self.get_next_reg() {
                    Some(d) => d,
                    None => {
                        proof {
                            lemma_took_dest_advanced(&s0, self, Source::Int(0));
                        }
                        return None;
                    },
                };
                let inst = Instruction::MOV { dest, src: Source::Float(Decimal { mantissa: 1, scale: 0 }) };
                proof {
                    lemma_took_dest_advanced(&s0, self, Source::Int(0));
                    lemma_free_unbound(&s0, dest);
                    if start[dest as int] {
                        assert(s0.used()[dest as int]);
                    }
                    lemma_code_ok_push(bytecode@, inst, start);
                    if safe {
                        lemma_jumps_ok_push(bytecode@, inst);
                    }
                    assert(self.regs() == s0.regs());
                }
                bytecode.push(inst);
                Some(dest)
            },
        }
    }

    /// `sample { p1 => e1, ..., _ => en }`: draws a random number `rnd`,
    /// builds the cumulative probabilities, raises error 4 unless they add
    /// up to 1, then for each arm in turn skips the arm where
    /// `rnd >= cdf[i]`, and otherwise computes it into the result register
    /// and jumps to the end.
    fn compile_sample(&mut self, sample: SampleExpr) -> (r: Option<(Vec<Instruction>, Source, Type)>)
        requires
            old(self).wf(),
        ensures
            final(self).wf(),
            old(self).advanced(final(self)),
            final(self).errors() != old(self).errors() ==> r is None,
            r matches Some((code, src, ty)) ==> old(self).valid_result(final(self), code@, src)
                && ty == sample.expr_type && src is RegInter,
            r matches Some((code, src, ty)) ==> (jump_safe(Expr::Sample(sample)) ==> jumps_ok(code@)),
            r matches Some((code, src, ty)) ==> code@.len() > 0 && code@[0] is RND,
            r matches Some((code, src, ty)) ==> sample_ends(sample, code@, src),
            final(self).errors() == old(self).errors()
                && expr_ok(old(self).symbols(), old(self).regs().dom(), Expr::Sample(sample)) ==> r is Some,
        decreases sample,
    {
        let ghost ok = expr_ok(old(self).symbols(), old(self).regs().dom(), Expr::Sample(sample));
        let ghost s0 = *self;
        let ghost whole = sample;
        let ghost safe = jump_safe(Expr::Sample(sample));
        proof {
            lemma_advanced_refl(&s0);
            lemma_code_ok_empty(s0.used());
            lemma_first_free_from(s0.used(), 0);
        }
        let SampleExpr { arms, expr_type, .. } = sample;
        let ghost arms0 = arms@;
        let mut bytecode: Vec<Instruction> = Vec::new();
        let rnd = match self.get_next_reg() {
            Some(r) => r,
            None => return None,
        };
        proof {
            lemma_took_dest_advanced(&s0, self, Source::Int(0));
            lemma_free_unbound(&s0, rnd);
            lemma_code_ok_push(bytecode@, Instruction::RND { dest: rnd }, s0.used());
            lemma_jumps_ok_push(bytecode@, Instruction::RND { dest: rnd });
        }
        bytecode.push(Instruction::RND { dest: rnd });
        let n = arms.len();
        let mut rest = arms;
        let mut arm_exprs: Vec<Expr> = Vec::new();
        let mut cdf: Vec<usize> = Vec::new();
        let mut last_prob_reg: Option<usize> = None;
        let mut i: usize = 0;
        while i < n
            invariant
                n == arms0.len(),
                i <= n,
                arms0 == whole.arms@,
                whole == sample,
                rest@ == arms0.skip(i as int),
                arm_exprs@.len() == i,
                forall|j: int| 0 <= j < i ==> arm_exprs@[j] == #[trigger] arms0[j].expr,
                cdf@.len() == i,
                bytecode@.len() > 0,
                bytecode@[0] == (Instruction::RND { dest: rnd }),
                self.wf(),
                s0 == *old(self),
                s0.wf(),
                s0.advanced(self),
                self.errors() == s0.errors(),
                code_ok(bytecode@, s0.used()),
                rnd < NUM_REGS,
                !s0.used()[rnd as int],
                self.used()[rnd as int],
                self.unbound(rnd),
                forall|j: int| 0 <= j < i ==> {
                    &&& #[trigger] cdf@[j] < NUM_REGS
                    &&& !s0.used()[cdf@[j] as int]
                    &&& self.used()[cdf@[j] as int]
                    &&& self.unbound(cdf@[j])
                },
                i == 0 <==> last_prob_reg is None,
                i > 0 ==> last_prob_reg == Some(cdf@[i - 1]),
                safe ==> forall|k: int| 0 <= k < n ==> sample_arm_jump_safe(#[trigger] arms0[k]),
                safe ==> jumps_ok(bytecode@),
                ok ==> forall|k: int| 0 <= k < n ==> sample_arm_ok(s0.symbols(), s0.regs().dom(), #[trigger] arms0[k]),
                ok ==> n > 0,
                ok == expr_ok(s0.symbols(), s0.regs().dom(), Expr::Sample(whole)),
            decreases n - i,
        {
            assert(rest@[0] == arms0[i as int]);
            let arm = rest.remove(0);
            assert(rest@ =~= arms0.skip(i + 1));
            let SampleArm { prob, expr, .. } = arm;
            proof {
                if safe {
                    assert(sample_arm_jump_safe(arms0[i as int]));
                }
            }
            arm_exprs.push(expr);
            proof {
                let v = whole.arms;
                assert(decreases_to!(whole => v));
                assert(decreases_to!(v => v@));
                assert(decreases_to!(v@ => v@[i as int]));
                assert(decreases_to!(whole => prob));
            }
            let ghost s1 = *self;
            proof {
                if i > 0 {
                    assert(cdf@[i - 1] < NUM_REGS);
                }
            }
            proof {
                lemma_advanced_dom(&s0, &s1);
                if ok {
                    assert(sample_arm_ok(s0.symbols(), s0.regs().dom(), arms0[i as int]));
                    if let Prob::Expr(pe) = arms0[i as int].prob {
                        lemma_expr_ok_mono(s0.symbols(), s0.regs().dom(), s1.regs().dom(), pe);
                    }
                    assert(prob == arms0[i as int].prob);
                    assert(prob_ok(s1.symbols(), s1.regs().dom(), prob));
                }
            }
            let dest = match self.compile_prob(&mut bytecode, prob, last_prob_reg, Ghost(s0.used())) {
                Some(d) => d,
                None => {
                    proof {
                        lemma_advanced_trans(&s0, &s1, self);
                    }
                    return None;
                },
            };
            proof {
                lemma_advanced_trans(&s0, &s1, self);
                lemma_advanced_unbound(&s1, self, rnd);
                assert forall|j: int| 0 <= j < i implies {
                    &&& #[trigger] cdf@[j] < NUM_REGS
                    &&& !s0.used()[cdf@[j] as int]
                    &&& self.used()[cdf@[j] as int]
                    &&& self.unbound(cdf@[j])
                } by {
                    lemma_advanced_unbound(&s1, self, cdf@[j]);
                }
                if s0.used()[dest as int] {
                    assert(s1.used()[dest as int]);
                }
            }
            cdf.push(dest);
            last_prob_reg = Some(dest);
            i = i + 1;
        }
        let last = match last_prob_reg {
            Some(l) => l,
            None => return None,
        };
        let one = Source::Float(Decimal { mantissa: 1, scale: 0 });
        proof {
            if safe {
                lemma_skip_one(
                    bytecode@,
                    Instruction::FJEQ { offset: 3, src1: Source::RegInter(last), src2: one },
                    Instruction::ERR { code: 4, src: Some(Source::RegInter(last)) },
                );
            }
            lemma_code_ok_push(bytecode@, Instruction::FJEQ { offset: 3, src1: Source::RegInter(last), src2: one }, s0.used());
            lemma_code_ok_push(
                bytecode@.push(Instruction::FJEQ { offset: 3, src1: Source::RegInter(last), src2: one }),
                Instruction::ERR { code: 4, src: Some(Source::RegInter(last)) },
                s0.used(),
            );
        }
        bytecode.push(Instruction::FJEQ { offset: 3, src1: Source::RegInter(last), src2: one });
        bytecode.push(Instruction::ERR { code: 4, src: Some(Source::RegInter(last)) });
        let ghost s5 = *self;
        proof {
            lemma_first_free_from(s5.used(), 0);
        }
        let dest = match self.get_next_reg() {
            Some(d) => d,
            None => {
                proof {
                    lemma_took_dest_advanced(&s5, self, Source::Int(0));
                    lemma_advanced_trans(&s0, &s5, self);
                }
                return None;
            },
        };
        proof {
            lemma_took_dest_advanced(&s5, self, Source::Int(0));
            lemma_advanced_trans(&s0, &s5, self);
            lemma_free_unbound(&s5, dest);
            if s0.used()[dest as int] {
                assert(s5.used()[dest as int]);
            }
            assert(self.regs() == s5.regs());
            assert forall|j: int| 0 <= j < n implies {
                &&& #[trigger] cdf@[j] < NUM_REGS
                &&& !s0.used()[cdf@[j] as int]
                &&& self.used()[cdf@[j] as int]
                &&& self.unbound(cdf@[j])
                &&& cdf@[j] != dest
            } by {
                assert(s5.used()[cdf@[j] as int]);
            }
        }
        let ghost exprs0 = arm_exprs@;
        let mut arm_rest = arm_exprs;
        let mut jmp_inst_indices: Vec<usize> = Vec::new();
        let mut last_comp_jmp_idx: usize = 0;
        let mut j: usize = 0;
        while j < n
            invariant
                n == arms0.len(),
                n == cdf@.len(),
                n > 0,
                j <= n,
                arms0 == whole.arms@,
                whole == sample,
                exprs0.len() == n,
                forall|k: int| 0 <= k < n ==> exprs0[k] == #[trigger] arms0[k].expr,
                arm_rest@ == exprs0.skip(j as int),
                self.wf(),
                s0 == *old(self),
                s0.wf(),
                s0.advanced(self),
                self.errors() == s0.errors(),
                code_ok(bytecode@, s0.used()),
                rnd < NUM_REGS,
                !s0.used()[rnd as int],
                self.used()[rnd as int],
                self.unbound(rnd),
                rnd != dest,
                dest < NUM_REGS,
                !s0.used()[dest as int],
                self.used()[dest as int],
                self.unbound(dest),
                forall|k: int| 0 <= k < n ==> {
                    &&& #[trigger] cdf@[k] < NUM_REGS
                    &&& !s0.used()[cdf@[k] as int]
                    &&& self.used()[cdf@[k] as int]
                    &&& self.unbound(cdf@[k])
                    &&& cdf@[k] != dest
                },
                jmp_inst_indices@.len() == j,
                bytecode@.len() > 0,
                bytecode@[0] == (Instruction::RND { dest: rnd }),
                j > 0 ==> last_comp_jmp_idx >= 1,
                forall|k: int| 0 <= k < j ==> #[trigger] jmp_inst_indices@[k] < bytecode@.len(),
                forall|k1: int, k2: int| 0 <= k1 < k2 < j ==> jmp_inst_indices@[k1] < jmp_inst_indices@[k2],
                j > 0 ==> jmp_inst_indices@[j - 1] == bytecode@.len() - 1,
                forall|k: int| 0 <= k < j ==> 1 <= #[trigger] jmp_inst_indices@[k] && bytecode@[jmp_inst_indices@[k] as int] is JMP
                    && moves_to(bytecode@[jmp_inst_indices@[k] - 1], dest),
                j > 0 ==> last_comp_jmp_idx + 3 <= bytecode@.len(),
                safe ==> forall|k: int| 0 <= k < n ==> sample_arm_jump_safe(#[trigger] arms0[k]),
                safe && j == 0 ==> jumps_ok(bytecode@),
                safe && j > 0 ==> arms_landed(bytecode@, last_comp_jmp_idx as int),
                ok ==> forall|k: int| 0 <= k < n ==> sample_arm_ok(s0.symbols(), s0.regs().dom(), #[trigger] arms0[k]),
                ok == expr_ok(s0.symbols(), s0.regs().dom(), Expr::Sample(whole)),
            decreases n - j,
        {
            assert(arm_rest@[0] == exprs0[j as int]);
            let expr = arm_rest.remove(0);
            assert(arm_rest@ =~= exprs0.skip(j + 1));
            proof {
                let v = whole.arms;
                assert(decreases_to!(whole => v));
                assert(decreases_to!(v => v@));
                assert(decreases_to!(v@ => v@[j as int]));
                assert(expr == v@[j as int].expr);
                assert(decreases_to!(v@[j as int] => v@[j as int].expr));
                assert(decreases_to!(whole => expr));
            }
            let cdf_reg = cdf[j];
            let ghost s6 = *self;
            proof {
                lemma_advanced_dom(&s0, &s6);
                if ok {
                    assert(sample_arm_ok(s0.symbols(), s0.regs().dom(), arms0[j as int]));
                    lemma_expr_ok_mono(s0.symbols(), s0.regs().dom(), s6.regs().dom(), arms0[j as int].expr);
                    assert(expr == arms0[j as int].expr);
                    assert(expr_ok(s6.symbols(), s6.regs().dom(), expr));
                }
            }
            let (code, src, _sub_type) = match self.compile_expr(expr) {
                Some(res) => res,
                None => {
                    proof { lemma_advanced_trans(&s0, &s6, self); }
                    return None;
                },
            };
            let ghost s7 = *self;
            proof {
                lemma_advanced_trans(&s0, &s6, &s7);
                lemma_advanced_unbound(&s6, &s7, rnd);
                lemma_advanced_unbound(&s6, &s7, dest);
                assert forall|k: int| 0 <= k < n implies {
                    &&& #[trigger] cdf@[k] < NUM_REGS
                    &&& !s0.used()[cdf@[k] as int]
                    &&& s7.used()[cdf@[k] as int]
                    &&& s7.unbound(cdf@[k])
                    &&& cdf@[k] != dest
                } by {
                    lemma_advanced_unbound(&s6, &s7, cdf@[k]);
                }
            }
            let mut code = code;
            let ghost arm_s = code@;
            proof {
                if safe {
                    assert(sample_arm_jump_safe(arms0[j as int]));
                    assert(jump_safe(expr));
                    assert(jumps_ok(arm_s));
                }
            }
            if let Source::RegInter(src_reg) = src {
                proof {
                    if s0.used()[src_reg as int] {
                        assert(s6.used()[src_reg as int]);
                    }
                }
                self.set_used(src_reg, false);
                proof {
                    lemma_free_advanced(&s0, &s7, self, src_reg);
                    assert(self.regs() == s7.regs());
                }
            }
            proof {
                lemma_code_ok_append(Seq::empty(), code@, s0.used(), s6.used());
                assert(Seq::<Instruction>::empty() + code@ =~= code@);
                lemma_code_ok_push(code@, Instruction::MOV { dest, src }, s0.used());
                lemma_code_ok_push(code@.push(Instruction::MOV { dest, src }), Instruction::JMP { offset: 0 }, s0.used());
            }
            code.push(Instruction::MOV { dest, src });
            code.push(Instruction::JMP { offset: 0 });
            let len = jump_distance(&code, 0, code.len());
            let skip = Instruction::FJGE { offset: len, src1: Source::RegInter(rnd), src2: Source::RegInter(cdf_reg) };
            proof {
                if safe {
                    assert(code@.subrange(0, code@.len() as int) =~= code@);
                    assert(code@ == arm_s.push(Instruction::MOV { dest, src }).push(Instruction::JMP { offset: 0 }));
                    if j > 0 {
                        lemma_arms_landed_ok(bytecode@, last_comp_jmp_idx as int);
                    }
                    lemma_arm_step(bytecode@, skip, arm_s, Instruction::MOV { dest, src }, Instruction::JMP { offset: 0 });
                    assert(bytecode@.push(skip) + code@ == bytecode@.push(skip) + arm_s.push(Instruction::MOV { dest, src }).push(Instruction::JMP { offset: 0 }));
                }
                lemma_code_ok_push(bytecode@, skip, s0.used());
                lemma_code_ok_append(bytecode@.push(skip), code@, s0.used(), s0.used());
            }
            let ghost b_before = bytecode@;
            let ghost code_s = code@;
            bytecode.push(skip);
            last_comp_jmp_idx = bytecode.len() - 1;
            bytecode.append(&mut code);
            proof {
                assert(bytecode@ == b_before.push(skip) + code_s);
                assert forall|k: int| 0 <= k < j implies 1 <= #[trigger] jmp_inst_indices@[k]
                    && bytecode@[jmp_inst_indices@[k] as int] is JMP && moves_to(bytecode@[jmp_inst_indices@[k] - 1], dest) by {
                    assert(bytecode@[jmp_inst_indices@[k] as int] == b_before[jmp_inst_indices@[k] as int]);
                    assert(bytecode@[jmp_inst_indices@[k] - 1] == b_before[jmp_inst_indices@[k] - 1]);
                }
                assert(bytecode@[bytecode@.len() - 1] == code_s[code_s.len() - 1]);
                assert(bytecode@[bytecode@.len() - 2] == code_s[code_s.len() - 2]);
            }
            jmp_inst_indices.push(bytecode.len() - 1);
            j = j + 1;
        }
        let ghost b9 = bytecode@;
        let ghost b9_exits = jmp_inst_indices@;
        let ghost f9 = last_comp_jmp_idx as int;
        proof {
            lemma_code_ok_drop_last(b9, s0.used());
        }
        bytecode.pop();
        jmp_inst_indices.pop();
        let mut last_skip = bytecode[last_comp_jmp_idx];
        update_jmp_offset(&mut last_skip, -3);
        proof {
            lemma_code_ok_update(bytecode@, last_comp_jmp_idx as int, last_skip, s0.used());
            if safe {
                assert(bytecode@ == b9.drop_last());
                assert(bytecode@[f9] == b9[f9]);
                lemma_close_arms(b9, f9, last_skip);
            }
        }
        let ghost b_popped = bytecode@;
        bytecode.set(last_comp_jmp_idx, last_skip);
        proof {
            assert(b_popped == b9.drop_last());
            assert(moves_to(b9[b9.len() - 2], dest));
            assert forall|q: int| 0 <= q < jmp_inst_indices@.len() implies 1 <= #[trigger] jmp_inst_indices@[q]
                && bytecode@[jmp_inst_indices@[q] as int] is JMP && moves_to(bytecode@[jmp_inst_indices@[q] - 1], dest) by {
                let e = jmp_inst_indices@[q] as int;
                assert(jmp_inst_indices@[q] == b9_exits[q]);
                assert(b9_exits[q] < b9_exits[b9_exits.len() - 1]);
                assert(b_popped[e] == b9[e]);
                assert(b_popped[e - 1] == b9[e - 1]);
            }
            assert(moves_to(bytecode@.last(), dest));
        }
        let target = bytecode.len();
        let m = jmp_inst_indices.len();
        let mut k: usize = 0;
        while k < m
            invariant
                m == jmp_inst_indices@.len(),
                k <= m,
                target == bytecode@.len(),
                forall|q: int| 0 <= q < m ==> #[trigger] jmp_inst_indices@[q] < target,
                forall|k1: int, k2: int| 0 <= k1 < k2 < m ==> jmp_inst_indices@[k1] < jmp_inst_indices@[k2],
                forall|q: int| 0 <= q < m ==> 1 <= #[trigger] jmp_inst_indices@[q] && bytecode@[jmp_inst_indices@[q] as int] is JMP
                    && moves_to(bytecode@[jmp_inst_indices@[q] - 1], dest),
                forall|q: int| 0 <= q < k ==> lands(bytecode@, #[trigger] jmp_inst_indices@[q] as int, target as int),
                moves_to(bytecode@.last(), dest),
                bytecode@.len() > 0,
                bytecode@[0] == (Instruction::RND { dest: rnd }),
                code_ok(bytecode@, s0.used()),
                safe ==> jumps_ok(bytecode@),
            decreases m - k,
        {
            let idx = jmp_inst_indices[k];
            let new_offset = jump_distance(&bytecode, idx + 1, target);
            if let Instruction::JMP { .. } = bytecode[idx] {
                let ghost before = bytecode@;
                proof {
                    lemma_code_ok_update(bytecode@, idx as int, Instruction::JMP { offset: new_offset }, s0.used());
                    if safe {
                        lemma_retarget(bytecode@, idx as int, new_offset);
                    }
                }
                bytecode.set(idx, Instruction::JMP { offset: new_offset });
                proof {
                    let jmp = Instruction::JMP { offset: new_offset };
                    assert(bytecode@ == before.update(idx as int, jmp));
                    assert forall|q: int| 0 <= q < k + 1 implies lands(bytecode@, #[trigger] jmp_inst_indices@[q] as int, target as int) by {
                        if q < k {
                            lemma_lands_update(before, idx as int, jmp, jmp_inst_indices@[q] as int, target as int);
                        } else {
                            assert(bytecode@.subrange(idx + 1, target as int) =~= before.subrange(idx + 1, target as int));
                        }
                    }
                    assert forall|q: int| 0 <= q < m implies 1 <= #[trigger] jmp_inst_indices@[q] && bytecode@[jmp_inst_indices@[q] as int] is JMP
                        && moves_to(bytecode@[jmp_inst_indices@[q] - 1], dest) by {
                        assert(moves_to(before[jmp_inst_indices@[q] - 1], dest));
                    }
                    assert(moves_to(before.last(), dest));
                }
            }
            k = k + 1;
        }
        proof {
            assert(exits_land(bytecode@, dest, jmp_inst_indices@));
            assert(m + 1 == whole.arms.len());
        }
        // release the random number and the cumulative probabilities
        let ghost s10 = *self;
        self.set_used(rnd, false);
        proof {
            lemma_free_advanced(&s0, &s10, self, rnd);
        }
        let mut q: usize = 0;
        while q < n
            invariant
                n == cdf@.len(),
                q <= n,
                self.wf(),
                s0 == *old(self),
                s0.wf(),
                s0.advanced(self),
                self.errors() == s0.errors(),
                dest < NUM_REGS,
                !s0.used()[dest as int],
                self.used()[dest as int],
                self.unbound(dest),
                forall|k: int| 0 <= k < n ==> {
                    &&& #[trigger] cdf@[k] < NUM_REGS
                    &&& !s0.used()[cdf@[k] as int]
                    &&& self.unbound(cdf@[k])
                    &&& cdf@[k] != dest
                },
            decreases n - q,
        {
            let reg = cdf[q];
            let ghost s11 = *self;
            self.set_used(reg, false);
            proof {
                lemma_free_advanced(&s0, &s11, self, reg);
                assert(self.regs() == s11.regs());
            }
            q = q + 1;
        }
        Some((bytecode, Source::RegInter(dest), expr_type))
    }

    /// Compares the first scrutinee value with `other` (of type `other_type`),
    /// both brought to the type they are compared at, and appends the jump
    /// `miss` takes when they do not match; its index goes to `miss_jumps`.
    fn compare_first(
        &mut self,
        bytecode: &mut Vec<Instruction>,
        miss_jumps: &mut Vec<usize>,
        sources: &mut Vec<Source>,
        types: &mut Vec<Type>,
        other: Source,
        other_type: &Type,
        op: Option<CompOp>,
        Ghost(start): Ghost<Seq<bool>>,
        Ghost(avoid): Ghost<usize>,
    ) -> (ok: bool)
        requires
            old(self).wf(),
            start.len() == NUM_REGS,
            keeps_used(start, old(self).used()),
            code_ok(old(bytecode)@, start),
            sources_ok(start, old(self), old(sources)@, avoid),
            old(sources)@.len() > 0,
            old(types)@.len() == old(sources)@.len(),
            source_ok(other),
            other matches Source::RegInter(y) ==> !start[y as int],
            avoid < NUM_REGS ==> old(self).used()[avoid as int],
            forall|k: int| 0 <= k < old(miss_jumps)@.len() ==> #[trigger] old(miss_jumps)@[k] < old(bytecode)@.len(),
        ensures
            final(self).wf(),
            old(self).advanced(final(self)),
            final(self).errors() != old(self).errors() ==> !ok,
            code_ok(final(bytecode)@, start),
            final(sources)@.len() == old(sources)@.len(),
            final(types)@.len() == old(types)@.len(),
            sources_ok(start, final(self), final(sources)@, avoid),
            forall|k: int| 0 <= k < final(miss_jumps)@.len() ==> #[trigger] final(miss_jumps)@[k] < final(bytecode)@.len(),
            ok <==> (equal_coercible(old(types)@[0], *other_type) && final(self).errors() == old(self).errors()),
            ok ==> final(types)@ == old(types)@.update(0, equal_type(old(types)@[0], *other_type)),
            ok ==> {
                let c = final(bytecode)@;
                &&& c.len() > old(bytecode)@.len()
                &&& c.len() <= usize::MAX
                &&& final(miss_jumps)@ == old(miss_jumps)@.push((c.len() - 1) as usize)
                &&& is_jump(c.last()) && !(c.last() is JMP) && crate::ir::jump_offset(c.last()) == 3
                &&& jumps_ok(old(bytecode)@) ==> jumps_ok(c.drop_last())
                &&& op is None ==> compared_miss(c.last(), final(sources)@[0], other, *other_type,
                    equal_type(old(types)@[0], *other_type))
            },
    {
        let ghost s0 = *self;
        let ghost c0 = bytecode@;
        let first = sources[0];
        let first_type = types[0].duplicate();
        proof {
            assert(operand_ok(start, &s0, old(sources)@[0]));
        }
        let res = self.coerce_equal(bytecode, first, &first_type, other, other_type);
        proof {
            lemma_keeps_used_trans(start, s0.used(), self.used());
            lemma_appended2_code_ok(c0, bytecode@, start, s0.used(), first, other);
            assert(s0.advanced(self));
            lemma_sources_advanced(start, &s0, self, sources@, avoid);
        }
        let (l, r, t) = match res {
            Some(v) => v,
            None => return false,
        };
        let ghost dd: (usize, usize) = choose|d1: usize, d2: usize| #[trigger] crate::rel_compiler::equal_conversions(
            c0, bytecode@, first_type, *other_type, t, first, other, l, r, d1, d2);
        let ghost d2 = dd.1;
        proof {
            assert(r == converted(*other_type, t, other, d2));
            if let Source::RegInter(z) = l {
                if l != first {
                    assert(!s0.used()[z as int]);
                    assert(z != avoid);
                    lemma_free_unbound(&s0, z);
                    if start[z as int] {
                        assert(s0.used()[z as int]);
                    }
                }
            }
            assert(operand_ok(start, self, l));
        }
        let float_op = is_real_type(&t);
        let jump = match op {
            Some(o) => make_pattern_miss_jump(o, float_op, l, r),
            None => if float_op {
                Instruction::FJNE { offset: 3, src1: l, src2: r }
            } else {
                Instruction::IJNE { offset: 3, src1: l, src2: r }
            },
        };
        proof {
            lemma_code_ok_push(bytecode@, jump, start);
            if jumps_ok(c0) {
                lemma_appended2_jumps(c0, bytecode@, s0.used(), first, other);
            }
        }
        let ghost c1 = bytecode@;
        proof {
            if op is None {
                assert(equal_miss(jump, l, converted(*other_type, t, other, d2), is_real(t)));
            }
        }
        sources.set(0, l);
        types.set(0, t);
        bytecode.push(jump);
        miss_jumps.push(bytecode.len() - 1);
        proof {
            assert(bytecode@.drop_last() =~= c1);
            assert forall|k: int| 0 <= k < sources@.len() implies operand_ok(start, self, #[trigger] sources@[k])
                && sources@[k] != Source::RegInter(avoid) by {
                if k == 0 {
                    if let Source::RegInter(z) = l {
                        if l != first {
                            assert(!s0.used()[z as int]);
                        }
                    }
                }
            }
        }
        true
    }

    /// The test of one `cases` pattern against the scrutinee values: jumps
    /// to where the pattern does not match (their indices are returned),
    /// ending in a `JMP` taken where it matches. A default pattern always
    /// matches; a tuple pattern tests each value against its part.
    fn compile_pattern_comp(
        &mut self,
        sources: &mut Vec<Source>,
        types: &mut Vec<Type>,
        pattern: SimplePattern,
        Ghost(start): Ghost<Seq<bool>>,
        Ghost(avoid): Ghost<usize>,
    ) -> (r: Option<(Vec<Instruction>, Vec<usize>)>)
        requires
            old(self).wf(),
            start.len() == NUM_REGS,
            keeps_used(start, old(self).used()),
            sources_ok(start, old(self), old(sources)@, avoid),
            old(types)@.len() == old(sources)@.len(),
            avoid < NUM_REGS ==> old(self).used()[avoid as int],
        ensures
            final(self).wf(),
            old(self).advanced(final(self)),
            final(self).errors() != old(self).errors() ==> r is None,
            final(sources)@.len() == old(sources)@.len(),
            final(types)@.len() == old(types)@.len(),
            sources_ok(start, final(self), final(sources)@, avoid),
            r matches Some((code, misses)) ==> {
                &&& code_ok(code@, start)
                &&& code@.len() > 0
                &&& code@.last() == Instruction::JMP { offset: 0 }
                &&& forall|k: int| 0 <= k < misses@.len() ==> #[trigger] misses@[k] + 1 < code@.len()
                &&& increasing(misses@)
                &&& pattern_jump_safe(pattern) ==> ends_open(code@, misses@)
            },
            final(self).errors() == old(self).errors()
                && pattern_ok(old(self).symbols(), old(self).regs().dom(), type_classes(old(types)@), pattern) ==> r is Some,
            r is Some && pattern_ok(old(self).symbols(), old(self).regs().dom(), type_classes(old(types)@), pattern)
                ==> type_classes(final(types)@) == type_classes(old(types)@),
            pattern is Default ==> (r matches Some((code, misses)) && code@ == seq![Instruction::JMP { offset: 0 }]
                && misses@.len() == 0),
            pattern is Literal ==> (r matches Some((code, misses)) ==> code@.len() >= 2
                && misses@ == seq![(code@.len() - 2) as usize]
                && compared_miss(code@[code@.len() - 2], final(sources)@[0], literal_source(pattern->Literal_0),
                    literal_type(pattern->Literal_0), equal_type(old(types)@[0], literal_type(pattern->Literal_0)))),
            pattern matches SimplePattern::Ident(Ident::Symbol(id)) ==> (r matches Some((code, misses)) ==> code@.len() >= 2
                && misses@ == seq![(code@.len() - 2) as usize]
                && compared_miss(code@[code@.len() - 2], final(sources)@[0],
                    ident_pattern_source(old(self).symbols(), old(self).regs(), id), ident_pattern_type(old(self).symbols(), id),
                    equal_type(old(types)@[0], ident_pattern_type(old(self).symbols(), id)))),
        decreases pattern,
    {
        let ghost s0 = *self;
        let ghost whole = pattern;
        let ghost t0 = types@;
        let ghost pok = pattern_ok(s0.symbols(), s0.regs().dom(), type_classes(types@), pattern);
        let ghost safe = pattern_jump_safe(pattern);
        let mut bytecode: Vec<Instruction> = Vec::new();
        let mut misses: Vec<usize> = Vec::new();
        proof {
            lemma_advanced_refl(&s0);
            lemma_code_ok_empty(start);
        }
        match pattern {
            SimplePattern::Literal(lit) => {
                if sources.len() == 0 {
                    return None;
                }
                let (lit_src, lit_type) = match lit {
                    Literal::Bool(b) => (Source::Bool(b), Type::Bool),
                    Literal::Int(i) => (Source::Int(i), Type::Int),
                    Literal::Real(d) => (Source::Float(d), Type::Real),
                };
                proof {
                    if pok {
                        assert(type_classes(t0)[0] == type_class(t0[0]));
                        lemma_same_class_coercible(t0[0], lit_type);
                    }
                }
                if !self.compare_first(&mut bytecode, &mut misses, sources, types, lit_src, &lit_type, None, Ghost(start), Ghost(avoid)) {
                    return None;
                }
                proof {
                    if pok {
                        assert(type_classes(types@) =~= type_classes(t0));
                    }
                }
                proof {
                    lemma_jumps_ok_empty();
                    lemma_miss_jump(bytecode@.drop_last(), bytecode@.last());
                    assert(bytecode@.drop_last().push(bytecode@.last()) =~= bytecode@);
                }
            },
            SimplePattern::Ident(Ident::Symbol(id)) => {
                let (ident_src, ident_type) = match self.ident_info(id) {
                    IdentInfo::Variable(t) => match self.lookup(id) {
                        Some(reg) => (Source::RegVar(reg), t),
                        None => return None,
                    },
                    IdentInfo::EntMember { mapping, .. } => (Source::Int(mapping as i64), Type::Int),
                    IdentInfo::Other => return None,
                };
                if sources.len() == 0 {
                    return None;
                }
                proof {
                    if pok {
                        assert(type_classes(t0)[0] == type_class(t0[0]));
                        lemma_same_class_coercible(t0[0], ident_type);
                    }
                }
                if !self.compare_first(&mut bytecode, &mut misses, sources, types, ident_src, &ident_type, None, Ghost(start), Ghost(avoid)) {
                    return None;
                }
                proof {
                    if pok {
                        assert(type_classes(types@) =~= type_classes(t0));
                    }
                }
                proof {
                    lemma_jumps_ok_empty();
                    lemma_miss_jump(bytecode@.drop_last(), bytecode@.last());
                    assert(bytecode@.drop_last().push(bytecode@.last()) =~= bytecode@);
                }
            },
            SimplePattern::Comparison(comparison) => {
                let ComparisonPattern { op, expr } = comparison;
                let (code, comp_src, comp_type) = match self.compile_expr(*expr) {
                    Some(res) => res,
                    None => return None,
                };
                let ghost s1 = *self;
                proof {
                    lemma_keeps_used_trans(start, s0.used(), s1.used());
                    lemma_code_ok_append(Seq::empty(), code@, start, s0.used());
                    assert(Seq::<Instruction>::empty() + code@ =~= code@);
                    lemma_sources_advanced(start, &s0, &s1, sources@, avoid);
                    if let Source::RegInter(y) = comp_src {
                        if start[y as int] {
                            assert(s0.used()[y as int]);
                        }
                    }
                }
                let mut code = code;
                let ghost code_s = code@;
                bytecode.append(&mut code);
                proof {
                    assert(bytecode@ =~= code_s);
                }
                if sources.len() == 0 {
                    return None;
                }
                proof {
                    if pok {
                        assert(type_classes(t0)[0] == type_class(t0[0]));
                        lemma_same_class_coercible(t0[0], comp_type);
                    }
                }
                if !self.compare_first(&mut bytecode, &mut misses, sources, types, comp_src, &comp_type, Some(op), Ghost(start), Ghost(avoid)) {
                    proof { lemma_advanced_trans(&s0, &s1, self); }
                    return None;
                }
                proof {
                    if pok {
                        assert(type_classes(types@) =~= type_classes(t0));
                    }
                    lemma_advanced_trans(&s0, &s1, self);
                    if safe {
                        lemma_miss_jump(bytecode@.drop_last(), bytecode@.last());
                        assert(bytecode@.drop_last().push(bytecode@.last()) =~= bytecode@);
                    }
                }
            },
            SimplePattern::Tuple(parts) => {
                let ghost parts0 = parts@;
                let n = if sources.len() < parts.len() { sources.len() } else { parts.len() };
                let mut rest = parts;
                let mut k: usize = 0;
                while k < n
                    invariant
                        n <= sources@.len(),
                        n <= parts0.len(),
                        k <= n,
                        whole == pattern,
                        whole matches SimplePattern::Tuple(v) && v@ == parts0,
                        rest@ == parts0.skip(k as int),
                        self.wf(),
                        s0 == *old(self),
                        s0.wf(),
                        s0.advanced(self),
                        self.errors() == s0.errors(),
                        start.len() == NUM_REGS,
                        keeps_used(start, s0.used()),
                        sources@.len() == old(sources)@.len(),
                        old(types)@.len() == old(sources)@.len(),
                        types@.len() == sources@.len(),
                        sources_ok(start, self, sources@, avoid),
                        avoid < NUM_REGS ==> self.used()[avoid as int],
                        code_ok(bytecode@, start),
                        forall|q: int| 0 <= q < misses@.len() ==> #[trigger] misses@[q] < bytecode@.len(),
                        increasing(misses@),
                        safe == pattern_jump_safe(whole),
                        safe ==> misses_land(bytecode@, misses@, 3),
                        t0 == old(types)@,
                        pok == pattern_ok(s0.symbols(), s0.regs().dom(), type_classes(t0), whole),
                        pok ==> type_classes(types@) == type_classes(t0),
                    decreases n - k,
                {
                    assert(rest@[0] == parts0[k as int]);
                    let part = rest.remove(0);
                    assert(rest@ =~= parts0.skip(k + 1));
                    proof {
                        let v = whole->Tuple_0;
                        assert(decreases_to!(whole => v));
                        assert(decreases_to!(v => v@));
                        assert(decreases_to!(v@ => v@[k as int]));
                        assert(decreases_to!(whole => part));
                    }
                    let mut one_src: Vec<Source> = Vec::new();
                    one_src.push(sources[k]);
                    let mut one_type: Vec<Type> = Vec::new();
                    one_type.push(types[k].duplicate());
                    let ghost s1 = *self;
                    proof {
                        assert(operand_ok(start, self, sources@[k as int]));
                        assert(sources_ok(start, self, one_src@, avoid));
                        lemma_keeps_used_trans(start, s0.used(), s1.used());
                    }
                    proof {
                        assert(one_type@ == seq![types@[k as int]]);
                        if pok {
                            assert(part == parts0[k as int]);
                            assert(type_classes(t0)[k as int] == type_classes(types@)[k as int]);
                            assert(type_classes(one_type@) =~= seq![type_classes(t0)[k as int]]);
                            assert(pattern_ok(s0.symbols(), s0.regs().dom(), seq![type_classes(t0)[k as int]], part));
                            lemma_advanced_dom(&s0, &s1);
                            lemma_pattern_ok_mono(s0.symbols(), s0.regs().dom(), s1.regs().dom(), type_classes(one_type@), part);
                        }
                    }
                    let ghost ot0 = one_type@;
                    let (sub_code, sub_misses) = match self.compile_pattern_comp(&mut one_src, &mut one_type, part, Ghost(start), Ghost(avoid)) {
                        Some(res) => res,
                        None => {
                            proof { lemma_advanced_trans(&s0, &s1, self); }
                            return None;
                        },
                    };
                    let ghost s2 = *self;
                    proof {
                        lemma_advanced_trans(&s0, &s1, &s2);
                        lemma_sources_advanced(start, &s1, &s2, sources@, avoid);
                        lemma_code_ok_drop_last(sub_code@, start);
                    }
                    let mut sub_code = sub_code;
                    let ghost sub_full = sub_code@;
                    sub_code.pop();
                    let ghost sub_s = sub_code@;
                    let sub_len = jump_distance(&sub_code, 0, sub_code.len());
                    let ghost b_old = bytecode@;
                    proof {
                        if safe {
                            assert(pattern_jump_safe(parts0[k as int]));
                        }
                    }
                    Self::shift_jumps(&mut bytecode, &misses, sub_len, Ghost(start));
                    let ghost b_shift = bytecode@;
                    proof {
                        if safe {
                            assert(sub_s.subrange(0, sub_s.len() as int) =~= sub_s);
                            lemma_shift_misses(b_old, b_shift, misses@, sub_len, 3);
                            lemma_misses_mod(b_shift, misses@, 3 + (sub_len as u16), 3 + code_size(sub_s) as int);
                        }
                    }
                    let base = bytecode.len();
                    proof {
                        lemma_code_ok_append(bytecode@, sub_code@, start, start);
                    }
                    bytecode.append(&mut sub_code);
                    let blen = bytecode.len();
                    let ghost m_old = misses@;
                    let mut q: usize = 0;
                    proof {
                        assert(misses@ =~= m_old + offset_indices(sub_misses@.take(0), base as int));
                    }
                    while q < sub_misses.len()
                        invariant
                            q <= sub_misses@.len(),
                            blen == bytecode@.len(),
                            forall|q2: int| 0 <= q2 < sub_misses@.len() ==> #[trigger] sub_misses@[q2] + base < bytecode@.len(),
                            forall|q2: int| 0 <= q2 < misses@.len() ==> #[trigger] misses@[q2] < bytecode@.len(),
                            misses@ == m_old + offset_indices(sub_misses@.take(q as int), base as int),
                        decreases sub_misses@.len() - q,
                    {
                        assert(sub_misses@[q as int] + base < bytecode@.len());
                        misses.push(sub_misses[q] + base);
                        proof {
                            assert(misses@ =~= m_old + offset_indices(sub_misses@.take(q + 1), base as int));
                        }
                        q = q + 1;
                    }
                    proof {
                        assert(sub_misses@.take(sub_misses@.len() as int) =~= sub_misses@);
                        assert forall|q2: int| 0 <= q2 < m_old.len() implies #[trigger] m_old[q2] < base by {}
                        lemma_increasing_concat(m_old, sub_misses@, base as int);
                        if safe {
                            assert(sub_full.drop_last() =~= sub_s);
                            assert(bytecode@ =~= b_shift + sub_s);
                            lemma_misses_concat(b_shift, m_old, sub_s, sub_misses@, 3);
                        }
                    }
                    let ghost prev = sources@;
                    sources.set(k, one_src[0]);
                    let ghost ty_prev = types@;
                    types.set(k, one_type[0].duplicate());
                    proof {
                        if pok {
                            assert(type_classes(one_type@)[0] == type_classes(ot0)[0]);
                            assert(type_classes(types@) =~= type_classes(ty_prev));
                        }
                    }
                    proof {
                        assert(operand_ok(start, self, one_src@[0]));
                        assert forall|m: int| 0 <= m < sources@.len() implies operand_ok(start, self, #[trigger] sources@[m])
                            && sources@[m] != Source::RegInter(avoid) by {
                            if m != k {
                                assert(sources@[m] == prev[m]);
                                assert(operand_ok(start, self, prev[m]));
                            }
                        }
                    }
                    k = k + 1;
                }
            },
            _ => {},
        }
        proof {
            lemma_code_ok_push(bytecode@, Instruction::JMP { offset: 0 }, start);
        }
        let ghost b_end = bytecode@;
        bytecode.push(Instruction::JMP { offset: 0 });
        proof {
            assert(bytecode@.drop_last() =~= b_end);
        }
        Some((bytecode, misses))
    }

    /// Adds `change` to the offsets of the jumps at `indices` (those within the code).
    fn shift_jumps(bytecode: &mut Vec<Instruction>, indices: &Vec<usize>, change: i16, Ghost(start): Ghost<Seq<bool>>)
        requires
            code_ok(old(bytecode)@, start),
            increasing(indices@),
        ensures
            code_ok(final(bytecode)@, start),
            final(bytecode)@.len() == old(bytecode)@.len(),
            shifted(old(bytecode)@, final(bytecode)@, indices@, change),
    {
        let ghost b0 = bytecode@;
        let mut q: usize = 0;
        proof {
            assert(shifted(b0, bytecode@, indices@.take(0), change)) by {
                assert forall|k: int| 0 <= k < b0.len() implies !listed(indices@.take(0), k) by {}
            }
        }
        while q < indices.len()
            invariant
                q <= indices@.len(),
                code_ok(bytecode@, start),
                bytecode@.len() == b0.len(),
                increasing(indices@),
                shifted(b0, bytecode@, indices@.take(q as int), change),
            decreases indices@.len() - q,
        {
            let idx = indices[q];
            let ghost b1 = bytecode@;
            proof {
                lemma_increasing_fresh(indices@, q as int);
                assert forall|k: int| 0 <= k < b0.len() implies listed(indices@.take(q + 1), k)
                    == (listed(indices@.take(q as int), k) || k == idx as int) by {
                    lemma_listed_take(indices@, q as int, k);
                }
            }
            if idx < bytecode.len() {
                let mut inst = bytecode[idx];
                update_jmp_offset(&mut inst, change);
                proof {
                    lemma_with_offset_ok(bytecode@[idx as int], crate::ir::jump_offset(bytecode@[idx as int]).wrapping_add(change));
                    lemma_code_ok_update(bytecode@, idx as int, inst, start);
                    assert(b1[idx as int] == b0[idx as int]);
                }
                bytecode.set(idx, inst);
            }
            q = q + 1;
        }
        proof {
            assert(indices@.take(indices@.len() as int) =~= indices@);
        }
    }

    /// Makes each `JMP` at `indices` (before `target`) jump to `target`:
    /// its offset becomes the size of the instructions in between. With
    /// `add`, the size is added to the offset instead, for any jump.
    fn jumps_to(bytecode: &mut Vec<Instruction>, indices: &Vec<usize>, target: usize, add: bool, Ghost(start): Ghost<Seq<bool>>)
        requires
            code_ok(old(bytecode)@, start),
            target <= old(bytecode)@.len(),
            increasing(indices@),
        ensures
            code_ok(final(bytecode)@, start),
            final(bytecode)@.len() == old(bytecode)@.len(),
            aimed(old(bytecode)@, final(bytecode)@, indices@, target as int, add),
    {
        let ghost b0 = bytecode@;
        let mut q: usize = 0;
        proof {
            assert(aimed(b0, bytecode@, indices@.take(0), target as int, add)) by {
                assert forall|k: int| 0 <= k < b0.len() implies !listed(indices@.take(0), k) by {}
            }
        }
        while q < indices.len()
            invariant
                q <= indices@.len(),
                code_ok(bytecode@, start),
                bytecode@.len() == b0.len(),
                target <= bytecode@.len(),
                increasing(indices@),
                aimed(b0, bytecode@, indices@.take(q as int), target as int, add),
            decreases indices@.len() - q,
        {
            let idx = indices[q];
            let ghost b1 = bytecode@;
            proof {
                lemma_increasing_fresh(indices@, q as int);
                assert forall|k: int| 0 <= k < b0.len() implies listed(indices@.take(q + 1), k)
                    == (listed(indices@.take(q as int), k) || k == idx as int) by {
                    lemma_listed_take(indices@, q as int, k);
                }
            }
            if idx < target {
                let new_offset = jump_distance(bytecode, idx + 1, target);
                proof {
                    lemma_same_sizes_dist(b0, b1, idx + 1, target as int);
                    assert(b1[idx as int] == b0[idx as int]);
                }
                if add {
                    let mut inst = bytecode[idx];
                    update_jmp_offset(&mut inst, new_offset);
                    proof {
                        lemma_with_offset_ok(bytecode@[idx as int], crate::ir::jump_offset(bytecode@[idx as int]).wrapping_add(new_offset));
                        lemma_code_ok_update(bytecode@, idx as int, inst, start);
                        let o = crate::ir::jump_offset(b0[idx as int]);
                        lemma_offset_add(o, new_offset);
                        lemma_offset_bits_add(o as u16, new_offset as u16, (o as u16) as int, dist(b0, idx + 1, target as int) as int);
                    }
                    bytecode.set(idx, inst);
                } else if let Instruction::JMP { .. } = bytecode[idx] {
                    proof {
                        lemma_code_ok_update(bytecode@, idx as int, Instruction::JMP { offset: new_offset }, start);
                    }
                    bytecode.set(idx, Instruction::JMP { offset: new_offset });
                }
            }
            q = q + 1;
        }
        proof {
            assert(indices@.take(indices@.len() as int) =~= indices@);
        }
    }

    /// `cases scrutinee { patterns => e, ... }`: compiles the scrutinee (each
    /// part of a tuple), then for each arm the tests of its patterns, jumping
    /// into the arm where one matches and past it where none does; each arm
    /// computes its value into the result register and jumps to the end.
    #[verifier::rlimit(60)]
    fn compile_cases(&mut self, cases: CasesExpr) -> (r: Option<(Vec<Instruction>, Source, Type)>)
        requires
            old(self).wf(),
        ensures
            final(self).wf(),
            old(self).advanced(final(self)),
            final(self).errors() != old(self).errors() ==> r is None,
            r matches Some((code, src, ty)) ==> old(self).valid_result(final(self), code@, src)
                && ty == cases.expr_type && src is RegInter,
            r matches Some((code, src, ty)) ==> (jump_safe(Expr::Cases(cases)) ==> jumps_ok(code@)),
            cases.arms.len() > 0 ==> (r matches Some((code, src, ty)) ==> ends_in_move(code@, src->RegInter_0)),
            jump_safe(Expr::Cases(cases)) ==> (r matches Some((code, src, ty)) ==> exists|exits: Seq<usize>|
                exits.len() + 1 == cases.arms.len() && #[trigger] exits_land(code@, src->RegInter_0, exits)),
            final(self).errors() == old(self).errors()
                && expr_ok(old(self).symbols(), old(self).regs().dom(), Expr::Cases(cases)) ==> r is Some,
        decreases cases,
    {
        let ghost s0 = *self;
        let ghost whole = cases;
        let ghost cok = expr_ok(s0.symbols(), s0.regs().dom(), Expr::Cases(cases));
        let ghost cls0 = scrutinee_classes(s0.symbols(), *cases.scrutinee);
        let ghost safe = jump_safe(Expr::Cases(cases));
        let ghost start = s0.used();
        proof {
            lemma_advanced_refl(&s0);
            lemma_code_ok_empty(start);
        }
        let CasesExpr { scrutinee, arms, expr_type, .. } = cases;
        let mut bytecode: Vec<Instruction> = Vec::new();
        proof {
            lemma_jumps_ok_empty();
        }
        let mut sources: Vec<Source> = Vec::new();
        let mut types: Vec<Type> = Vec::new();
        match *scrutinee {
            Expr::Tuple(elems) => {
                let ghost elems0 = elems@;
                let n = elems.len();
                let mut rest = elems;
                let mut k: usize = 0;
                while k < n
                    invariant
                        n == elems0.len(),
                        k <= n,
                        whole == cases,
                        *whole.scrutinee matches Expr::Tuple(v) && v@ == elems0,
                        rest@ == elems0.skip(k as int),
                        self.wf(),
                        s0 == *old(self),
                        s0.wf(),
                        start == s0.used(),
                        s0.advanced(self),
                        self.errors() == s0.errors(),
                        code_ok(bytecode@, start),
                        types@.len() == sources@.len(),
                        forall|q: int| 0 <= q < sources@.len() ==> operand_ok(start, self, #[trigger] sources@[q]),
                        safe == jump_safe(Expr::Cases(whole)),
                        safe ==> jumps_ok(bytecode@),
                        cok == expr_ok(s0.symbols(), s0.regs().dom(), Expr::Cases(whole)),
                        types@.len() == k,
                        forall|q: int| 0 <= q < k ==> #[trigger] types@[q] == result_type(s0.symbols(), elems0[q]),
                    decreases n - k,
                {
                    assert(rest@[0] == elems0[k as int]);
                    let e = rest.remove(0);
                    assert(rest@ =~= elems0.skip(k + 1));
                    proof {
                        let b = whole.scrutinee;
                        let v = (*b)->Tuple_0;
                        assert(decreases_to!(whole => b));
                        assert(decreases_to!(b => v));
                        assert(decreases_to!(v => v@));
                        assert(decreases_to!(v@ => v@[k as int]));
                        assert(decreases_to!(whole => e));
                    }
                    let ghost s1 = *self;
                    proof {
                        if cok {
                            assert(e == elems0[k as int]);
                            assert(expr_ok(s0.symbols(), s0.regs().dom(), e));
                            lemma_advanced_ok(&s0, &s1, e);
                        }
                    }
                    let (code, src, t) = match self.compile_expr(e) {
                        Some(res) => res,
                        None => {
                            proof { lemma_advanced_trans(&s0, &s1, self); }
                            return None;
                        },
                    };
                    proof {
                        lemma_advanced_trans(&s0, &s1, self);
                        lemma_code_ok_append(bytecode@, code@, start, s1.used());
                        assert forall|q: int| 0 <= q < sources@.len() implies operand_ok(start, self, #[trigger] sources@[q]) by {
                            lemma_operand_advanced(start, &s1, self, sources@[q]);
                        }
                        if let Source::RegInter(y) = src {
                            if start[y as int] {
                                assert(s1.used()[y as int]);
                            }
                        }
                        assert(operand_ok(start, self, src));
                    }
                    let mut code = code;
                    let ghost code_s = code@;
                    let ghost b_pre = bytecode@;
                    bytecode.append(&mut code);
                    proof {
                        if safe {
                            assert(jump_safe(elems0[k as int]));
                            lemma_jumps_ok_append(b_pre, code_s);
                        }
                    }
                    let ghost prev = sources@;
                    sources.push(src);
                    types.push(t);
                    proof {
                        assert forall|q: int| 0 <= q < sources@.len() implies operand_ok(start, self, #[trigger] sources@[q]) by {
                            if q < prev.len() {
                                assert(sources@[q] == prev[q]);
                            }
                        }
                    }
                    k = k + 1;
                }
            },
            other => {
                proof {
                    let b = whole.scrutinee;
                    assert(decreases_to!(whole => b));
                    assert(decreases_to!(whole => other));
                }
                let (code, src, t) = match self.compile_expr(other) {
                    Some(res) => res,
                    None => return None,
                };
                proof {
                    lemma_code_ok_append(bytecode@, code@, start, start);
                }
                let mut code = code;
                let ghost code_s = code@;
                bytecode.append(&mut code);
                proof {
                    if safe {
                        assert(bytecode@ =~= code_s);
                    }
                }
                sources.push(src);
                types.push(t);
                proof {
                    assert(operand_ok(start, self, sources@[0]));
                }
            },
        }
        let ghost s2 = *self;
        proof {
            lemma_first_free_from(s2.used(), 0);
            if cok {
                match *whole.scrutinee {
                    Expr::Tuple(v) => {
                        assert(type_classes(types@) =~= cls0);
                    },
                    _ => {
                        assert(type_classes(types@) =~= cls0);
                    },
                }
            }
        }
        let dest = match self.get_next_reg() {
            Some(d) => d,
            None => {
                proof {
                    lemma_took_dest_advanced(&s2, self, Source::Int(0));
                    lemma_advanced_trans(&s0, &s2, self);
                }
                return None;
            },
        };
        proof {
            lemma_took_dest_advanced(&s2, self, Source::Int(0));
            lemma_advanced_trans(&s0, &s2, self);
            lemma_free_unbound(&s2, dest);
            if start[dest as int] {
                assert(s2.used()[dest as int]);
            }
            assert(self.regs() == s2.regs());
            assert forall|q: int| 0 <= q < sources@.len() implies operand_ok(start, self, #[trigger] sources@[q])
                && sources@[q] != Source::RegInter(dest) by {
                lemma_operand_advanced(start, &s2, self, sources@[q]);
            }
        }
        let ghost arms0 = arms@;
        let n = arms.len();
        let mut arm_rest = arms;
        let mut exit_jmp_indices: Vec<usize> = Vec::new();
        let mut last_cond_jmp_indices: Vec<usize> = Vec::new();
        let mut i: usize = 0;
        while i < n
            invariant
                n == arms0.len(),
                i <= n,
                whole == cases,
                arms0 == whole.arms@,
                arm_rest@ == arms0.skip(i as int),
                self.wf(),
                s0 == *old(self),
                s0.wf(),
                start == s0.used(),
                s0.advanced(self),
                self.errors() == s0.errors(),
                code_ok(bytecode@, start),
                types@.len() == sources@.len(),
                sources_ok(start, self, sources@, dest),
                dest < NUM_REGS,
                !start[dest as int],
                self.used()[dest as int],
                self.unbound(dest),
                increasing(exit_jmp_indices@),
                forall|q: int| 0 <= q < exit_jmp_indices@.len() ==> #[trigger] exit_jmp_indices@[q] < bytecode@.len(),
                exit_jmp_indices@.len() == i,
                i > 0 ==> exit_jmp_indices@.last() == bytecode@.len() - 1,
                forall|q: int| 0 <= q < exit_jmp_indices@.len() ==> 1 <= #[trigger] exit_jmp_indices@[q]
                    && moves_to(bytecode@[exit_jmp_indices@[q] - 1], dest),
                increasing(last_cond_jmp_indices@),
                safe == jump_safe(Expr::Cases(whole)),
                safe ==> forall|q: int| 0 <= q < n ==> cases_arm_jump_safe(#[trigger] arms0[q]),
                safe && i == 0 ==> jumps_ok(bytecode@),
                safe && i > 0 ==> ends_open(bytecode@, last_cond_jmp_indices@)
                    && exit_jmp_indices@.len() > 0
                    && exit_jmp_indices@.last() == bytecode@.len() - 1,
                safe ==> forall|q: int| 0 <= q < exit_jmp_indices@.len()
                    ==> bytecode@[#[trigger] exit_jmp_indices@[q] as int] == (Instruction::JMP { offset: 0 }),
                cok == expr_ok(s0.symbols(), s0.regs().dom(), Expr::Cases(whole)),
                cls0 == scrutinee_classes(s0.symbols(), *whole.scrutinee),
                cok ==> type_classes(types@) == cls0,
            decreases n - i,
        {
            assert(arm_rest@[0] == arms0[i as int]);
            let arm = arm_rest.remove(0);
            assert(arm_rest@ =~= arms0.skip(i + 1));
            let CasesArm { pattern, expr, .. } = arm;
            let ghost pats0 = pattern@;
            proof {
                if cok {
                    assert(cases_arm_ok(s0.symbols(), s0.regs().dom(), cls0, arms0[i as int]));
                }
            }
            let ghost arm_base = bytecode@.len();
            let ghost b_arm = bytecode@;
            proof {
                if safe {
                    assert(cases_arm_jump_safe(arms0[i as int]));
                    if i > 0 {
                        lemma_ends_open_ok(bytecode@, last_cond_jmp_indices@);
                    }
                }
            }
            let np = pattern.len();
            let mut pat_rest = pattern;
            let mut enter_jmp_indices: Vec<usize> = Vec::new();
            let mut p: usize = 0;
            while p < np
                invariant
                    np == pats0.len(),
                    p <= np,
                    whole == cases,
                    arms0 == whole.arms@,
                    i < arms0.len(),
                    pats0 == arms0[i as int].pattern@,
                    pat_rest@ == pats0.skip(p as int),
                    self.wf(),
                    s0 == *old(self),
                    s0.wf(),
                    start == s0.used(),
                    s0.advanced(self),
                    self.errors() == s0.errors(),
                    code_ok(bytecode@, start),
                    types@.len() == sources@.len(),
                    sources_ok(start, self, sources@, dest),
                    dest < NUM_REGS,
                    !start[dest as int],
                    self.used()[dest as int],
                    self.unbound(dest),
                    arm_base <= bytecode@.len(),
                    bytecode@.subrange(0, arm_base as int) == b_arm,
                    increasing(enter_jmp_indices@),
                    forall|q: int| 0 <= q < enter_jmp_indices@.len() ==> arm_base <= #[trigger] enter_jmp_indices@[q] < bytecode@.len(),
                    p > 0 ==> enter_jmp_indices@.len() > 0 && enter_jmp_indices@.last() == bytecode@.len() - 1,
                    increasing(last_cond_jmp_indices@),
                    safe ==> forall|q: int| 0 <= q < np ==> pattern_jump_safe(#[trigger] pats0[q]),
                    safe && p == 0 ==> jumps_ok(bytecode@),
                    safe && p > 0 ==> ends_open(bytecode@, last_cond_jmp_indices@),
                    cok == expr_ok(s0.symbols(), s0.regs().dom(), Expr::Cases(whole)),
                    cls0 == scrutinee_classes(s0.symbols(), *whole.scrutinee),
                    cok ==> type_classes(types@) == cls0,
                    cok ==> cases_arm_ok(s0.symbols(), s0.regs().dom(), cls0, arms0[i as int]),
                decreases np - p,
            {
                assert(pat_rest@[0] == pats0[p as int]);
                let pat = pat_rest.remove(0);
                assert(pat_rest@ =~= pats0.skip(p + 1));
                proof {
                    let v = whole.arms;
                    let w = v@[i as int].pattern;
                    assert(decreases_to!(whole => v));
                    assert(decreases_to!(v => v@));
                    assert(decreases_to!(v@ => v@[i as int]));
                    assert(decreases_to!(v@[i as int] => w));
                    assert(decreases_to!(w => w@));
                    assert(decreases_to!(w@ => w@[p as int]));
                    assert(decreases_to!(whole => pat));
                    if safe {
                        assert(pattern_jump_safe(pats0[p as int]));
                        if p > 0 {
                            lemma_ends_open_ok(bytecode@, last_cond_jmp_indices@);
                        }
                    }
                }
                let ghost s3 = *self;
                proof {
                    lemma_keeps_used_trans(start, start, s3.used());
                    if cok {
                        assert(pat == pats0[p as int]);
                        assert(pattern_ok(s0.symbols(), s0.regs().dom(), cls0, pat));
                        lemma_advanced_dom(&s0, &s3);
                        lemma_pattern_ok_mono(s0.symbols(), s0.regs().dom(), s3.regs().dom(), cls0, pat);
                    }
                }
                let (sub_code, cond_jmp_indices) = match self.compile_pattern_comp(&mut sources, &mut types, pat, Ghost(start), Ghost(dest)) {
                    Some(res) => res,
                    None => {
                        proof { lemma_advanced_trans(&s0, &s3, self); }
                        return None;
                    },
                };
                proof {
                    lemma_advanced_trans(&s0, &s3, self);
                    lemma_advanced_unbound(&s3, self, dest);
                    lemma_code_ok_append(bytecode@, sub_code@, start, start);
                }
                let base = bytecode.len();
                let ghost b_pre = bytecode@;
                let ghost sub_s = sub_code@;
                let mut sub_code = sub_code;
                bytecode.append(&mut sub_code);
                let blen = bytecode.len();
                let mut moved: Vec<usize> = Vec::new();
                let mut q: usize = 0;
                proof {
                    assert(moved@ =~= offset_indices(cond_jmp_indices@.take(0), base as int));
                }
                while q < cond_jmp_indices.len()
                    invariant
                        q <= cond_jmp_indices@.len(),
                        blen == bytecode@.len(),
                        forall|q2: int| 0 <= q2 < cond_jmp_indices@.len() ==> #[trigger] cond_jmp_indices@[q2] + base < blen,
                        moved@ == offset_indices(cond_jmp_indices@.take(q as int), base as int),
                    decreases cond_jmp_indices@.len() - q,
                {
                    assert(cond_jmp_indices@[q as int] + base < blen);
                    moved.push(cond_jmp_indices[q] + base);
                    proof {
                        assert(moved@ =~= offset_indices(cond_jmp_indices@.take(q + 1), base as int));
                    }
                    q = q + 1;
                }
                proof {
                    assert(cond_jmp_indices@.take(cond_jmp_indices@.len() as int) =~= cond_jmp_indices@);
                    lemma_increasing_concat(Seq::empty(), cond_jmp_indices@, base as int);
                    assert(Seq::<usize>::empty() + offset_indices(cond_jmp_indices@, base as int) =~= moved@);
                    assert(bytecode@ =~= b_pre + sub_s);
                    assert(bytecode@.subrange(0, arm_base as int) =~= b_pre.subrange(0, arm_base as int));
                    if safe {
                        let sd = sub_s.drop_last();
                        lemma_jumps_ok_misses(b_pre, 3 + code_size(sd) as int);
                        lemma_misses_concat(b_pre, Seq::empty(), sd, cond_jmp_indices@, 3);
                        assert(bytecode@.drop_last() =~= b_pre + sd);
                    }
                }
                last_cond_jmp_indices = moved;
                enter_jmp_indices.push(bytecode.len() - 1);
                p = p + 1;
            }
            let ghost b_pats = bytecode@;
            if bytecode.len() > 0 {
                proof {
                    lemma_code_ok_drop_last(bytecode@, start);
                }
            }
            let ghost e_pats = enter_jmp_indices@;
            bytecode.pop();
            enter_jmp_indices.pop();
            let target = bytecode.len();
            let ghost b_popped = bytecode@;
            proof {
                if safe {
                    assert(cases_arm_jump_safe(arms0[i as int]));
                    assert(np > 0);
                    assert(b_popped == b_pats.drop_last());
                }
                assert(increasing(enter_jmp_indices@)) by {
                    assert forall|a: int, b: int| 0 <= a < b < enter_jmp_indices@.len()
                        implies enter_jmp_indices@[a] < enter_jmp_indices@[b] by {
                        assert(enter_jmp_indices@[a] == e_pats[a]);
                        assert(enter_jmp_indices@[b] == e_pats[b]);
                    }
                }
            }
            Self::jumps_to(&mut bytecode, &enter_jmp_indices, target, false, Ghost(start));
            let ghost b_aimed = bytecode@;
            proof {
                if safe {
                    lemma_aim_keeps(b_popped, b_aimed, enter_jmp_indices@, last_cond_jmp_indices@, 3);
                    assert forall|q: int| 0 <= q < exit_jmp_indices@.len()
                        implies b_aimed[#[trigger] exit_jmp_indices@[q] as int] == (Instruction::JMP { offset: 0 }) by {
                        let e = exit_jmp_indices@[q] as int;
                        assert(b_arm[e] == b_pats[e]);
                        if listed(enter_jmp_indices@, e) {
                            let j = choose|j: int| 0 <= j < enter_jmp_indices@.len() && enter_jmp_indices@[j] as int == e;
                            assert(arm_base <= enter_jmp_indices@[j]);
                        }
                    }
                }
            }
            proof {
                let v = whole.arms;
                assert(decreases_to!(whole => v));
                assert(decreases_to!(v => v@));
                assert(decreases_to!(v@ => v@[i as int]));
                assert(decreases_to!(v@[i as int] => v@[i as int].expr));
                assert(decreases_to!(whole => expr));
            }
            let ghost s4 = *self;
            proof {
                if cok {
                    assert(expr == arms0[i as int].expr);
                    assert(expr_ok(s0.symbols(), s0.regs().dom(), expr));
                    lemma_advanced_ok(&s0, &s4, expr);
                }
            }
            let (code, src, _sub_type) = match self.compile_expr(expr) {
                Some(res) => res,
                None => {
                    proof { lemma_advanced_trans(&s0, &s4, self); }
                    return None;
                },
            };
            let ghost s5 = *self;
            proof {
                lemma_advanced_trans(&s0, &s4, &s5);
                lemma_advanced_unbound(&s4, &s5, dest);
                lemma_sources_advanced(start, &s4, &s5, sources@, dest);
            }
            let mut code = code;
            let ghost arm_code = code@;
            if let Source::RegInter(src_reg) = src {
                proof {
                    if start[src_reg as int] {
                        assert(s4.used()[src_reg as int]);
                    }
                }
                self.set_used(src_reg, false);
                proof {
                    lemma_free_advanced(&s0, &s5, self, src_reg);
                    assert(self.regs() == s5.regs());
                    assert forall|q: int| 0 <= q < sources@.len() implies operand_ok(start, self, #[trigger] sources@[q])
                        && sources@[q] != Source::RegInter(dest) by {
                        assert(operand_ok(start, &s5, sources@[q]));
                        if let Source::RegInter(y) = sources@[q] {
                            assert(s4.used()[y as int]) by {
                                assert(operand_ok(start, &s4, sources@[q]));
                            }
                        }
                        if let Source::RegVar(x) = sources@[q] {
                            assert(s4.used()[x as int]) by {
                                assert(operand_ok(start, &s4, sources@[q]));
                            }
                        }
                    }
                }
            }
            proof {
                lemma_code_ok_append(Seq::empty(), code@, start, s4.used());
                assert(Seq::<Instruction>::empty() + code@ =~= code@);
                lemma_code_ok_push(code@, Instruction::MOV { dest, src }, start);
                lemma_code_ok_push(code@.push(Instruction::MOV { dest, src }), Instruction::JMP { offset: 0 }, start);
            }
            code.push(Instruction::MOV { dest, src });
            let ghost body_s = code@;
            code.push(Instruction::JMP { offset: 0 });
            let full_len = jump_distance(&code, 0, code.len());
            let added_length = full_len.wrapping_add(-3);
            Self::shift_jumps(&mut bytecode, &last_cond_jmp_indices, added_length, Ghost(start));
            let ghost b_shift = bytecode@;
            proof {
                lemma_code_ok_append(bytecode@, code@, start, start);
                if safe {
                    assert(jump_safe(arms0[i as int].expr));
                    assert(jumps_ok(arm_code));
                    lemma_jumps_ok_push(arm_code, Instruction::MOV { dest, src });
                    assert(code@.subrange(0, code@.len() as int) =~= code@);
                    assert(code@ == body_s.push(Instruction::JMP { offset: 0 }));
                    lemma_size_one(Instruction::JMP { offset: 0 });
                    lemma_code_size_append(body_s, seq![Instruction::JMP { offset: 0 }]);
                    assert(body_s + seq![Instruction::JMP { offset: 0 }] =~= code@);
                    lemma_offset_minus_three(full_len, code_size(code@) as int);
                    lemma_shift_misses(b_aimed, b_shift, last_cond_jmp_indices@, added_length, 3);
                    assert((3 + (added_length as u16) as int) % 65536 == (3 + code_size(body_s) as int) % 65536) by {
                        vstd::arithmetic::div_mod::lemma_add_mod_noop(3, code_size(code@) - 3, 65536);
                    }
                    lemma_misses_mod(b_shift, last_cond_jmp_indices@, 3 + (added_length as u16), 3 + code_size(body_s) as int);
                    lemma_jumps_ok_misses(body_s, 3);
                    assert forall|q: int| 0 <= q < exit_jmp_indices@.len()
                        implies b_shift[#[trigger] exit_jmp_indices@[q] as int] == (Instruction::JMP { offset: 0 }) by {
                        let e = exit_jmp_indices@[q] as int;
                        if listed(last_cond_jmp_indices@, e) {
                            let j = choose|j: int| 0 <= j < last_cond_jmp_indices@.len() && last_cond_jmp_indices@[j] as int == e;
                            assert(!(b_aimed[last_cond_jmp_indices@[j] as int] is JMP));
                        }
                    }
                }
            }
            bytecode.append(&mut code);
            let end_len = bytecode.len();
            let ghost b_end = bytecode@;
            proof {
                assert(b_end =~= b_shift + body_s.push(Instruction::JMP { offset: 0 }));
                if safe {
                    assert(b_end.drop_last() =~= b_shift + body_s);
                    assert(b_shift.len() + body_s.len() <= usize::MAX);
                    lemma_misses_concat(b_shift, last_cond_jmp_indices@, body_s, Seq::empty(), 3);
                    assert(last_cond_jmp_indices@ + offset_indices(Seq::<usize>::empty(), b_shift.len() as int) =~= last_cond_jmp_indices@);
                    assert forall|q: int| 0 <= q < exit_jmp_indices@.len()
                        implies b_end[#[trigger] exit_jmp_indices@[q] as int] == (Instruction::JMP { offset: 0 }) by {
                        assert(b_end[exit_jmp_indices@[q] as int] == b_shift[exit_jmp_indices@[q] as int]);
                    }
                }
            }
            proof {
                assert forall|q: int| 0 <= q < exit_jmp_indices@.len() implies moves_to(b_end[#[trigger] exit_jmp_indices@[q] - 1], dest) by {
                    let k = exit_jmp_indices@[q] - 1;
                    assert(k < arm_base);
                    assert(b_pats[k] == b_arm[k]) by {
                        assert(b_pats.subrange(0, arm_base as int)[k] == b_arm[k]);
                    }
                    assert(b_popped[k] == b_pats[k]);
                    assert(!is_jump(b_popped[k]));
                    assert(b_aimed[k] == b_popped[k]);
                    assert(b_shift[k] == b_aimed[k]);
                    assert(b_end[k] == b_shift[k]);
                }
                assert(b_end[end_len - 2] == (Instruction::MOV { dest, src }));
            }
            exit_jmp_indices.push(end_len - 1);
            i = i + 1;
        }
        let ghost b_arms = bytecode@;
        let ghost b_arms_exits = exit_jmp_indices@;
        if bytecode.len() > 0 {
            proof {
                lemma_code_ok_drop_last(bytecode@, start);
            }
        }
        bytecode.pop();
        exit_jmp_indices.pop();
        let ghost b_closed = bytecode@;
        Self::shift_jumps(&mut bytecode, &last_cond_jmp_indices, -3, Ghost(start));
        let ghost b_shift = bytecode@;
        proof {
            if safe {
                assert(n > 0);
                assert(b_closed == b_arms.drop_last());
                lemma_shift_misses(b_closed, b_shift, last_cond_jmp_indices@, -3i16, 3);
                assert(((-3i16) as u16) == 65533u16) by (bit_vector);
                lemma_misses_at_end(b_shift, last_cond_jmp_indices@, 3 + ((-3i16) as u16));
                assert forall|q: int| 0 <= q < exit_jmp_indices@.len() && exit_jmp_indices@[q] < b_shift.len()
                    implies b_shift[#[trigger] exit_jmp_indices@[q] as int] == (Instruction::JMP { offset: 0 }) by {
                    let e = exit_jmp_indices@[q] as int;
                    assert(b_arms[e] == (Instruction::JMP { offset: 0 }));
                    assert(b_closed[e] == b_arms[e]);
                    if listed(last_cond_jmp_indices@, e) {
                        let j = choose|j: int| 0 <= j < last_cond_jmp_indices@.len() && last_cond_jmp_indices@[j] as int == e;
                        assert(!(b_closed[last_cond_jmp_indices@[j] as int] is JMP));
                    }
                }
            }
        }
        let target = bytecode.len();
        Self::jumps_to(&mut bytecode, &exit_jmp_indices, target, true, Ghost(start));
        proof {
            if safe {
                lemma_aim_exits(b_shift, bytecode@, exit_jmp_indices@);
                let code = bytecode@;
                let ex = exit_jmp_indices@;
                let ex_all = b_arms_exits;
                assert(ex == ex_all.drop_last());
                assert forall|q: int| 0 <= q < ex.len() implies {
                    &&& 1 <= #[trigger] ex[q] < code.len()
                    &&& code[ex[q] as int] is JMP
                    &&& moves_to(code[ex[q] - 1], dest)
                    &&& lands(code, ex[q] as int, code.len() as int)
                } by {
                    let e = ex[q] as int;
                    assert(ex[q] == ex_all[q]);
                    assert(ex_all[q] < ex_all[ex_all.len() - 1]);
                    assert(e < b_closed.len());
                    assert(b_shift[e] == (Instruction::JMP { offset: 0 }));
                    assert(listed(ex, e));
                    let k = e - 1;
                    assert(moves_to(b_arms[k], dest));
                    assert(b_closed[k] == b_arms[k]);
                    assert(moves_to(b_shift[k], dest));
                    assert(!is_jump(b_shift[k]));
                    assert(code[k] == b_shift[k]);
                    lemma_same_sizes_dist(b_shift, code, e + 1, target as int);
                }
                assert(exits_land(code, dest, ex));
            }
        }
        // release the registers of the scrutinee values
        let ns = sources.len();
        let mut q: usize = 0;
        while q < ns
            invariant
                ns == sources@.len(),
                q <= ns,
                self.wf(),
                s0 == *old(self),
                s0.wf(),
                start == s0.used(),
                s0.advanced(self),
                self.errors() == s0.errors(),
                dest < NUM_REGS,
                !start[dest as int],
                self.used()[dest as int],
                self.unbound(dest),
                forall|k: int| 0 <= k < ns ==> (#[trigger] sources@[k] matches Source::RegInter(y) ==> {
                    &&& y < NUM_REGS
                    &&& !start[y as int]
                    &&& self.unbound(y)
                    &&& y != dest
                }),
            decreases ns - q,
        {
            if let Source::RegInter(reg) = sources[q] {
                let ghost s6 = *self;
                self.set_used(reg, false);
                proof {
                    lemma_free_advanced(&s0, &s6, self, reg);
                    assert(self.regs() == s6.regs());
                }
            }
            q = q + 1;
        }
        Some((bytecode, Source::RegInter(dest), expr_type))
    }

    /// The test of one `cases` pattern against scrutinee values held in
    /// `sources` (of types `types`), as `cases` compiles it: the jumps taken
    /// where the pattern does not match (their indices are returned), ending
    /// in a `JMP` taken where it matches. Scrutinee values may be converted
    /// in place to the type they are compared at; the code writes only
    /// registers that were free or hold a scrutinee value.
    pub fn compile_pattern(&mut self, sources: &mut Vec<Source>, types: &mut Vec<Type>, pattern: SimplePattern) -> (r: Option<(Vec<Instruction>, Vec<usize>)>)
        requires
            old(self).wf(),
            old(types)@.len() == old(sources)@.len(),
            forall|k: int| 0 <= k < old(sources)@.len() ==> {
                &&& source_ok(#[trigger] old(sources)@[k])
                &&& old(sources)@[k] matches Source::RegVar(x) ==> old(self).used()[x as int]
                &&& old(sources)@[k] matches Source::RegInter(y) ==> old(self).used()[y as int] && old(self).unbound(y)
            },
        ensures
            final(self).wf(),
            old(self).advanced(final(self)),
            final(self).errors() != old(self).errors() ==> r is None,
            final(sources)@.len() == old(sources)@.len(),
            final(types)@.len() == old(types)@.len(),
            r matches Some((code, misses)) ==> {
                &&& code_ok(code@, scrutinee_start(old(self).used(), old(sources)@))
                &&& code@.len() > 0
                &&& code@.last() == Instruction::JMP { offset: 0 }
                &&& forall|k: int| 0 <= k < misses@.len() ==> #[trigger] misses@[k] + 1 < code@.len()
                &&& increasing(misses@)
                &&& pattern_jump_safe(pattern) ==> ends_open(code@, misses@)
            },
            final(self).errors() == old(self).errors()
                && pattern_ok(old(self).symbols(), old(self).regs().dom(), type_classes(old(types)@), pattern) ==> r is Some,
            r is Some && pattern_ok(old(self).symbols(), old(self).regs().dom(), type_classes(old(types)@), pattern)
                ==> type_classes(final(types)@) == type_classes(old(types)@),
            pattern is Default ==> (r matches Some((code, misses)) && code@ == seq![Instruction::JMP { offset: 0 }]
                && misses@.len() == 0),
            pattern is Literal ==> (r matches Some((code, misses)) ==> code@.len() >= 2
                && misses@ == seq![(code@.len() - 2) as usize]
                && compared_miss(code@[code@.len() - 2], final(sources)@[0], literal_source(pattern->Literal_0),
                    literal_type(pattern->Literal_0), equal_type(old(types)@[0], literal_type(pattern->Literal_0)))),
            pattern matches SimplePattern::Ident(Ident::Symbol(id)) ==> (r matches Some((code, misses)) ==> code@.len() >= 2
                && misses@ == seq![(code@.len() - 2) as usize]
                && compared_miss(code@[code@.len() - 2], final(sources)@[0],
                    ident_pattern_source(old(self).symbols(), old(self).regs(), id), ident_pattern_type(old(self).symbols(), id),
                    equal_type(old(types)@[0], ident_pattern_type(old(self).symbols(), id)))),
    {
        let ghost start = scrutinee_start(self.used(), sources@);
        proof {
            assert(keeps_used(start, self.used()));
            assert forall|k: int| 0 <= k < sources@.len() implies operand_ok(start, self, #[trigger] sources@[k])
                && sources@[k] != Source::RegInter(NUM_REGS) by {
                if let Source::RegInter(y) = sources@[k] {
                    assert(is_scrutinee_reg(sources@, y as int));
                }
            }
        }
        self.compile_pattern_comp(sources, types, pattern, Ghost(start), Ghost(NUM_REGS))
    }
}

} // verus!
