//! The code generator: simplifies the body of each relation, then compiles it to bytecode.

use vstd::prelude::*;
use crate::alg_trans::{
    SExpr, Value, algebraic_transform, env_respects, eval, expr_view, lemma_transform_keeps_value,
    lemma_unmodified_is_identity, transform,
};
use crate::ast::{Expr, Ident, RelType};
use crate::compiled_rel::CompiledRel;
use crate::compiler::{compiled_ok, only_register_errors};
use crate::diagnostics::Diagnostics;
use crate::rel_compiler::{RelCompiler, rel_compiles};
use crate::types::Symbol;

verus! {

/// How many simplification passes are made at most; the rules can swap
/// the operands of `1 + 2` back and forth forever.
pub const MAX_PASSES: usize = 64;

/// `passes` rounds of simplification, stopping early at the first round
/// that changes nothing.
pub open spec fn optimize_spec(s: SExpr, passes: nat) -> SExpr
    decreases passes,
{
    if passes == 0 {
        s
    } else {
        let (t, modified) = transform(s);
        if !modified {
            t
        } else {
            optimize_spec(t, (passes - 1) as nat)
        }
    }
}

/// Repeated simplification keeps the value of an expression.
pub proof fn lemma_optimize_keeps_value(s: SExpr, passes: nat, env: spec_fn(Ident) -> Option<Value>)
    requires
        env_respects(env),
        eval(s, env) is Some,
    ensures
        eval(optimize_spec(s, passes), env) == eval(s, env),
    decreases passes,
{
    if passes > 0 {
        lemma_transform_keeps_value(s, env);
        let (t, modified) = transform(s);
        if modified {
            lemma_optimize_keeps_value(t, (passes - 1) as nat, env);
        }
    }
}

/// Where the rounds stop before the limit, the result is a fixed point of
/// simplification: one more round gives it back unchanged.
pub open spec fn stops_early(s: SExpr, passes: nat) -> bool
    decreases passes,
{
    if passes == 0 {
        false
    } else {
        let (t, modified) = transform(s);
        !modified || stops_early(t, (passes - 1) as nat)
    }
}

pub proof fn lemma_optimize_fixed_point(s: SExpr, passes: nat)
    requires
        stops_early(s, passes),
    ensures
        transform(optimize_spec(s, passes)).0 == optimize_spec(s, passes),
        !transform(optimize_spec(s, passes)).1,
    decreases passes,
{
    let (t, modified) = transform(s);
    lemma_unmodified_is_identity(s);
    if !modified {
        lemma_unmodified_is_identity(t);
        assert(t == s);
    } else {
        lemma_optimize_fixed_point(t, (passes - 1) as nat);
    }
}

/// Simplifies an expression pass after pass until a pass changes nothing,
/// making at most `MAX_PASSES` passes.
pub fn optimize_expr(expr: Expr) -> (r: Expr)
    ensures
        expr_view(r) == optimize_spec(expr_view(expr), MAX_PASSES as nat),
{
    let mut current = expr;
    let mut pass: usize = 0;
    while pass < MAX_PASSES
        invariant
            pass <= MAX_PASSES,
            optimize_spec(expr_view(current), (MAX_PASSES - pass) as nat)
                == optimize_spec(expr_view(expr), MAX_PASSES as nat),
        decreases MAX_PASSES - pass,
    {
        let (transformed, modified) = algebraic_transform(current);
        if !modified {
            return transformed;
        }
        current = transformed;
        pass = pass + 1;
    }
    current
}

/// The code generator: the relations of a program, to be compiled.
pub struct CodeGen {
    pub relations: Vec<RelType>,
}

impl CodeGen {
    pub fn new(relations: Vec<RelType>) -> (c: Self)
        ensures
            c.relations@ == relations@,
    {
        CodeGen { relations }
    }

    /// Compiles every relation to bytecode, in order, after simplifying its
    /// body: the relations that compile are returned, each under its own
    /// name; one that cannot be compiled is left out, and where it ran out of
    /// registers that is reported in `diagnostics`. Where every simplified
    /// relation compiles and no register runs out, there is one compiled
    /// relation for each relation, at its place.
    pub fn compile(self, symbol_table: &[Symbol], diagnostics: &mut Diagnostics) -> (r: Vec<CompiledRel>)
        ensures
            r@.len() <= self.relations@.len(),
            forall|j: int| 0 <= j < r@.len() ==> compiled_ok(#[trigger] r@[j]),
            only_register_errors(old(diagnostics)@, final(diagnostics)@),
            exists|optimized: Seq<RelType>| {
                &&& #[trigger] simplified_all(self.relations@, optimized)
                &&& (final(diagnostics)@ == old(diagnostics)@
                    && forall|k: int| 0 <= k < optimized.len() ==> rel_compiles(symbol_table@, #[trigger] optimized[k]))
                    ==> {
                    &&& r@.len() == self.relations@.len()
                    &&& forall|k: int| 0 <= k < r@.len() ==> names_after(#[trigger] r@[k], self.relations@[k], symbol_table@)
                }
            },
    {
        let mut compiled_relations: Vec<CompiledRel> = Vec::new();
        let mut rest = self.relations;
        let ghost rels = rest@;
        let ghost d0 = diagnostics@;
        let ghost mut optimized: Seq<RelType> = Seq::empty();
        let n = rest.len();
        let mut i: usize = 0;
        proof {
            assert(d0.subrange(0, d0.len() as int) =~= d0);
        }
        while i < n
            invariant
                i <= n,
                n == rels.len(),
                rest@ == rels.skip(i as int),
                optimized.len() == i,
                forall|k: int| 0 <= k < i ==> #[trigger] simplified(rels[k], optimized[k]),
                compiled_relations@.len() <= i,
                forall|j: int| 0 <= j < compiled_relations@.len() ==> compiled_ok(#[trigger] compiled_relations@[j]),
                only_register_errors(d0, diagnostics@),
                (diagnostics@ == d0 && forall|k: int| 0 <= k < i ==> rel_compiles(symbol_table@, #[trigger] optimized[k]))
                    ==> {
                    &&& compiled_relations@.len() == i
                    &&& forall|k: int| 0 <= k < i ==> names_after(#[trigger] compiled_relations@[k], rels[k], symbol_table@)
                },
            decreases n - i,
        {
            assert(rest@[0] == rels[i as int]);
            let relation = rest.remove(0);
            assert(rest@ =~= rels.skip(i + 1));
            let RelType { name, params, return_type, body } = relation;
            let body = optimize_expr(body);
            let simplified_relation = RelType { name, params, return_type, body };
            let ghost d1 = diagnostics@;
            let ghost o_old = optimized;
            proof {
                optimized = optimized.push(simplified_relation);
                assert forall|k: int| 0 <= k < i + 1 implies #[trigger] simplified(rels[k], optimized[k]) by {
                    if k < i {
                        assert(optimized[k] == o_old[k]);
                    }
                }
            }
            let ghost before = compiled_relations@;
            let result = RelCompiler::compile(simplified_relation, symbol_table, diagnostics);
            let ghost res = result;
            match result {
                Some(c) => {
                    compiled_relations.push(c);
                },
                None => {},
            }
            proof {
                assert(only_register_errors(d0, diagnostics@)) by {
                    if diagnostics@ != d1 {
                        let dn = diagnostics@;
                        assert(dn.drop_last() == d1);
                        assert(dn.subrange(0, d0.len() as int) =~= d1.subrange(0, d0.len() as int));
                        assert forall|k: int| d0.len() <= k < dn.len() implies #[trigger] dn[k] is TooManySymbols by {
                            if k < d1.len() {
                                assert(dn[k] == d1[k]);
                            }
                        }
                    }
                }
                if diagnostics@ == d0 && forall|k: int| 0 <= k < i + 1 ==> rel_compiles(symbol_table@, #[trigger] optimized[k]) {
                    assert(d1.len() == d0.len());
                    assert(d1 =~= d1.subrange(0, d0.len() as int));
                    assert(d1 == d0);
                    assert(rel_compiles(symbol_table@, optimized[i as int]));
                    assert forall|k: int| 0 <= k < i implies rel_compiles(symbol_table@, #[trigger] o_old[k]) by {
                        assert(optimized[k] == o_old[k]);
                    }
                    assert(before.len() == i);
                    assert(res is Some);
                    assert(compiled_relations@ == before.push(res->0));
                    assert forall|k: int| 0 <= k < i + 1 implies names_after(#[trigger] compiled_relations@[k], rels[k], symbol_table@) by {
                        if k < i {
                            assert(compiled_relations@[k] == before[k]);
                        }
                    }
                }
            }
            i = i + 1;
        }
        proof {
            assert(rels == self.relations@);
            assert(simplified_all(self.relations@, optimized));
        }
        compiled_relations
    }
}

/// `after` is `before` with its body simplified.
pub open spec fn simplified(before: RelType, after: RelType) -> bool {
    &&& after.name == before.name
    &&& after.params@ == before.params@
    &&& after.return_type == before.return_type
    &&& expr_view(after.body) == optimize_spec(expr_view(before.body), MAX_PASSES as nat)
}

/// `after` holds the relations of `before`, each with its body simplified.
pub open spec fn simplified_all(before: Seq<RelType>, after: Seq<RelType>) -> bool {
    &&& after.len() == before.len()
    &&& forall|k: int| 0 <= k < after.len() ==> #[trigger] simplified(before[k], after[k])
}

/// `c` is a compiled relation named after the symbol of `relation`.
pub open spec fn names_after(c: CompiledRel, relation: RelType, symbols: Seq<Symbol>) -> bool {
    &&& compiled_ok(c)
    &&& relation.name matches Ident::Symbol(id) && id < symbols.len() && c.name@ == symbols[id as int].name@
}

} // verus!
