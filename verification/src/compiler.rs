//! The back end's driver: compiles the relations of a checked program and
//! gathers what synthesis of the top-level net works from.

use std::collections::HashMap;
use vstd::prelude::*;
use crate::ast::{Ident, Item, Net, Program};
use crate::compiled_rel::CompiledRel;
use crate::diagnostics::{CompilerError, Diagnostics};
use crate::ir::{Instruction, encode_all, patches_all};
use crate::code_gen::names_after;
use crate::rel_compiler::{RelCompiler, rel_compiles};
use crate::types::{Symbol, SymbolId};

verus! {

broadcast use vstd::std_specs::hash::group_hash_axioms;

/// `std::io::Error`, the error of reading the source file; carried, never
/// looked into.
#[verifier::external_type_specification]
#[verifier::external_body]
pub struct ExIoError(std::io::Error);

/// Why a compilation stopped.
pub enum CompileError {
    /// the source file could not be read
    Io(std::io::Error),
    /// the source file's name does not end in `.loi`
    InvalidFileExtension,
    /// the program has errors, all recorded here
    Diagnostics(Diagnostics),
}

/// What synthesis of the top-level net works from: the nets of the
/// program, the symbol of the top-level net, where each relation and net
/// stands in its list (by symbol), and the compiled relations.
pub struct BackEnd {
    pub nets: Vec<Net>,
    pub top_net: SymbolId,
    pub obj_map: HashMap<SymbolId, usize>,
    pub compiled_relations: Vec<CompiledRel>,
}

/// Every relation and net of the program is named by a symbol of the table.
pub open spec fn names_resolved(items: Seq<Item>, symbols: Seq<Symbol>) -> bool {
    forall|k: int| 0 <= k < items.len() ==> match #[trigger] items[k] {
        Item::Rel(r) => r.name is Symbol,
        Item::Net(n) => n.name matches Ident::Symbol(id) && id < symbols.len(),
        _ => true,
    }
}

/// The nets of the items, in order.
pub open spec fn nets_of(items: Seq<Item>) -> Seq<Net>
    decreases items.len(),
{
    if items.len() == 0 {
        Seq::empty()
    } else {
        let rest = nets_of(items.drop_last());
        match items.last() {
            Item::Net(n) => rest.push(n),
            _ => rest,
        }
    }
}

/// The symbol of the last net among the items whose name is `name`.
pub open spec fn top_net_of(items: Seq<Item>, symbols: Seq<Symbol>, name: Seq<char>) -> Option<SymbolId>
    decreases items.len(),
{
    if items.len() == 0 {
        None
    } else {
        let rest = top_net_of(items.drop_last(), symbols, name);
        match items.last() {
            Item::Net(n) => match n.name {
                Ident::Symbol(id) => if id < symbols.len() && symbols[id as int].name@ == name { Some(id) } else { rest },
                _ => rest,
            },
            _ => rest,
        }
    }
}

/// The number of relations among the items that compiled, where
/// `compiled[k]` says whether the relation at item `k` did.
pub open spec fn rels_compiled(items: Seq<Item>, compiled: Seq<bool>) -> nat
    decreases items.len(),
{
    if items.len() == 0 {
        0
    } else {
        let p = items.len() - 1;
        let rest = rels_compiled(items.take(p), compiled);
        if items[p] is Rel && compiled[p] { rest + 1 } else { rest }
    }
}

/// Where each relation that compiled and each net stands in its list, by
/// symbol; a later item with the same symbol takes its place.
pub open spec fn obj_map_of(items: Seq<Item>, compiled: Seq<bool>) -> Map<SymbolId, usize>
    decreases items.len(),
{
    if items.len() == 0 {
        Map::empty()
    } else {
        let p = items.len() - 1;
        let prev = items.take(p);
        let m = obj_map_of(prev, compiled);
        match items[p] {
            Item::Rel(r) => match r.name {
                Ident::Symbol(id) => if compiled[p] { m.insert(id, rels_compiled(prev, compiled) as usize) } else { m },
                _ => m,
            },
            Item::Net(n) => match n.name {
                Ident::Symbol(id) => m.insert(id, nets_of(prev).len() as usize),
                _ => m,
            },
            _ => m,
        }
    }
}

/// Each item marked in `compiled` is a relation, compiled and named after
/// its symbol, at the place in `rels` that the relations compiled before it
/// leave.
pub open spec fn compiled_in_place(items: Seq<Item>, symbols: Seq<Symbol>, compiled: Seq<bool>, rels: Seq<CompiledRel>) -> bool {
    forall|k: int| 0 <= k < items.len() && #[trigger] compiled[k] ==> (items[k] matches Item::Rel(rel)
        && rels_compiled(items.take(k), compiled) < rels.len()
        && names_after(rels[rels_compiled(items.take(k), compiled) as int], rel, symbols))
}

/// A compiled relation: its bytecode encodes instructions that end in `RET`.
pub open spec fn compiled_ok(c: CompiledRel) -> bool {
    &&& c.complexity == 0
    &&& exists|ir: Seq<Instruction>| {
        &&& c.bytecode@ == encode_all(ir)
        &&& c.float_patches@ == patches_all(ir)
        &&& ir.len() > 0
        &&& ir.last() is RET
    }
}

/// The errors `new` holds beyond `old` all report a relation that ran out
/// of registers.
pub open spec fn only_register_errors(old: Seq<CompilerError>, new: Seq<CompilerError>) -> bool {
    &&& old.len() <= new.len()
    &&& new.subrange(0, old.len() as int) == old
    &&& forall|k: int| old.len() <= k < new.len() ==> #[trigger] new[k] is TooManySymbols
}

/// The back end: compiles each relation of the program (one that cannot be
/// compiled is left out, its error recorded), collects the nets, and finds
/// the top-level net named `top_net`. Fails with the diagnostics where no
/// net has that name (reported) or where errors were recorded, by the front
/// end or here.
#[verifier::rlimit(30)]
pub fn back_end(ast: Program, symbols: &[Symbol], top_net: &str, diagnostics: Diagnostics) -> (r: Result<BackEnd, CompileError>)
    requires
        names_resolved(ast.items@, symbols@),
        ast.items@.len() < usize::MAX,
    ensures
        ({
            let items = ast.items@;
            let top = top_net_of(items, symbols@, top_net@);
            match r {
                Ok(b) => {
                    &&& top == Some(b.top_net)
                    &&& diagnostics@.len() == 0
                    &&& b.nets@ == nets_of(items)
                    &&& exists|compiled: Seq<bool>| {
                        &&& compiled.len() == items.len()
                        &&& b.obj_map@ == obj_map_of(items, compiled)
                        &&& b.compiled_relations@.len() == rels_compiled(items, compiled)
                        &&& #[trigger] compiled_in_place(items, symbols@, compiled, b.compiled_relations@)
                        &&& forall|k: int| 0 <= k < items.len() && (items[k] matches Item::Rel(rel) && rel_compiles(symbols@, rel))
                            ==> #[trigger] compiled[k]
                    }
                    &&& forall|j: int| 0 <= j < b.compiled_relations@.len() ==> compiled_ok(#[trigger] b.compiled_relations@[j])
                },
                Err(CompileError::Diagnostics(d)) => match top {
                    None => {
                        &&& d@.len() > 0
                        &&& only_register_errors(diagnostics@, d@.drop_last())
                        &&& d@.last() matches CompilerError::NonexistantTopLevelNet { name } && name@ == top_net@
                    },
                    Some(_) => d@.len() > 0 && only_register_errors(diagnostics@, d@),
                },
                Err(_) => false,
            }
        }),
{
    let ghost items0 = ast.items@;
    let mut diagnostics = diagnostics;
    let ghost d0 = diagnostics@;
    let top_name = top_net.to_owned();
    let mut compiled_relations: Vec<CompiledRel> = Vec::new();
    let mut obj_map: HashMap<SymbolId, usize> = HashMap::new();
    let mut nets: Vec<Net> = Vec::new();
    let mut top_net_idx_option: Option<SymbolId> = None;
    let mut rest = ast.items;
    let n = rest.len();
    let ghost mut compiled: Seq<bool> = Seq::empty();
    let mut i: usize = 0;
    proof {
        assert(items0.take(0) =~= Seq::<Item>::empty());
        assert(obj_map@ =~= Map::<SymbolId, usize>::empty());
        assert(d0.subrange(0, d0.len() as int) =~= d0);
    }
    while i < n
        invariant
            n == items0.len(),
            i <= n,
            n < usize::MAX,
            rest@ == items0.skip(i as int),
            names_resolved(items0, symbols@),
            top_name@ == top_net@,
            compiled.len() == i,
            nets@ == nets_of(items0.take(i as int)),
            obj_map@ == obj_map_of(items0.take(i as int), compiled),
            compiled_relations@.len() == rels_compiled(items0.take(i as int), compiled),
            forall|j: int| 0 <= j < compiled_relations@.len() ==> compiled_ok(#[trigger] compiled_relations@[j]),
            top_net_idx_option == top_net_of(items0.take(i as int), symbols@, top_net@),
            only_register_errors(d0, diagnostics@),
            compiled_relations@.len() <= i,
            nets@.len() <= i,
            compiled_in_place(items0.take(i as int), symbols@, compiled, compiled_relations@),
            diagnostics@ == d0 ==> forall|k: int| 0 <= k < i && (items0[k] matches Item::Rel(rel)
                && rel_compiles(symbols@, rel)) ==> #[trigger] compiled[k],
        decreases n - i,
    {
        assert(rest@[0] == items0[i as int]);
        let item = rest.remove(0);
        assert(rest@ =~= items0.skip(i + 1));
        let ghost prev = items0.take(i as int);
        proof {
            assert(items0.take(i + 1).drop_last() =~= prev);
            assert(items0.take(i + 1).take(i as int) =~= prev);
            assert(items0.take(i + 1).last() == items0[i as int]);
            assert(items0.take(i + 1)[i as int] == items0[i as int]);
            assert(match items0[i as int] {
                Item::Rel(r) => r.name is Symbol,
                Item::Net(n) => n.name matches Ident::Symbol(id) && id < symbols@.len(),
                _ => true,
            });
        }
        let ghost d1 = diagnostics@;
        let ghost c_old = compiled;
        let ghost rels_old = compiled_relations@;
        match item {
            Item::Rel(relation) => {
                let id = match &relation.name {
                    Ident::Symbol(id) => *id,
                    _ => {
                        proof { assert(false); }
                        0
                    },
                };
                let idx = compiled_relations.len();
                match RelCompiler::compile(relation, symbols, &mut diagnostics) {
                    Some(compiled_relation) => {
                        proof {
                            compiled = compiled.push(true);
                            lemma_rels_compiled_prefix(prev, compiled);
                            lemma_obj_map_prefix(prev, compiled);
                        }
                        compiled_relations.push(compiled_relation);
                        obj_map.insert(id, idx);
                        proof {
                            assert(names_after(compiled_relations@[idx as int], items0[i as int]->Rel_0, symbols@));
                        }
                    },
                    None => {
                        proof {
                            compiled = compiled.push(false);
                            lemma_rels_compiled_prefix(prev, compiled);
                            lemma_obj_map_prefix(prev, compiled);
                        }
                    },
                }
            },
            Item::Net(net) => {
                let id = match &net.name {
                    Ident::Symbol(id) => *id,
                    _ => {
                        proof { assert(false); }
                        0
                    },
                };
                let idx = nets.len();
                if symbols[id].name == top_name {
                    top_net_idx_option = Some(id);
                }
                proof {
                    compiled = compiled.push(false);
                    lemma_rels_compiled_prefix(prev, compiled);
                    lemma_obj_map_prefix(prev, compiled);
                }
                nets.push(net);
                obj_map.insert(id, idx);
            },
            _ => {
                proof {
                    compiled = compiled.push(false);
                    lemma_rels_compiled_prefix(prev, compiled);
                    lemma_obj_map_prefix(prev, compiled);
                }
            },
        }
        proof {
            assert(compiled.take(i as int) =~= c_old);
            lemma_in_place_step(items0, i as int, symbols@, c_old, compiled, rels_old, compiled_relations@);
            if diagnostics@ == d0 {
                assert(d1.len() == d0.len());
                assert(d1 =~= d1.subrange(0, d0.len() as int));
                assert forall|k: int| 0 <= k < i + 1 && (items0[k] matches Item::Rel(rel)
                    && rel_compiles(symbols@, rel)) implies #[trigger] compiled[k] by {
                    if k < i {
                        assert(compiled[k] == c_old[k]);
                    }
                }
            }
            assert(only_register_errors(d0, diagnostics@)) by {
                if diagnostics@ != d1 {
                    let dn = diagnostics@;
                    assert(dn.drop_last() == d1);
                    assert(dn.subrange(0, d0.len() as int) =~= d1.subrange(0, d0.len() as int));
                    assert forall|k: int| d0.len() <= k < dn.len() implies #[trigger] dn[k] is TooManySymbols by {
                        if k < d1.len() {
                            assert(dn[k] == d1[k]);
                        }
                    }
                }
            }
        }
        i = i + 1;
    }
    proof {
        assert(items0.take(n as int) =~= items0);
    }
    let top_net_idx = match top_net_idx_option {
        Some(t) => t,
        None => {
            let ghost d2 = diagnostics@;
            diagnostics.error(CompilerError::NonexistantTopLevelNet { name: top_name });
            proof {
                assert(diagnostics@.drop_last() == d2);
            }
            return Err(CompileError::Diagnostics(diagnostics));
        },
    };
    if diagnostics.has_errors() {
        return Err(CompileError::Diagnostics(diagnostics));
    }
    proof {
        assert(diagnostics@ =~= d0);
        assert(compiled_in_place(items0, symbols@, compiled, compiled_relations@));
        assert(forall|k: int| 0 <= k < items0.len() && (items0[k] matches Item::Rel(rel) && rel_compiles(symbols@, rel))
            ==> #[trigger] compiled[k]);
        assert(obj_map@ == obj_map_of(items0, compiled));
        assert(compiled_relations@.len() == rels_compiled(items0, compiled));
    }
    let back = BackEnd { nets, top_net: top_net_idx, obj_map, compiled_relations };
    proof {
        assert(compiled_in_place(items0, symbols@, compiled, back.compiled_relations@));
    }
    Ok(back)
}

/// One more item keeps the compiled relations in place.
proof fn lemma_in_place_step(
    items: Seq<Item>,
    i: int,
    symbols: Seq<Symbol>,
    c_old: Seq<bool>,
    compiled: Seq<bool>,
    rels_old: Seq<CompiledRel>,
    rels_new: Seq<CompiledRel>,
)
    requires
        0 <= i < items.len(),
        c_old.len() == i,
        compiled.len() == i + 1,
        compiled.take(i) == c_old,
        compiled_in_place(items.take(i), symbols, c_old, rels_old),
        rels_old.len() == rels_compiled(items.take(i), c_old),
        rels_new.len() >= rels_old.len(),
        forall|j: int| 0 <= j < rels_old.len() ==> rels_new[j] == rels_old[j],
        compiled[i] ==> (items[i] matches Item::Rel(rel) && rels_new.len() > rels_old.len()
            && names_after(rels_new[rels_old.len() as int], rel, symbols)),
    ensures
        compiled_in_place(items.take(i + 1), symbols, compiled, rels_new),
{
    assert forall|k: int| 0 <= k < i + 1 && #[trigger] compiled[k] implies (items.take(i + 1)[k] matches Item::Rel(rel)
        && rels_compiled(items.take(i + 1).take(k), compiled) < rels_new.len()
        && names_after(rels_new[rels_compiled(items.take(i + 1).take(k), compiled) as int], rel, symbols)) by {
        assert(items.take(i + 1).take(k) =~= items.take(k));
        assert forall|p: int| 0 <= p < k implies compiled[p] == c_old[p] by {
            assert(compiled.take(i)[p] == compiled[p]);
        }
        lemma_rels_compiled_agree(items.take(k), compiled, c_old);
        if k < i {
            assert(compiled.take(i)[k] == compiled[k]);
            assert(items.take(i).take(k) =~= items.take(k));
            assert(items.take(i)[k] == items[k]);
        } else {
            assert(items.take(k) =~= items.take(i));
        }
    }
}

/// The relations counted depend only on the outcomes of the items counted.
proof fn lemma_rels_compiled_agree(items: Seq<Item>, c1: Seq<bool>, c2: Seq<bool>)
    requires
        items.len() <= c1.len(),
        items.len() <= c2.len(),
        forall|p: int| 0 <= p < items.len() ==> c1[p] == c2[p],
    ensures
        rels_compiled(items, c1) == rels_compiled(items, c2),
    decreases items.len(),
{
    if items.len() > 0 {
        lemma_rels_compiled_agree(items.take(items.len() - 1), c1, c2);
    }
}

/// The relations counted in a prefix do not depend on later outcomes.
proof fn lemma_rels_compiled_prefix(items: Seq<Item>, compiled: Seq<bool>)
    requires
        compiled.len() > items.len(),
    ensures
        rels_compiled(items, compiled) == rels_compiled(items, compiled.take(items.len() as int)),
    decreases items.len(),
{
    if items.len() > 0 {
        let p = items.len() - 1;
        lemma_rels_compiled_prefix(items.take(p), compiled);
        lemma_rels_compiled_prefix(items.take(p), compiled.take(items.len() as int));
        assert(compiled.take(items.len() as int).take(p) =~= compiled.take(p));
    }
}

/// The positions recorded for a prefix do not depend on later outcomes.
proof fn lemma_obj_map_prefix(items: Seq<Item>, compiled: Seq<bool>)
    requires
        compiled.len() > items.len(),
    ensures
        obj_map_of(items, compiled) == obj_map_of(items, compiled.take(items.len() as int)),
    decreases items.len(),
{
    if items.len() > 0 {
        let p = items.len() - 1;
        lemma_obj_map_prefix(items.take(p), compiled);
        lemma_obj_map_prefix(items.take(p), compiled.take(items.len() as int));
        lemma_rels_compiled_prefix(items.take(p), compiled);
        lemma_rels_compiled_prefix(items.take(p), compiled.take(items.len() as int));
        assert(compiled.take(items.len() as int).take(p) =~= compiled.take(p));
    }
}

} // verus!
