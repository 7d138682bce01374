//! Tokens, names, types and parameters; `let`, `ent_t` and `rel_t` items;
//! whole programs.

use vstd::prelude::*;
use super::Parser;
use super::sync::SyncRule;
use crate::ast::{EntExpr, EntType, Expr, Ident, Item, LetStatement, NetItem, Param, Program, RelType, expr_clean, item_clean, expr_untyped, item_untyped};
use super::{ident_token, lemma_steps_trans};
use super::expr::{body_end, body_expr, body_tokens_at, lone_atom, lone_binary, simple_let_at};
use super::net::{plain_net_at, lemma_plain_net_unique};
use crate::diagnostics::{CompilerError, Expected};
use crate::token::{Token, TokenKind};
use crate::types::Type;

verus! {

/// The type a single keyword names: `Bool`, `Int`, `Real` or `Impulse`.
pub open spec fn base_type(k: TokenKind) -> Option<Type> {
    match k {
        TokenKind::Bool => Some(Type::Bool),
        TokenKind::Int => Some(Type::Int),
        TokenKind::Real => Some(Type::Real),
        TokenKind::Impulse => Some(Type::Impulse),
        _ => None,
    }
}

/// `e` reports that `found` stood where one of `expected` was wanted.
pub open spec fn is_unexpected(e: CompilerError, expected: Seq<Expected>, found: Token) -> bool {
    e matches CompilerError::UnexpectedToken { expected: ex, found: f, span: s }
        && ex@ == expected && f == found.kind && s == found.span
}

impl Parser {
    /// The errors grew by exactly one, which reports the token at `before`'s
    /// position where one of `expected` was wanted.
    pub open spec fn reported_here(&self, before: &Parser, expected: Seq<Expected>) -> bool {
        &&& self.errs().len() == before.errs().len() + 1
        &&& is_unexpected(self.errs()[before.errs().len() as int], expected, before.toks()[before.pos()])
    }

    /// Consumes the next token if it is `kind`; else reports it, skips ahead
    /// as `rule` says and gives `None`.
    pub fn expect(&mut self, kind: TokenKind, rule: &SyncRule) -> (r: Option<Token>)
        requires
            old(self).wf(),
            kind.is_plain(),
            !(kind is Eof),
        ensures
            old(self).steps_to(final(self)),
            old(self).cur_kind() == kind ==> {
                &&& r == Some(old(self).toks()[old(self).pos()])
                &&& final(self).pos() == old(self).pos() + 1
                &&& final(self).errs() == old(self).errs()
            },
            old(self).cur_kind() != kind ==> {
                &&& r is None
                &&& final(self).reported_here(old(self), seq![Expected::Token(kind)])
            },
    {
        let ghost start = *self;
        if self.peek().kind.same_variant(&kind) {
            return Some(self.next());
        }
        let found = self.peek().duplicate();
        self.report_unexpected(super::expect_one(Expected::Token(kind)), &found);
        let ghost mid = *self;
        self.sync(rule);
        proof {
            super::lemma_steps_trans(&start, &mid, self);
            assert(self.errs()[start.errs().len() as int] == mid.errs()[start.errs().len() as int]);
        }
        None
    }

    /// Consumes the next token if it is a name; else reports it, skips ahead
    /// as `rule` says and gives `None`.
    pub fn expect_ident(&mut self, rule: &SyncRule) -> (r: Option<Ident>)
        requires
            old(self).wf(),
        ensures
            old(self).steps_to(final(self)),
            old(self).cur_kind() is Ident ==> {
                &&& r matches Some(Ident::Str { val, span })
                    && old(self).cur_kind() == TokenKind::Ident(val)
                    && span == old(self).toks()[old(self).pos()].span
                &&& final(self).pos() == old(self).pos() + 1
                &&& final(self).errs() == old(self).errs()
            },
            !(old(self).cur_kind() is Ident) ==> {
                &&& r is None
                &&& final(self).reported_here(old(self), seq![Expected::Ident])
            },
    {
        let ghost start = *self;
        if matches!(self.peek().kind, TokenKind::Ident(_)) {
            let t = self.next();
            match t.kind {
                TokenKind::Ident(val) => {
                    return Some(Ident::Str { val, span: t.span });
                }
                _ => {
                    assert(false);
                    return None;
                }
            }
        }
        let found = self.peek().duplicate();
        self.report_unexpected(super::expect_one(Expected::Ident), &found);
        let ghost mid = *self;
        self.sync(rule);
        proof {
            super::lemma_steps_trans(&start, &mid, self);
            assert(self.errs()[start.errs().len() as int] == mid.errs()[start.errs().len() as int]);
        }
        None
    }

    /// A type: `Bool`, `Int`, `Real`, `Impulse`, `Mod(n)`, or the name of an entity type.
    pub fn parse_type(&mut self, rule: &SyncRule) -> (r: Option<Type>)
        requires
            old(self).wf(),
        ensures
            old(self).steps_to(final(self)),
            r is Some <==> final(self).errs().len() == old(self).errs().len(),
            old(self).cur_kind() is Bool ==> r == Some(Type::Bool),
            old(self).cur_kind() is Int ==> r == Some(Type::Int),
            old(self).cur_kind() is Real ==> r == Some(Type::Real),
            old(self).cur_kind() is Impulse ==> r == Some(Type::Impulse),
            old(self).cur_kind() matches TokenKind::Ident(name) ==>
                (r matches Some(Type::Custom(Ident::Str { val, .. })) && val == name),
            base_type(old(self).cur_kind()) is Some ==>
                final(self).pos() == old(self).pos() + 1 && final(self).errs() == old(self).errs(),
    {
        let ghost start = *self;
        let k = self.peek().kind.duplicate();
        match k {
            TokenKind::Bool => {
                self.next();
                Some(Type::Bool)
            }
            TokenKind::Int => {
                self.next();
                Some(Type::Int)
            }
            TokenKind::Real => {
                self.next();
                Some(Type::Real)
            }
            TokenKind::Impulse => {
                self.next();
                Some(Type::Impulse)
            }
            TokenKind::Ident(_) => {
                let name = self.expect_ident(rule);
                match name {
                    Some(n) => Some(Type::Custom(n)),
                    None => None,
                }
            }
            TokenKind::Mod => {
                self.next();
                let ghost s1 = *self;
                if self.expect(TokenKind::LParen, rule).is_none() {
                    proof {
                        super::lemma_steps_trans(&start, &s1, self);
                    }
                    return None;
                }
                let ghost s2 = *self;
                proof {
                    super::lemma_steps_trans(&start, &s1, &s2);
                }
                let n = self.expect_int(rule);
                let ghost s3 = *self;
                proof {
                    super::lemma_steps_trans(&start, &s2, &s3);
                }
                match n {
                    Some(n) => {
                        let close = self.expect(TokenKind::RParen, rule);
                        proof {
                            super::lemma_steps_trans(&start, &s3, self);
                        }
                        match close {
                            Some(_) => Some(Type::Mod(n)),
                            None => None,
                        }
                    }
                    None => None,
                }
            }
            _ => {
                let found = self.peek().duplicate();
                self.report_unexpected(super::expect_one(Expected::Type), &found);
                let ghost mid = *self;
                self.sync(rule);
                proof {
                    super::lemma_steps_trans(&start, &mid, self);
                    assert(self.errs().len() > start.errs().len());
                }
                None
            }
        }
    }

    /// Consumes an integer literal; else reports the token found, skips ahead and gives `None`.
    pub fn expect_int(&mut self, rule: &SyncRule) -> (r: Option<i64>)
        requires
            old(self).wf(),
        ensures
            old(self).steps_to(final(self)),
            old(self).cur_kind() matches TokenKind::IntLiteral(n) ==> {
                &&& r == Some(n)
                &&& final(self).pos() == old(self).pos() + 1
                &&& final(self).errs() == old(self).errs()
            },
            !(old(self).cur_kind() is IntLiteral) ==> {
                &&& r is None
                &&& final(self).reported_here(old(self), seq![Expected::IntLiteral])
            },
    {
        let ghost start = *self;
        if let TokenKind::IntLiteral(n) = self.peek().kind {
            self.next();
            return Some(n);
        }
        let found = self.peek().duplicate();
        self.report_unexpected(super::expect_one(Expected::IntLiteral), &found);
        let ghost mid = *self;
        self.sync(rule);
        proof {
            super::lemma_steps_trans(&start, &mid, self);
            assert(self.errs()[start.errs().len() as int] == mid.errs()[start.errs().len() as int]);
        }
        None
    }

    /// `name : type`
    pub fn parse_param(&mut self, rule: &SyncRule) -> (r: Option<Param>)
        requires
            old(self).wf(),
        ensures
            old(self).steps_to(final(self)),
            r is Some <==> final(self).errs().len() == old(self).errs().len(),
            old(self).cur_kind() is Ident && old(self).toks()[old(self).pos() + 1].kind is Colon
                && base_type(old(self).toks()[old(self).pos() + 2].kind) is Some ==>
                r == Some(Param {
                    name: ident_token(old(self).toks()[old(self).pos()])->0,
                    param_type: base_type(old(self).toks()[old(self).pos() + 2].kind)->0,
                }) && final(self).errs() == old(self).errs() && final(self).pos() == old(self).pos() + 3,
    {
        let ghost start = *self;
        let name = match self.expect_ident(rule) {
            Some(n) => n,
            None => return None,
        };
        let ghost s1 = *self;
        let colon = self.expect(TokenKind::Colon, rule);
        let ghost s2 = *self;
        proof {
            super::lemma_steps_trans(&start, &s1, &s2);
        }
        if colon.is_none() {
            return None;
        }
        let param_type = self.parse_type(rule);
        proof {
            super::lemma_steps_trans(&start, &s2, self);
        }
        match param_type {
            Some(t) => Some(Param { name, param_type: t }),
            None => None,
        }
    }
}

/// The members of an entity type `NAME = {A, B, ...}` are the names at
/// every other token after the `{`; `NAME = Mod(n)` holds the literal `n`.
pub open spec fn ent_members_at(toks: Seq<Token>, p: int, e: EntExpr) -> bool {
    match e {
        EntExpr::SetEnt(members) => forall|j: int| 0 <= j < members@.len()
            ==> ident_token(toks[p + 3 + 2 * j]) == Some(#[trigger] members@[j]),
        EntExpr::Mod(n) => toks[p + 4].kind == TokenKind::IntLiteral(n),
    }
}

/// An item begins with the keyword of its kind; a broken one begins anywhere.
pub open spec fn item_begins(item: Item, k: TokenKind) -> bool {
    match item {
        Item::Let(_) => k is Let,
        Item::Ent(_) => k is Ent_t,
        Item::Rel(_) => k is Rel_t,
        Item::Net(_) => k is NetToken,
        Item::Error => true,
    }
}

/// The items take up the tokens from `p` to `q` one after the other: item
/// `i` runs from `starts[i]` to `starts[i + 1]` and begins with its keyword.
pub open spec fn items_cover(toks: Seq<Token>, starts: Seq<int>, items: Seq<Item>, p: int, q: int) -> bool {
    &&& starts.len() == items.len() + 1
    &&& starts[0] == p
    &&& starts.last() == q
    &&& forall|i: int| 0 <= i < items.len() ==> #[trigger] starts[i] < starts[i + 1]
    &&& forall|i: int| 0 <= i < items.len() ==> item_begins(#[trigger] items[i], toks[starts[i]].kind)
}

/// The `j`-th member name of an entity type whose name stands at `p`.
pub open spec fn member_token(toks: Seq<Token>, p: int, j: int) -> Token {
    toks[p + 3 + 2 * j]
}

/// The token after the `j`-th member name of an entity type whose name stands at `p`.
pub open spec fn member_sep(toks: Seq<Token>, p: int, j: int) -> Token {
    toks[p + 4 + 2 * j]
}

/// From `p`: `NAME = {A, B, ...};` with `n` member names.
pub open spec fn ent_tokens_at(toks: Seq<Token>, p: int, n: int) -> bool {
    &&& 1 <= n
    &&& toks[p].kind is Ident
    &&& toks[p + 1].kind is Equals
    &&& toks[p + 2].kind is LBrace
    &&& forall|j: int| 0 <= j < n ==> (#[trigger] member_token(toks, p, j)).kind is Ident
    &&& forall|j: int| 0 <= j < n - 1 ==> (#[trigger] member_sep(toks, p, j)).kind is Comma
    &&& toks[p + 2 + 2 * n].kind is RBrace
    &&& toks[p + 3 + 2 * n].kind is Semicolon
}

/// The `j`-th parameter name of a relation type whose name stands at `p`.
pub open spec fn param_token(toks: Seq<Token>, p: int, j: int) -> Token {
    toks[p + 3 + 4 * j]
}

/// The token after the `j`-th parameter of a relation type whose name stands at `p`.
pub open spec fn param_sep(toks: Seq<Token>, p: int, j: int) -> Token {
    toks[p + 6 + 4 * j]
}

/// The `j`-th parameter `NAME: T` of a relation type whose name stands at `p`.
pub open spec fn param_at(toks: Seq<Token>, p: int, j: int) -> Param {
    Param { name: ident_token(param_token(toks, p, j))->0, param_type: base_type(toks[p + 5 + 4 * j].kind)->0 }
}

/// Where the `)` after `n` parameters stands, for a relation type whose name stands at `p`.
pub open spec fn params_close(p: int, n: int) -> int {
    if n == 0 { p + 3 } else { p + 2 + 4 * n }
}

/// From `p`: `NAME : (a: T, ...) -> T = e;` with `n` parameters, where every
/// `T` is a base type and `e` a literal or a name, or `a op b` of two.
pub open spec fn rel_tokens_at(toks: Seq<Token>, p: int, n: int) -> bool {
    let c = params_close(p, n);
    &&& 0 <= n
    &&& toks[p].kind is Ident
    &&& toks[p + 1].kind is Colon
    &&& toks[p + 2].kind is LParen
    &&& forall|j: int| 0 <= j < n ==> {
        &&& (#[trigger] param_token(toks, p, j)).kind is Ident
        &&& toks[p + 4 + 4 * j].kind is Colon
        &&& base_type(toks[p + 5 + 4 * j].kind) is Some
    }
    &&& forall|j: int| 0 <= j < n - 1 ==> (#[trigger] param_sep(toks, p, j)).kind is Comma
    &&& toks[c].kind is RParen
    &&& toks[c + 1].kind is Arrow
    &&& base_type(toks[c + 2].kind) is Some
    &&& toks[c + 3].kind is Equals
    &&& body_tokens_at(toks, c + 4)
}

/// `r` is what the tokens of `rel_tokens_at(toks, p, n)` say.
pub open spec fn rel_fits(toks: Seq<Token>, p: int, n: int, r: RelType) -> bool {
    let c = params_close(p, n);
    &&& ident_token(toks[p]) == Some(r.name)
    &&& r.params@.len() == n
    &&& forall|j: int| 0 <= j < n ==> #[trigger] r.params@[j] == param_at(toks, p, j)
    &&& base_type(toks[c + 2].kind) == Some(r.return_type)
    &&& r.body == body_expr(toks, c + 4)
}

/// A parameter list has one length: the first `)` after it ends it.
proof fn lemma_rel_tokens_unique(toks: Seq<Token>, p: int, n1: int, n2: int)
    requires
        rel_tokens_at(toks, p, n1),
        rel_tokens_at(toks, p, n2),
    ensures
        n1 == n2,
{
    if n1 < n2 {
        if n1 == 0 {
            assert(param_token(toks, p, 0).kind is Ident);
        } else {
            assert(param_sep(toks, p, n1 - 1).kind is Comma);
        }
    }
    if n2 < n1 {
        if n2 == 0 {
            assert(param_token(toks, p, 0).kind is Ident);
        } else {
            assert(param_sep(toks, p, n2 - 1).kind is Comma);
        }
    }
}

/// The tokens from `p` to `end` are one item of a plain form: `let NAME = e;`,
/// `ent_t NAME = {A, ...};`, `rel_t NAME : (a: T, ...) -> T = e;` (where `e`
/// is a literal or a name, or `a op b` of two, and every `T` a base type),
/// or `net NAME { ... }` whose items are ports, relation instances and net
/// instances.
pub open spec fn item_tokens_at(toks: Seq<Token>, p: int, end: int) -> bool {
    match toks[p].kind {
        TokenKind::Let => {
            &&& toks[p + 1].kind is Ident
            &&& toks[p + 2].kind is Equals
            &&& body_tokens_at(toks, p + 3)
            &&& end == body_end(toks, p + 3)
        },
        TokenKind::Ent_t => exists|n: int| #[trigger] ent_tokens_at(toks, p + 1, n) && end == p + 5 + 2 * n,
        TokenKind::Rel_t => exists|n: int| #[trigger] rel_tokens_at(toks, p + 1, n)
            && end == body_end(toks, params_close(p + 1, n) + 4),
        TokenKind::NetToken => exists|st: Seq<int>, its: Seq<NetItem>|
            #[trigger] plain_net_at(toks, p + 1, st, its) && end == st.last() + 1,
        _ => false,
    }
}

/// `item` is what the plain item on the tokens from `p` to `end` says.
pub open spec fn item_fits(toks: Seq<Token>, p: int, item: Item, end: int) -> bool {
    match item {
        Item::Let(s) => ident_token(toks[p + 1]) == Some(s.name) && s.expr == body_expr(toks, p + 3),
        Item::Ent(e) => {
            &&& ident_token(toks[p + 1]) == Some(e.name)
            &&& e.expr matches EntExpr::SetEnt(members) && 2 * members@.len() == end - p - 5
            &&& ent_members_at(toks, p + 1, e.expr)
        },
        Item::Rel(r) => exists|n: int| #[trigger] rel_tokens_at(toks, p + 1, n) && rel_fits(toks, p + 1, n, r),
        Item::Net(n) => ident_token(toks[p + 1]) == Some(n.name)
            && exists|st: Seq<int>| #[trigger] plain_net_at(toks, p + 1, st, n.items@) && end == st.last() + 1,
        Item::Error => false,
    }
}

/// The tokens from `starts[0]` are plain items, item `i` running from
/// `starts[i]` to `starts[i + 1]`, and then the end of input.
pub open spec fn plain_program(toks: Seq<Token>, starts: Seq<int>) -> bool {
    &&& starts.len() >= 1
    &&& forall|i: int| 0 <= i < starts.len() - 1 ==> #[trigger] item_tokens_at(toks, starts[i], starts[i + 1])
    &&& toks[starts.last()].kind is Eof
}

/// A member list has one length: the first `}` after it ends it.
proof fn lemma_ent_tokens_unique(toks: Seq<Token>, p: int, n1: int, n2: int)
    requires
        ent_tokens_at(toks, p, n1),
        ent_tokens_at(toks, p, n2),
    ensures
        n1 == n2,
{
    if n1 < n2 {
        assert(member_sep(toks, p, n1 - 1).kind is Comma);
    }
    if n2 < n1 {
        assert(member_sep(toks, p, n2 - 1).kind is Comma);
    }
}

/// A plain item has one end.
proof fn lemma_item_end_unique(toks: Seq<Token>, p: int, e1: int, e2: int)
    requires
        item_tokens_at(toks, p, e1),
        item_tokens_at(toks, p, e2),
    ensures
        e1 == e2,
{
    if toks[p].kind is Ent_t {
        let n1 = choose|n: int| #[trigger] ent_tokens_at(toks, p + 1, n) && e1 == p + 5 + 2 * n;
        let n2 = choose|n: int| #[trigger] ent_tokens_at(toks, p + 1, n) && e2 == p + 5 + 2 * n;
        lemma_ent_tokens_unique(toks, p + 1, n1, n2);
    }
    if toks[p].kind is Rel_t {
        let n1 = choose|n: int| #[trigger] rel_tokens_at(toks, p + 1, n) && e1 == body_end(toks, params_close(p + 1, n) + 4);
        let n2 = choose|n: int| #[trigger] rel_tokens_at(toks, p + 1, n) && e2 == body_end(toks, params_close(p + 1, n) + 4);
        lemma_rel_tokens_unique(toks, p + 1, n1, n2);
    }
    if toks[p].kind is NetToken {
        let (st1, its1) = choose|st: Seq<int>, its: Seq<NetItem>| #[trigger] plain_net_at(toks, p + 1, st, its) && e1 == st.last() + 1;
        let (st2, its2) = choose|st: Seq<int>, its: Seq<NetItem>| #[trigger] plain_net_at(toks, p + 1, st, its) && e2 == st.last() + 1;
        lemma_plain_net_unique(toks, p + 1, st1, its1, st2, its2);
    }
}

/// Two plain readings of the tokens that start at one place agree up to `i`.
proof fn lemma_plain_prefix(toks: Seq<Token>, s1: Seq<int>, s2: Seq<int>, i: int)
    requires
        plain_program(toks, s1),
        plain_program(toks, s2),
        s1[0] == s2[0],
        0 <= i < s1.len(),
        i < s2.len(),
    ensures
        forall|j: int| 0 <= j <= i ==> s1[j] == s2[j],
    decreases i,
{
    if i > 0 {
        let j = i - 1;
        lemma_plain_prefix(toks, s1, s2, j);
        assert(item_tokens_at(toks, s1[j], s1[j + 1]));
        assert(item_tokens_at(toks, s2[j], s2[j + 1]));
        lemma_item_end_unique(toks, s1[j], s1[j + 1], s2[j + 1]);
    }
}

/// The tokens from one place have at most one plain reading.
proof fn lemma_plain_program_unique(toks: Seq<Token>, s1: Seq<int>, s2: Seq<int>)
    requires
        plain_program(toks, s1),
        plain_program(toks, s2),
        s1[0] == s2[0],
    ensures
        s1 == s2,
{
    if s1.len() < s2.len() {
        let k = s1.len() - 1;
        lemma_plain_prefix(toks, s1, s2, k);
        assert(item_tokens_at(toks, s2[k], s2[k + 1]));
    } else if s2.len() < s1.len() {
        let k = s2.len() - 1;
        lemma_plain_prefix(toks, s1, s2, k);
        assert(item_tokens_at(toks, s1[k], s1[k + 1]));
    } else {
        lemma_plain_prefix(toks, s1, s2, s1.len() - 1);
        assert(s1 =~= s2);
    }
}

impl Parser {
    /// A whole program: items up to the end of input. A broken item stands as `Item::Error`.
    #[verifier::rlimit(40)]
    pub fn parse(&mut self) -> (program: Program)
        requires
            old(self).wf(),
        ensures
            old(self).steps_to(final(self)),
            final(self).cur_kind() is Eof,
            final(self).errs().len() == old(self).errs().len() ==>
                forall|i: int| 0 <= i < program.items@.len() ==> item_clean(#[trigger] program.items@[i]),
            forall|i: int| 0 <= i < program.items@.len() ==> item_untyped(#[trigger] program.items@[i]),
            exists|starts: Seq<int>| #[trigger] items_cover(old(self).toks(), starts, program.items@, old(self).pos(), final(self).pos()),
            forall|starts: Seq<int>| #[trigger] plain_program(old(self).toks(), starts) && starts[0] == old(self).pos() ==> {
                &&& final(self).errs() == old(self).errs()
                &&& program.items@.len() == starts.len() - 1
                &&& forall|i: int| 0 <= i < program.items@.len() ==>
                    item_fits(old(self).toks(), starts[i], #[trigger] program.items@[i], starts[i + 1])
            },
    {
        let ghost start = *self;
        let ghost toks = start.toks();
        let ghost plain = exists|st: Seq<int>| #[trigger] plain_program(toks, st) && st[0] == start.pos();
        let ghost st0 = choose|st: Seq<int>| #[trigger] plain_program(toks, st) && st[0] == start.pos();
        proof {
            super::lemma_steps_refl(self);
        }
        let mut items: Vec<Item> = Vec::new();
        let ghost mut starts: Seq<int> = seq![start.pos()];
        while !matches!(self.peek().kind, TokenKind::Eof)
            invariant
                start == *old(self),
                toks == start.toks(),
                start.steps_to(self),
                plain ==> plain_program(toks, st0) && st0[0] == start.pos(),
                plain ==> items@.len() < st0.len() && st0[items@.len() as int] == self.pos()
                    && self.errs() == start.errs(),
                plain ==> forall|i: int| 0 <= i < items@.len() ==>
                    item_fits(toks, st0[i], #[trigger] items@[i], st0[i + 1]),
                items_cover(start.toks(), starts, items@, start.pos(), self.pos()),
                self.errs().len() == start.errs().len() ==>
                    forall|i: int| 0 <= i < items@.len() ==> item_clean(#[trigger] items@[i]),
                forall|i: int| 0 <= i < items@.len() ==> item_untyped(#[trigger] items@[i]),
            decreases self.remaining(),
        {
            let ghost t0 = *self;
            let ghost items0 = items@;
            let ghost starts0 = starts;
            proof {
                if plain {
                    let k = items0.len() as int;
                    if k == st0.len() - 1 {
                        assert(toks[st0.last()].kind is Eof);
                    }
                    assert(item_tokens_at(toks, st0[k], st0[k + 1]));
                }
            }
            let item = self.parse_item();
            proof {
                lemma_steps_trans(&start, &t0, self);
            }
            items.push(item);
            proof {
                if plain {
                    let k = items0.len() as int;
                    assert(item_fits(toks, st0[k], item, st0[k + 1]));
                    assert forall|i: int| 0 <= i < items@.len() implies
                        item_fits(toks, st0[i], #[trigger] items@[i], st0[i + 1]) by {
                        if i < k {
                            assert(items@[i] == items0[i]);
                        }
                    }
                }
                starts = starts.push(self.pos());
                assert(starts0.last() == t0.pos());
                assert(t0.toks() == start.toks());
                assert(t0.cur_kind() == start.toks()[t0.pos()].kind);
                assert forall|i: int| 0 <= i < items@.len() implies #[trigger] starts[i] < starts[i + 1] by {
                    if i < items0.len() {
                        assert(starts[i] == starts0[i]);
                        assert(starts[i + 1] == starts0[i + 1]);
                    } else {
                        assert(starts[i] == starts0.last());
                    }
                }
                assert forall|i: int| 0 <= i < items@.len() implies item_begins(#[trigger] items@[i], start.toks()[starts[i]].kind) by {
                    if i < items0.len() {
                        assert(items@[i] == items0[i]);
                        assert(starts[i] == starts0[i]);
                    } else {
                        assert(starts[i] == starts0.last());
                    }
                }
                assert(starts.len() == items@.len() + 1);
                assert(starts[0] == start.pos());
                assert(starts.last() == self.pos());
                assert(items_cover(start.toks(), starts, items@, start.pos(), self.pos()));
            }
        }
        let program = Program { items };
        proof {
            assert(items_cover(start.toks(), starts, program.items@, start.pos(), self.pos()));
            if plain {
                let k = program.items@.len() as int;
                if k < st0.len() - 1 {
                    assert(item_tokens_at(toks, st0[k], st0[k + 1]));
                }
                assert forall|st: Seq<int>| #[trigger] plain_program(toks, st) && st[0] == start.pos() implies st == st0 by {
                    lemma_plain_program_unique(toks, st, st0);
                }
            }
        }
        program
    }

    /// One top-level item; a broken one is reported and gives `Item::Error`.
    pub fn parse_item(&mut self) -> (item: Item)
        requires
            old(self).wf(),
            !(old(self).cur_kind() is Eof),
        ensures
            old(self).steps_to(final(self)),
            final(self).pos() > old(self).pos(),
            item is Error ==> final(self).errs().len() > old(self).errs().len(),
            final(self).errs().len() == old(self).errs().len() ==> item_clean(item),
            item_untyped(item),
            item_begins(item, old(self).cur_kind()),
            forall|end: int| #[trigger] item_tokens_at(old(self).toks(), old(self).pos(), end) ==>
                item_fits(old(self).toks(), old(self).pos(), item, end)
                && final(self).errs() == old(self).errs() && final(self).pos() == end,
    {
        let ghost start = *self;
        let ghost toks = start.toks();
        let ghost p = start.pos();
        let k = self.peek().kind.duplicate();
        match k {
            TokenKind::Let => {
                self.next();
                let ghost s1 = *self;
                let r = self.parse_let_stmt();
                proof {
                    lemma_steps_trans(&start, &s1, self);
                    let end = body_end(toks, p + 3);
                    if item_tokens_at(toks, p, end) {
                        let s0 = LetStatement { name: ident_token(toks[p + 1])->0, expr: body_expr(toks, p + 3) };
                        assert(simple_let_at(toks, p + 1, s0, end));
                    }
                }
                match r {
                    Some(l) => Item::Let(l),
                    None => Item::Error,
                }
            }
            TokenKind::Ent_t => {
                self.next();
                let ghost s1 = *self;
                let r = self.parse_ent();
                proof {
                    lemma_steps_trans(&start, &s1, self);
                }
                match r {
                    Some(e) => Item::Ent(e),
                    None => Item::Error,
                }
            }
            TokenKind::Rel_t => {
                self.next();
                let ghost s1 = *self;
                let r = self.parse_rel();
                proof {
                    lemma_steps_trans(&start, &s1, self);
                    assert forall|end: int| #[trigger] item_tokens_at(toks, p, end) implies (r matches Some(x)
                        && exists|n: int| #[trigger] rel_tokens_at(toks, p + 1, n) && rel_fits(toks, p + 1, n, x)) by {
                        let n = choose|n: int| #[trigger] rel_tokens_at(toks, p + 1, n)
                            && end == body_end(toks, params_close(p + 1, n) + 4);
                        assert(rel_tokens_at(toks, p + 1, n));
                    }
                }
                match r {
                    Some(rel) => Item::Rel(rel),
                    None => Item::Error,
                }
            }
            TokenKind::NetToken => {
                self.next();
                let ghost s1 = *self;
                let r = self.parse_net();
                proof {
                    lemma_steps_trans(&start, &s1, self);
                    assert forall|end: int| #[trigger] item_tokens_at(toks, p, end) implies (r matches Some(n)
                        && exists|st: Seq<int>| #[trigger] plain_net_at(toks, p + 1, st, n.items@) && end == st.last() + 1) by {
                        let (st, its) = choose|st: Seq<int>, its: Seq<NetItem>|
                            #[trigger] plain_net_at(toks, p + 1, st, its) && end == st.last() + 1;
                        if let Some(n) = r {
                            assert(plain_net_at(toks, p + 1, st, n.items@));
                        }
                    }
                }
                match r {
                    Some(n) => Item::Net(n),
                    None => Item::Error,
                }
            }
            _ => {
                let found = self.peek().duplicate();
                self.report_unexpected(super::expect_list(&[
                    Expected::Token(TokenKind::Let),
                    Expected::Token(TokenKind::Ent_t),
                    Expected::Token(TokenKind::Rel_t),
                    Expected::Token(TokenKind::NetToken),
                ]), &found);
                let ghost s1 = *self;
                assert(s1.cur_kind() == start.cur_kind());
                self.sync_item();
                proof {
                    lemma_steps_trans(&start, &s1, self);
                }
                Item::Error
            }
        }
    }

    /// After `ent_t`: `NAME = {A, B, ...};` or `NAME = Mod(n);`.
    pub fn parse_ent(&mut self) -> (r: Option<EntType>)
        requires
            old(self).wf(),
        ensures
            old(self).steps_to(final(self)),
            r is Some <==> final(self).errs().len() == old(self).errs().len(),
            r matches Some(e) ==> ident_token(old(self).toks()[old(self).pos()]) == Some(e.name),
            ident_token(old(self).toks()[old(self).pos()]) is None ==> r is None,
            r matches Some(e) ==> ent_members_at(old(self).toks(), old(self).pos(), e.expr),
            forall|n: int| #[trigger] ent_tokens_at(old(self).toks(), old(self).pos(), n) ==>
                (r matches Some(e) && (e.expr matches EntExpr::SetEnt(m) && m@.len() == n))
                && final(self).errs() == old(self).errs() && final(self).pos() == old(self).pos() + 4 + 2 * n,
    {
        let ghost start = *self;
        let ghost p = start.pos();
        let ghost toks = start.toks();
        let ghost plain = exists|n: int| #[trigger] ent_tokens_at(toks, p, n);
        let ghost n0 = choose|n: int| #[trigger] ent_tokens_at(toks, p, n);
        let rule = SyncRule::Item;
        let name = match self.expect_ident(&rule) {
            Some(n) => n,
            None => return None,
        };
        let ghost s1 = *self;
        let eq = self.expect(TokenKind::Equals, &rule);
        let ghost s2 = *self;
        proof {
            lemma_steps_trans(&start, &s1, &s2);
        }
        if eq.is_none() {
            return None;
        }
        let expr = if matches!(self.peek().kind, TokenKind::LBrace) {
            self.next();
            let ghost s3 = *self;
            proof {
                lemma_steps_trans(&start, &s2, &s3);
            }
            let mut members: Vec<Ident> = Vec::new();
            proof {
                assert(self.pos() == p + 3);
            }
            while !matches!(self.peek().kind, TokenKind::RBrace)
                invariant_except_break
                    self.pos() == p + 3 + 2 * members@.len(),
                    plain ==> members@.len() < n0 && member_token(toks, p, members@.len() as int).kind is Ident,
                invariant
                    plain == exists|n: int| #[trigger] ent_tokens_at(toks, p, n),
                    plain ==> ent_tokens_at(toks, p, n0),
                    start == *old(self),
                    p == start.pos(),
                    toks == start.toks(),
                    start.steps_to(self),
                    self.errs().len() == start.errs().len(),
                    forall|j: int| 0 <= j < members@.len() ==> ident_token(toks[p + 3 + 2 * j]) == Some(#[trigger] members@[j]),
                ensures
                    plain ==> members@.len() == n0 && self.pos() == p + 2 + 2 * n0,
                decreases self.remaining(),
            {
                let ghost t0 = *self;
                let ghost m0 = members@;
                let m = self.expect_ident(&rule);
                let ghost t1 = *self;
                proof {
                    lemma_steps_trans(&start, &t0, &t1);
                }
                match m {
                    Some(m) => members.push(m),
                    None => return None,
                }
                proof {
                    assert forall|j: int| 0 <= j < members@.len() implies ident_token(toks[p + 3 + 2 * j]) == Some(#[trigger] members@[j]) by {
                        if j < m0.len() {
                            assert(members@[j] == m0[j]);
                        }
                    }
                }
                if matches!(self.peek().kind, TokenKind::Comma) {
                    self.next();
                    proof {
                        lemma_steps_trans(&start, &t1, self);
                        if plain {
                            let k = m0.len() as int;
                            if k == n0 - 1 {
                                assert(toks[p + 2 + 2 * n0].kind is RBrace);
                            }
                            assert(member_token(toks, p, k + 1).kind is Ident);
                        }
                    }
                } else {
                    proof {
                        if plain {
                            let k = m0.len() as int;
                            if k < n0 - 1 {
                                assert(member_sep(toks, p, k).kind is Comma);
                            }
                        }
                    }
                    break;
                }
            }
            let ghost s4 = *self;
            let close = self.expect(TokenKind::RBrace, &rule);
            proof {
                lemma_steps_trans(&start, &s4, self);
            }
            if close.is_none() {
                return None;
            }
            EntExpr::SetEnt(members)
        } else if matches!(self.peek().kind, TokenKind::Mod) {
            self.next();
            let ghost s3 = *self;
            proof {
                lemma_steps_trans(&start, &s2, &s3);
            }
            let lp = self.expect(TokenKind::LParen, &rule);
            let ghost s4 = *self;
            proof {
                lemma_steps_trans(&start, &s3, &s4);
            }
            if lp.is_none() {
                return None;
            }
            let n = self.expect_int(&rule);
            let ghost s5 = *self;
            proof {
                lemma_steps_trans(&start, &s4, &s5);
            }
            let n = match n {
                Some(n) => n,
                None => return None,
            };
            let rp = self.expect(TokenKind::RParen, &rule);
            proof {
                lemma_steps_trans(&start, &s5, self);
            }
            if rp.is_none() {
                return None;
            }
            EntExpr::Mod(n)
        } else {
            let found = self.peek().duplicate();
            self.report_unexpected(super::expect_list(&[
                Expected::Token(TokenKind::LBrace),
                Expected::Token(TokenKind::Mod),
            ]), &found);
            let ghost s3 = *self;
            proof {
                lemma_steps_trans(&start, &s2, &s3);
            }
            self.sync(&rule);
            proof {
                lemma_steps_trans(&start, &s3, self);
            }
            return None;
        };
        let ghost s6 = *self;
        let semi = self.expect(TokenKind::Semicolon, &rule);
        proof {
            lemma_steps_trans(&start, &s6, self);
            assert forall|n: int| #[trigger] ent_tokens_at(toks, p, n) implies n == n0 by {
                lemma_ent_tokens_unique(toks, p, n, n0);
            }
        }
        match semi {
            Some(_) => Some(EntType { name, expr }),
            None => None,
        }
    }

    /// After `rel_t`: `NAME : (p: T, ...) -> T = body;`. A broken body stands as `Expr::Error`.
    pub fn parse_rel(&mut self) -> (r: Option<RelType>)
        requires
            old(self).wf(),
        ensures
            old(self).steps_to(final(self)),
            r is None ==> final(self).errs().len() > old(self).errs().len(),
            final(self).errs().len() == old(self).errs().len() ==> (r matches Some(rel) && expr_clean(rel.body)),
            r matches Some(rel) ==> expr_untyped(rel.body),
            r matches Some(rel) ==> ident_token(old(self).toks()[old(self).pos()]) == Some(rel.name),
            ident_token(old(self).toks()[old(self).pos()]) is None ==> r is None,
            ident_token(old(self).toks()[old(self).pos()]) is Some && !(old(self).toks()[old(self).pos() + 1].kind is Colon)
                ==> r is None && final(self).errs().len() == old(self).errs().len() + 1
                && is_unexpected(final(self).errs()[old(self).errs().len() as int], seq![Expected::Token(TokenKind::Colon)],
                    old(self).toks()[old(self).pos() + 1]),
            forall|n: int| #[trigger] rel_tokens_at(old(self).toks(), old(self).pos(), n) ==>
                (r matches Some(x) && rel_fits(old(self).toks(), old(self).pos(), n, x))
                && final(self).errs() == old(self).errs()
                && final(self).pos() == body_end(old(self).toks(), params_close(old(self).pos(), n) + 4),
    {
        let ghost start = *self;
        let ghost toks = start.toks();
        let ghost p0 = start.pos();
        let ghost plain = exists|n: int| #[trigger] rel_tokens_at(toks, p0, n);
        let ghost n0 = choose|n: int| #[trigger] rel_tokens_at(toks, p0, n);
        let rule = SyncRule::Item;
        let name = match self.expect_ident(&rule) {
            Some(n) => n,
            None => return None,
        };
        let ghost s1 = *self;
        let colon = self.expect(TokenKind::Colon, &rule);
        let ghost s2 = *self;
        proof {
            lemma_steps_trans(&start, &s1, &s2);
        }
        if colon.is_none() {
            return None;
        }
        assert(start.toks()[start.pos() + 1].kind is Colon);
        let lp = self.expect(TokenKind::LParen, &rule);
        let ghost s3 = *self;
        proof {
            lemma_steps_trans(&start, &s2, &s3);
        }
        if lp.is_none() {
            return None;
        }
        let mut params: Vec<Param> = Vec::new();
        while !matches!(self.peek().kind, TokenKind::RParen)
            invariant_except_break
                plain ==> self.pos() == p0 + 3 + 4 * params@.len(),
                plain && n0 == 0 ==> params@.len() == 0,
                plain && n0 > 0 ==> params@.len() < n0 && param_token(toks, p0, params@.len() as int).kind is Ident,
            invariant
                start == *old(self),
                toks == start.toks() && p0 == start.pos(),
                start.toks()[start.pos() + 1].kind is Colon,
                start.steps_to(self),
                self.errs().len() == start.errs().len(),
                plain == exists|n: int| #[trigger] rel_tokens_at(toks, p0, n),
                plain ==> rel_tokens_at(toks, p0, n0),
                plain ==> self.errs() == start.errs() && params@.len() <= n0,
                plain ==> forall|j: int| 0 <= j < params@.len() ==> #[trigger] params@[j] == param_at(toks, p0, j),
            ensures
                plain ==> params@.len() == n0 && self.pos() == params_close(p0, n0),
            decreases self.remaining(),
        {
            let ghost t0 = *self;
            let ghost ps0 = params@;
            proof {
                if plain {
                    let k = ps0.len() as int;
                    assert(param_token(toks, p0, k) == toks[t0.pos()]);
                }
            }
            let p = self.parse_param(&rule);
            let ghost t1 = *self;
            proof {
                lemma_steps_trans(&start, &t0, &t1);
            }
            match p {
                Some(p) => params.push(p),
                None => return None,
            }
            proof {
                if plain {
                    let k = ps0.len() as int;
                    assert(params@[k] == param_at(toks, p0, k));
                    assert forall|j: int| 0 <= j < params@.len() implies #[trigger] params@[j] == param_at(toks, p0, j) by {
                        if j < k {
                            assert(params@[j] == ps0[j]);
                        }
                    }
                }
            }
            if matches!(self.peek().kind, TokenKind::Comma) {
                self.next();
                proof {
                    lemma_steps_trans(&start, &t1, self);
                    if plain {
                        let k = ps0.len() as int;
                        if k == n0 - 1 {
                            assert(toks[params_close(p0, n0)].kind is RParen);
                        }
                        assert(param_token(toks, p0, k + 1).kind is Ident);
                    }
                }
            } else {
                proof {
                    if plain {
                        let k = ps0.len() as int;
                        if k < n0 - 1 {
                            assert(param_sep(toks, p0, k).kind is Comma);
                        }
                    }
                }
                break;
            }
        }
        let ghost s4 = *self;
        let rp = self.expect(TokenKind::RParen, &rule);
        let ghost s5 = *self;
        proof {
            lemma_steps_trans(&start, &s4, &s5);
        }
        if rp.is_none() {
            return None;
        }
        let arrow = self.expect(TokenKind::Arrow, &rule);
        let ghost s6 = *self;
        proof {
            lemma_steps_trans(&start, &s5, &s6);
        }
        if arrow.is_none() {
            return None;
        }
        let return_type = self.parse_type(&rule);
        let ghost s7 = *self;
        proof {
            lemma_steps_trans(&start, &s6, &s7);
        }
        let return_type = match return_type {
            Some(t) => t,
            None => return None,
        };
        let eq = self.expect(TokenKind::Equals, &rule);
        let ghost s8 = *self;
        proof {
            lemma_steps_trans(&start, &s7, &s8);
        }
        if eq.is_none() {
            return None;
        }
        let body = self.parse_expr(0);
        let ghost s9 = *self;
        proof {
            lemma_steps_trans(&start, &s8, &s9);
        }
        let body = match body {
            Some(e) => e,
            None => Expr::Error,
        };
        let semi = self.expect(TokenKind::Semicolon, &rule);
        proof {
            lemma_steps_trans(&start, &s9, self);
            if plain {
                let c = params_close(p0, n0);
                if toks[c + 5].kind is Semicolon {
                    assert(lone_atom(toks, c + 4, 0));
                } else {
                    assert(lone_binary(toks, c + 4, 0));
                }
                assert(s8.pos() == c + 4);
                assert forall|n: int| #[trigger] rel_tokens_at(toks, p0, n) implies n == n0 by {
                    lemma_rel_tokens_unique(toks, p0, n, n0);
                }
            }
        }
        match semi {
            Some(_) => Some(RelType { name, params, return_type, body }),
            None => None,
        }
    }
}

} // verus!
