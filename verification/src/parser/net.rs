//! Net bodies: ports, initialized entities, relation instances and net instances.

use vstd::prelude::*;
use super::Parser;
use super::sync::{SyncRule, starts_inst};
use super::{ident_token, lemma_steps_trans};
use super::item::base_type;
use crate::ast::{Connection, EntInit, Expr, Ident, Net, NetInst, NetItem, Param, RelInst, expr_clean, net_clean, net_item_clean, expr_untyped};
use crate::diagnostics::Expected;
use crate::token::{Token, TokenKind};

verus! {

impl Parser {
    /// After `net`: `NAME { items }`. A broken item stands as `NetItem::Error`.
    pub fn parse_net(&mut self) -> (r: Option<Net>)
        requires
            old(self).wf(),
        ensures
            old(self).steps_to(final(self)),
            r is None ==> final(self).errs().len() > old(self).errs().len(),
            final(self).errs().len() == old(self).errs().len() ==> (r matches Some(n) && net_clean(n)),
            r matches Some(n) ==> forall|i: int| 0 <= i < n.items.len() ==> (#[trigger] n.items@[i] matches NetItem::Init(init)
                ==> expr_untyped(init.val)),
            r matches Some(n) ==> {
                &&& ident_token(old(self).toks()[old(self).pos()]) == Some(n.name)
                &&& old(self).toks()[old(self).pos() + 1].kind is LBrace
                &&& final(self).pos() >= old(self).pos() + 3
                &&& final(self).toks()[final(self).pos() - 1].kind is RBrace
            },
            ident_token(old(self).toks()[old(self).pos()]) is None ==> r is None,
            forall|starts: Seq<int>, items: Seq<NetItem>| #[trigger] plain_net_at(old(self).toks(), old(self).pos(), starts, items) ==>
                (r matches Some(n) && n.items@.len() == items.len()
                    && forall|i: int| 0 <= i < items.len() ==>
                        net_item_at(old(self).toks(), starts[i], #[trigger] n.items@[i], starts[i + 1]))
                && final(self).errs() == old(self).errs() && final(self).pos() == starts.last() + 1,
    {
        let ghost start = *self;
        let ghost toks = start.toks();
        let ghost p = start.pos();
        let ghost shaped = exists|st: Seq<int>, its: Seq<NetItem>| #[trigger] plain_net_at(toks, p, st, its);
        let ghost (st0, it0) = choose|st: Seq<int>, its: Seq<NetItem>| #[trigger] plain_net_at(toks, p, st, its);
        let name = match self.expect_ident(&SyncRule::Item) {
            Some(n) => n,
            None => return None,
        };
        let ghost s1 = *self;
        let open = self.expect(TokenKind::LBrace, &SyncRule::Item);
        proof {
            lemma_steps_trans(&start, &s1, self);
        }
        if open.is_none() {
            return None;
        }
        let mut items: Vec<NetItem> = Vec::new();
        while !matches!(self.peek().kind, TokenKind::RBrace) && !matches!(self.peek().kind, TokenKind::Eof)
            invariant
                start == *old(self),
                start.steps_to(self),
                toks == start.toks() && p == start.pos(),
                shaped ==> plain_net_at(toks, p, st0, it0),
                shaped ==> items@.len() <= it0.len() && st0[items@.len() as int] == self.pos()
                    && self.errs() == start.errs(),
                shaped ==> forall|i: int| 0 <= i < items@.len() ==>
                    net_item_at(toks, st0[i], #[trigger] items@[i], st0[i + 1]),
                self.errs().len() == start.errs().len() ==>
                    forall|i: int| 0 <= i < items@.len() ==> net_item_clean(#[trigger] items@[i]),
                forall|i: int| 0 <= i < items@.len() ==> (#[trigger] items@[i] matches NetItem::Init(init)
                    ==> expr_untyped(init.val)),
            decreases self.remaining(),
        {
            let ghost t0 = *self;
            let ghost items0 = items@;
            proof {
                if shaped {
                    let k = items0.len() as int;
                    if k == it0.len() {
                        assert(toks[st0.last()].kind is RBrace);
                    }
                    assert(net_item_at(toks, st0[k], it0[k], st0[k + 1]));
                }
            }
            let item = self.parse_net_item();
            proof {
                lemma_steps_trans(&start, &t0, self);
            }
            items.push(match item {
                Some(item) => item,
                None => NetItem::Error,
            });
            proof {
                if shaped {
                    let k = items0.len() as int;
                    assert(net_item_at(toks, st0[k], items@[k], st0[k + 1]));
                    assert forall|i: int| 0 <= i < items@.len() implies
                        net_item_at(toks, st0[i], #[trigger] items@[i], st0[i + 1]) by {
                        if i < k {
                            assert(items@[i] == items0[i]);
                        }
                    }
                }
            }
        }
        proof {
            if shaped {
                let k = items@.len() as int;
                if k < it0.len() {
                    assert(net_item_at(toks, st0[k], it0[k], st0[k + 1]));
                }
            }
        }
        let ghost s2 = *self;
        assert(s2.toks() == start.toks());
        let close = self.expect(TokenKind::RBrace, &SyncRule::Item);
        proof {
            lemma_steps_trans(&start, &s2, self);
        }
        proof {
            if shaped {
                assert forall|st: Seq<int>, its: Seq<NetItem>| #[trigger] plain_net_at(toks, p, st, its)
                    implies st == st0 && its.len() == it0.len() by {
                    lemma_plain_net_unique(toks, p, st, its, st0, it0);
                }
            }
        }
        match close {
            Some(_) => Some(Net { name, items }),
            None => None,
        }
    }

    /// One item of a net body: `input p: T;`, `output p: T;`, `init p: T = e;`,
    /// `x := REL(args);` or `NET { port := x, ... };`.
    pub fn parse_net_item(&mut self) -> (r: Option<NetItem>)
        requires
            old(self).wf(),
        ensures
            old(self).steps_to(final(self)),
            r is None ==> final(self).errs().len() > old(self).errs().len(),
            final(self).errs().len() == old(self).errs().len() ==> (r matches Some(i) && net_item_clean(i)),
            r matches Some(i) ==> (i matches NetItem::Init(init) ==> expr_untyped(init.val)),
            !(old(self).cur_kind() is Eof) && !(old(self).cur_kind() is RBrace) ==> final(self).pos() > old(self).pos(),
            forall|it: NetItem, end: int| #[trigger] net_item_at(old(self).toks(), old(self).pos(), it, end) ==>
                (r matches Some(x) && net_item_at(old(self).toks(), old(self).pos(), x, end))
                && final(self).errs() == old(self).errs() && final(self).pos() == end,
    {
        let ghost start = *self;
        let ghost toks = start.toks();
        let ghost p = start.pos();
        let k = self.peek().kind.duplicate();
        match k {
            TokenKind::Input | TokenKind::Output => {
                let is_input = matches!(k, TokenKind::Input);
                self.next();
                let ghost s1 = *self;
                let param = self.parse_param(&SyncRule::Inst { depth: 0 });
                let ghost s2 = *self;
                proof {
                    lemma_steps_trans(&start, &s1, &s2);
                }
                let param = match param {
                    Some(p) => p,
                    None => return None,
                };
                let semi = self.expect(TokenKind::Semicolon, &SyncRule::Inst { depth: 0 });
                proof {
                    lemma_steps_trans(&start, &s2, self);
                }
                match semi {
                    Some(_) => Some(if is_input { NetItem::Input(param) } else { NetItem::Output(param) }),
                    None => None,
                }
            }
            TokenKind::Init => {
                self.next();
                let ghost s1 = *self;
                let init = self.parse_init_ent();
                proof {
                    lemma_steps_trans(&start, &s1, self);
                }
                match init {
                    Some(i) => Some(NetItem::Init(i)),
                    None => None,
                }
            }
            TokenKind::Ident(_) => {
                proof {
                    assert(p != toks.len() - 1);
                }
                if matches!(self.peek_n(1).kind, TokenKind::Connect) {
                    let r = self.parse_rel_inst();
                    proof {
                        assert forall|it: NetItem, end: int| #[trigger] net_item_at(toks, p, it, end) implies
                            it is RelInst && rel_inst_at(toks, p, it->RelInst_0, end) by {
                        }
                    }
                    match r {
                        Some(r) => Some(NetItem::RelInst(r)),
                        None => None,
                    }
                } else {
                    let n = self.parse_net_inst();
                    proof {
                        assert forall|it: NetItem, end: int| #[trigger] net_item_at(toks, p, it, end) implies
                            it is NetInst && net_inst_closed(toks, p, it->NetInst_0, end) by {
                        }
                    }
                    match n {
                        Some(n) => Some(NetItem::NetInst(n)),
                        None => None,
                    }
                }
            }
            _ => {
                let found = self.peek().duplicate();
                self.report_unexpected(super::expect_list(&[
                    Expected::Token(TokenKind::Input),
                    Expected::Token(TokenKind::Output),
                    Expected::Token(TokenKind::Init),
                    Expected::Ident,
                ]), &found);
                let ghost s1 = *self;
                assert(s1.cur_kind() == start.cur_kind());
                assert(!starts_inst(s1.cur_kind()));
                self.sync_inst(0);
                proof {
                    lemma_steps_trans(&start, &s1, self);
                }
                None
            }
        }
    }

    /// After `init`: `name: Type = expr;`. A broken value stands as `Expr::Error`.
    pub fn parse_init_ent(&mut self) -> (r: Option<EntInit>)
        requires
            old(self).wf(),
        ensures
            old(self).steps_to(final(self)),
            r is None ==> final(self).errs().len() > old(self).errs().len(),
            final(self).errs().len() == old(self).errs().len() ==> (r matches Some(i) && expr_clean(i.val)),
            r matches Some(i) ==> expr_untyped(i.val),
    {
        let ghost start = *self;
        let param = match self.parse_param(&SyncRule::Inst { depth: 0 }) {
            Some(p) => p,
            None => return None,
        };
        let ghost s1 = *self;
        let eq = self.expect(TokenKind::Equals, &SyncRule::Inst { depth: 0 });
        let ghost s2 = *self;
        proof {
            lemma_steps_trans(&start, &s1, &s2);
        }
        if eq.is_none() {
            return None;
        }
        let e = self.parse_expr(0);
        let ghost s3 = *self;
        proof {
            lemma_steps_trans(&start, &s2, &s3);
        }
        let val = match e {
            Some(e) => e,
            None => Expr::Error,
        };
        let semi = self.expect(TokenKind::Semicolon, &SyncRule::Inst { depth: 0 });
        proof {
            lemma_steps_trans(&start, &s3, self);
        }
        match semi {
            Some(_) => Some(EntInit { param, val }),
            None => None,
        }
    }

    /// `asignee := REL(arg, ...);`
    pub fn parse_rel_inst(&mut self) -> (r: Option<RelInst>)
        requires
            old(self).wf(),
        ensures
            old(self).steps_to(final(self)),
            r is Some <==> final(self).errs().len() == old(self).errs().len(),
            old(self).cur_kind() is Ident ==> final(self).pos() > old(self).pos(),
            r matches Some(ri) ==> rel_inst_at(old(self).toks(), old(self).pos(), ri, final(self).pos()),
            forall|ri: RelInst, end: int| #[trigger] rel_inst_at(old(self).toks(), old(self).pos(), ri, end)
                ==> (r matches Some(x) && x.asignee == ri.asignee && x.rel == ri.rel && x.args@ == ri.args@)
                    && final(self).errs() == old(self).errs() && final(self).pos() == end,
    {
        let ghost start = *self;
        let ghost p = start.pos();
        let ghost toks = start.toks();
        let ghost shape = exists|ri: RelInst, end: int| #[trigger] rel_inst_at(toks, p, ri, end);
        let ghost (gri, gend) = choose|ri: RelInst, end: int| #[trigger] rel_inst_at(toks, p, ri, end);
        let ghost gn = gri.args@.len();
        let rule = SyncRule::Inst { depth: 0 };
        let asignee = match self.expect_ident(&rule) {
            Some(n) => n,
            None => return None,
        };
        let ghost s1 = *self;
        let connect = self.expect(TokenKind::Connect, &rule);
        let ghost s2 = *self;
        proof {
            lemma_steps_trans(&start, &s1, &s2);
        }
        if connect.is_none() {
            return None;
        }
        let rel = match self.expect_ident(&rule) {
            Some(n) => n,
            None => {
                proof {
                    lemma_steps_trans(&start, &s2, self);
                }
                return None;
            }
        };
        let ghost s3 = *self;
        proof {
            lemma_steps_trans(&start, &s2, &s3);
        }
        let lparen = self.expect(TokenKind::LParen, &rule);
        let ghost s4 = *self;
        proof {
            lemma_steps_trans(&start, &s3, &s4);
        }
        if lparen.is_none() {
            return None;
        }
        proof {
            assert(ident_token(toks[p]) == Some(asignee));
            assert(toks[p + 1].kind is Connect);
            assert(ident_token(toks[p + 2]) == Some(rel));
            assert(toks[p + 3].kind is LParen);
            assert(s4.pos() == p + 4);
        }
        let mut args: Vec<Ident> = Vec::new();
        proof {
            if shape {
                assert(ident_token(toks[p]) == Some(gri.asignee));
                if gn > 0 {
                    assert(ident_token(toks[p + 4 + 2 * 0]) == Some(gri.args@[0]));
                } else {
                    assert(gend == p + 6);
                }
            }
        }
        while !matches!(self.peek().kind, TokenKind::RParen)
            invariant_except_break
                self.pos() == p + 4 + 2 * args@.len(),
                forall|j: int| 0 <= j < args@.len() ==> (#[trigger] toks[p + 5 + 2 * j]).kind is Comma,
                shape && args@.len() == gn ==> gend == p + 2 * gn + 6,
                shape && args@.len() < gn ==> self.cur_kind() is Ident,
            invariant
                gn == gri.args@.len(),
                shape == exists|ri: RelInst, end: int| #[trigger] rel_inst_at(toks, p, ri, end),
                shape ==> rel_inst_at(toks, p, gri, gend),
                shape ==> args@.len() <= gn && forall|j: int| 0 <= j < args@.len() ==> #[trigger] args@[j] == gri.args@[j],
                start == *old(self),
                p == start.pos(),
                toks == start.toks(),
                start.steps_to(self),
                self.errs().len() == start.errs().len(),
                self.pos() > start.pos(),
                forall|j: int| 0 <= j < args@.len() ==> ident_token(toks[p + 4 + 2 * j]) == Some(#[trigger] args@[j]),
                forall|j: int| 0 <= j < args@.len() - 1 ==> (#[trigger] toks[p + 5 + 2 * j]).kind is Comma,
            ensures
                (self.pos() == p + 4 + 2 * args@.len() && self.cur_kind() is RParen
                    && forall|j: int| 0 <= j < args@.len() ==> (#[trigger] toks[p + 5 + 2 * j]).kind is Comma)
                || (args@.len() > 0 && self.pos() == p + 3 + 2 * args@.len() && !(self.cur_kind() is Comma)),
                shape ==> args@.len() == gn && self.pos() == gend - 2,
            decreases self.remaining(),
        {
            let ghost t0 = *self;
            let ghost a0 = args@;
            proof {
                if shape {
                    if a0.len() == gn {
                        assert(toks[gend - 2].kind is RParen);
                    }
                    assert(a0.len() < gn);
                }
            }
            let arg = self.expect_ident(&rule);
            let ghost t1 = *self;
            proof {
                lemma_steps_trans(&start, &t0, &t1);
            }
            match arg {
                Some(a) => args.push(a),
                None => {
                    proof {
                        assert(!shape);
                        assert forall|ri: RelInst, end: int| #[trigger] rel_inst_at(toks, p, ri, end) implies false by {}
                    }
                    return None;
                },
            }
            proof {
                if shape {
                    assert(a0.len() < gn);
                    let l = a0.len() as int;
                    assert(t0.pos() == p + 4 + 2 * l);
                    assert(rel_inst_at(toks, p, gri, gend));
                    assert(0 <= l < gri.args@.len());
                    assert(ident_token(toks[p + 4 + 2 * l]) == Some(gri.args@[l]));
                    assert(t0.toks() == toks);
                    assert(args@[a0.len() as int] == gri.args@[a0.len() as int]);
                    assert forall|j: int| 0 <= j < args@.len() implies #[trigger] args@[j] == gri.args@[j] by {
                        if j < a0.len() {
                            assert(args@[j] == a0[j]);
                        }
                    }
                }
                assert forall|j: int| 0 <= j < args@.len() implies ident_token(toks[p + 4 + 2 * j]) == Some(#[trigger] args@[j]) by {
                    if j < a0.len() {
                        assert(args@[j] == a0[j]);
                    }
                }
            }
            if matches!(self.peek().kind, TokenKind::Comma) {
                self.next();
                proof {
                    lemma_steps_trans(&start, &t1, self);
                    if shape {
                        let l = args@.len() as int;
                        if l < gn {
                            assert(ident_token(toks[p + 4 + 2 * l]) == Some(gri.args@[l]));
                        } else {
                            if gend == p + 2 * gn + 5 {
                                assert(toks[gend - 2].kind is RParen);
                            }
                        }
                    }
                }
            } else {
                proof {
                    if shape {
                        if args@.len() < gn {
                            assert(toks[p + 5 + 2 * (args@.len() - 1)].kind is Comma);
                        } else if gend == p + 2 * gn + 6 {
                            assert(toks[p + 3 + 2 * gn].kind is Comma);
                        }
                    }
                }
                break;
            }
        }
        proof {
            if shape {
                assert forall|j: int| 0 <= j < gn implies #[trigger] args@[j] == gri.args@[j] by {}
                assert(args@ =~= gri.args@);
            }
        }
        let ghost s5 = *self;
        let rparen = self.expect(TokenKind::RParen, &rule);
        let ghost s6 = *self;
        proof {
            lemma_steps_trans(&start, &s5, &s6);
        }
        if rparen.is_none() {
            return None;
        }
        let semi = self.expect(TokenKind::Semicolon, &rule);
        proof {
            lemma_steps_trans(&start, &s6, self);
        }
        let ghost n = args@.len();
        proof {
            if semi is Some {
                assert(toks[s5.pos()].kind is RParen);
                assert(toks[s6.pos()].kind is Semicolon);
                assert(self.pos() == s5.pos() + 2);
                if n > 0 && s5.pos() == p + 3 + 2 * n {
                } else {
                    assert(s5.pos() == p + 4 + 2 * n);
                    if n > 0 {
                        assert(toks[p + 5 + 2 * (n - 1)].kind is Comma);
                    }
                }
            }
        }
        let result = match semi {
            Some(_) => Some(RelInst { asignee, rel, args }),
            None => None,
        };
        proof {
            assert forall|ri: RelInst, end: int| #[trigger] rel_inst_at(toks, p, ri, end)
                implies (result matches Some(x) && x.asignee == ri.asignee && x.rel == ri.rel && x.args@ == ri.args@)
                    && self.errs() == start.errs() && self.pos() == end by {
                lemma_rel_inst_unique(toks, p, gri, gend, ri, end);
            }
        }
        result
    }

    /// `NET { port := x, ... };`
    pub fn parse_net_inst(&mut self) -> (r: Option<NetInst>)
        requires
            old(self).wf(),
        ensures
            old(self).steps_to(final(self)),
            r is None ==> final(self).errs().len() > old(self).errs().len(),
            final(self).errs().len() == old(self).errs().len() ==> r is Some,
            old(self).cur_kind() is Ident ==> final(self).pos() > old(self).pos(),
            r matches Some(ni) ==> net_inst_at(old(self).toks(), old(self).pos(), ni),
            forall|ni: NetInst, end: int| #[trigger] net_inst_closed(old(self).toks(), old(self).pos(), ni, end)
                ==> (r matches Some(x) && x.net == ni.net && x.connections@ == ni.connections@)
                    && final(self).errs() == old(self).errs() && final(self).pos() == end,
    {
        let ghost start = *self;
        let ghost p = start.pos();
        let ghost toks = start.toks();
        let ghost shape = exists|ni: NetInst, end: int| #[trigger] net_inst_closed(toks, p, ni, end);
        let ghost (gni, gend) = choose|ni: NetInst, end: int| #[trigger] net_inst_closed(toks, p, ni, end);
        let ghost gn = gni.connections@.len();
        let rule = SyncRule::Inst { depth: 0 };
        let net = match self.expect_ident(&rule) {
            Some(n) => n,
            None => return None,
        };
        let ghost s1 = *self;
        let open = self.expect(TokenKind::LBrace, &rule);
        let ghost s2 = *self;
        proof {
            lemma_steps_trans(&start, &s1, &s2);
        }
        if open.is_none() {
            return None;
        }
        let mut connections: Vec<Connection> = Vec::new();
        proof {
            if shape {
                assert(ident_token(toks[p]) == Some(gni.net));
                if gn > 0 {
                    assert(connection_at(toks, p + 2 + 4 * 0) == Some(gni.connections@[0]));
                    assert(toks[p + 2].kind is Ident);
                } else {
                    assert(gend == p + 4);
                }
            }
        }
        while !matches!(self.peek().kind, TokenKind::RBrace)
            invariant_except_break
                self.pos() == p + 2 + 4 * connections@.len(),
                forall|j: int| 0 <= j < connections@.len() ==> (#[trigger] toks[p + 5 + 4 * j]).kind is Comma,
                shape && connections@.len() == gn ==> gend == p + 4 * gn + 4,
                shape && connections@.len() < gn ==> self.cur_kind() is Ident,
            invariant
                gn == gni.connections@.len(),
                shape == exists|ni: NetInst, end: int| #[trigger] net_inst_closed(toks, p, ni, end),
                shape ==> net_inst_closed(toks, p, gni, gend),
                shape ==> connections@.len() <= gn
                    && forall|j: int| 0 <= j < connections@.len() ==> #[trigger] connections@[j] == gni.connections@[j],
                start == *old(self),
                p == start.pos(),
                toks == start.toks(),
                start.steps_to(self),
                self.errs().len() == start.errs().len(),
                self.pos() > start.pos(),
                forall|j: int| 0 <= j < connections@.len() ==> connection_at(toks, p + 2 + 4 * j) == Some(#[trigger] connections@[j]),
                forall|j: int| 0 <= j < connections@.len() - 1 ==> (#[trigger] toks[p + 5 + 4 * j]).kind is Comma,
            ensures
                (self.pos() == p + 2 + 4 * connections@.len() && self.cur_kind() is RBrace
                    && forall|j: int| 0 <= j < connections@.len() ==> (#[trigger] toks[p + 5 + 4 * j]).kind is Comma)
                || (connections@.len() > 0 && self.pos() == p + 1 + 4 * connections@.len() && !(self.cur_kind() is Comma)),
                shape ==> connections@.len() == gn && self.pos() == gend - 2,
            decreases self.remaining(),
        {
            let ghost t0 = *self;
            let ghost c0 = connections@;
            proof {
                if shape {
                    if c0.len() == gn {
                        assert(toks[gend - 2].kind is RBrace);
                    }
                    assert(c0.len() < gn);
                    assert(connection_at(toks, p + 2 + 4 * c0.len()) == Some(gni.connections@[c0.len() as int]));
                }
            }
            let c = self.parse_connection();
            let ghost t1 = *self;
            proof {
                lemma_steps_trans(&start, &t0, &t1);
            }
            match c {
                Some(c) => connections.push(c),
                None => {
                    proof {
                        assert(!shape);
                        assert forall|ni: NetInst, end: int| #[trigger] net_inst_closed(toks, p, ni, end) implies false by {}
                    }
                    return None;
                },
            }
            proof {
                if shape {
                    assert forall|j: int| 0 <= j < connections@.len() implies #[trigger] connections@[j] == gni.connections@[j] by {
                        if j < c0.len() {
                            assert(connections@[j] == c0[j]);
                        }
                    }
                }
                assert forall|j: int| 0 <= j < connections@.len() implies connection_at(toks, p + 2 + 4 * j) == Some(#[trigger] connections@[j]) by {
                    if j < c0.len() {
                        assert(connections@[j] == c0[j]);
                    }
                }
            }
            if matches!(self.peek().kind, TokenKind::Comma) {
                self.next();
                proof {
                    lemma_steps_trans(&start, &t1, self);
                    if shape {
                        let l = connections@.len() as int;
                        if l < gn {
                            assert(connection_at(toks, p + 2 + 4 * l) == Some(gni.connections@[l]));
                            assert(toks[p + 2 + 4 * l].kind is Ident);
                        } else if gend == p + 4 * gn + 3 {
                            assert(toks[gend - 2].kind is RBrace);
                        }
                    }
                }
            } else {
                proof {
                    if shape {
                        if connections@.len() < gn {
                            assert(toks[p + 5 + 4 * (connections@.len() - 1)].kind is Comma);
                        } else if gend == p + 4 * gn + 4 {
                            assert(toks[p + 1 + 4 * gn].kind is Comma);
                        }
                    }
                }
                break;
            }
        }
        proof {
            if shape {
                assert(connections@ =~= gni.connections@);
            }
        }
        let ghost s3 = *self;
        // a missing `}` is reported; the item still ends at the `;`
        self.expect(TokenKind::RBrace, &rule);
        let ghost s4 = *self;
        proof {
            lemma_steps_trans(&start, &s3, &s4);
        }
        let semi = self.expect(TokenKind::Semicolon, &rule);
        proof {
            lemma_steps_trans(&start, &s4, self);
        }
        let result = match semi {
            Some(_) => Some(NetInst { net, connections }),
            None => None,
        };
        proof {
            assert forall|ni: NetInst, end: int| #[trigger] net_inst_closed(toks, p, ni, end)
                implies (result matches Some(x) && x.net == ni.net && x.connections@ == ni.connections@)
                    && self.errs() == start.errs() && self.pos() == end by {
                lemma_net_inst_unique(toks, p, gni, gend, ni, end);
            }
        }
        result
    }

    /// `port := x`, inside the braces of a net instance.
    pub fn parse_connection(&mut self) -> (r: Option<Connection>)
        requires
            old(self).wf(),
        ensures
            old(self).steps_to(final(self)),
            r is Some <==> final(self).errs().len() == old(self).errs().len(),
            r == connection_at(old(self).toks(), old(self).pos()),
            r is Some ==> final(self).pos() == old(self).pos() + 3,
            r is None ==> final(self).errs().len() == old(self).errs().len() + 1,
    {
        let ghost start = *self;
        let rule = SyncRule::Inst { depth: 1 };
        let port = match self.expect_ident(&rule) {
            Some(n) => n,
            None => return None,
        };
        let ghost s1 = *self;
        let connect = self.expect(TokenKind::Connect, &rule);
        let ghost s2 = *self;
        proof {
            lemma_steps_trans(&start, &s1, &s2);
        }
        if connect.is_none() {
            return None;
        }
        let net = self.expect_ident(&rule);
        proof {
            lemma_steps_trans(&start, &s2, self);
        }
        match net {
            Some(net) => Some(Connection { port, net }),
            None => None,
        }
    }
}

/// The connection `port := net` that the three tokens from `p` spell, if
/// they spell one.
pub open spec fn connection_at(toks: Seq<Token>, p: int) -> Option<Connection> {
    if 0 <= p && p + 2 < toks.len() && ident_token(toks[p]) is Some && toks[p + 1].kind is Connect
        && ident_token(toks[p + 2]) is Some {
        Some(Connection { port: ident_token(toks[p])->0, net: ident_token(toks[p + 2])->0 })
    } else {
        None
    }
}

/// The tokens from `p` to `end` spell the relation instance `ri`:
/// `asignee := REL(a, b, ...);`, where a comma may follow the last argument.
pub open spec fn rel_inst_at(toks: Seq<Token>, p: int, ri: RelInst, end: int) -> bool {
    let n = ri.args@.len();
    &&& ident_token(toks[p]) == Some(ri.asignee)
    &&& toks[p + 1].kind is Connect
    &&& ident_token(toks[p + 2]) == Some(ri.rel)
    &&& toks[p + 3].kind is LParen
    &&& forall|j: int| 0 <= j < n ==> ident_token(toks[p + 4 + 2 * j]) == Some(#[trigger] ri.args@[j])
    &&& forall|j: int| 0 <= j < n - 1 ==> (#[trigger] toks[p + 5 + 2 * j]).kind is Comma
    &&& (n > 0 && end == p + 2 * n + 5) || (end == p + 2 * n + 6 && (n > 0 ==> toks[p + 3 + 2 * n].kind is Comma))
    &&& toks[end - 2].kind is RParen
    &&& toks[end - 1].kind is Semicolon
}

/// The tokens from `p` to `end` spell the whole net instance `ni`:
/// `NET { port := x, ... };`, where a comma may follow the last connection.
pub open spec fn net_inst_closed(toks: Seq<Token>, p: int, ni: NetInst, end: int) -> bool {
    let n = ni.connections@.len();
    &&& net_inst_at(toks, p, ni)
    &&& (n > 0 && end == p + 4 * n + 3) || (end == p + 4 * n + 4 && (n > 0 ==> toks[p + 1 + 4 * n].kind is Comma))
    &&& toks[end - 2].kind is RBrace
    &&& toks[end - 1].kind is Semicolon
}

/// The tokens from `p` to `end` spell one item of a net body: a port
/// `input NAME: T;` or `output NAME: T;` of a base type, a relation instance
/// or a net instance; and `item` is it.
pub open spec fn net_item_at(toks: Seq<Token>, p: int, item: NetItem, end: int) -> bool {
    match item {
        NetItem::Input(param) => toks[p].kind is Input && port_at(toks, p, param, end),
        NetItem::Output(param) => toks[p].kind is Output && port_at(toks, p, param, end),
        NetItem::RelInst(ri) => rel_inst_at(toks, p, ri, end),
        NetItem::NetInst(ni) => net_inst_closed(toks, p, ni, end),
        _ => false,
    }
}

/// After the keyword at `p`: `NAME: T;` with `T` a base type, and `param` is
/// what it says.
pub open spec fn port_at(toks: Seq<Token>, p: int, param: Param, end: int) -> bool {
    &&& toks[p + 1].kind is Ident
    &&& toks[p + 2].kind is Colon
    &&& base_type(toks[p + 3].kind) is Some
    &&& param == Param { name: ident_token(toks[p + 1])->0, param_type: base_type(toks[p + 3].kind)->0 }
    &&& toks[p + 4].kind is Semicolon
    &&& end == p + 5
}

/// From `p`: `NAME { ... }` whose items are ports and instances, item `i`
/// running from `starts[i]` to `starts[i + 1]`, and `items` are they.
pub open spec fn plain_net_at(toks: Seq<Token>, p: int, starts: Seq<int>, items: Seq<NetItem>) -> bool {
    &&& toks[p].kind is Ident
    &&& toks[p + 1].kind is LBrace
    &&& starts.len() == items.len() + 1
    &&& starts[0] == p + 2
    &&& forall|i: int| 0 <= i < items.len() ==> #[trigger] net_item_at(toks, starts[i], items[i], starts[i + 1])
    &&& toks[starts.last()].kind is RBrace
}

/// An instance of a net body has one end.
proof fn lemma_net_item_end_unique(toks: Seq<Token>, p: int, a: NetItem, ea: int, b: NetItem, eb: int)
    requires
        net_item_at(toks, p, a, ea),
        net_item_at(toks, p, b, eb),
    ensures
        ea == eb,
{
    match (a, b) {
        (NetItem::RelInst(x), NetItem::RelInst(y)) => lemma_rel_inst_unique(toks, p, x, ea, y, eb),
        (NetItem::NetInst(x), NetItem::NetInst(y)) => lemma_net_inst_unique(toks, p, x, ea, y, eb),
        _ => {},
    }
}

/// Two readings of a net body of instances agree on where their items start, up to `i`.
proof fn lemma_net_prefix(toks: Seq<Token>, p: int, s1: Seq<int>, i1: Seq<NetItem>, s2: Seq<int>, i2: Seq<NetItem>, i: int)
    requires
        plain_net_at(toks, p, s1, i1),
        plain_net_at(toks, p, s2, i2),
        0 <= i < s1.len(),
        i < s2.len(),
    ensures
        forall|j: int| 0 <= j <= i ==> s1[j] == s2[j],
    decreases i,
{
    if i > 0 {
        let j = i - 1;
        lemma_net_prefix(toks, p, s1, i1, s2, i2, j);
        assert(net_item_at(toks, s1[j], i1[j], s1[j + 1]));
        assert(net_item_at(toks, s2[j], i2[j], s2[j + 1]));
        lemma_net_item_end_unique(toks, s1[j], i1[j], s1[j + 1], i2[j], s2[j + 1]);
    }
}

/// A net body of instances has one reading of where its items start.
pub proof fn lemma_plain_net_unique(toks: Seq<Token>, p: int, s1: Seq<int>, i1: Seq<NetItem>, s2: Seq<int>, i2: Seq<NetItem>)
    requires
        plain_net_at(toks, p, s1, i1),
        plain_net_at(toks, p, s2, i2),
    ensures
        s1 == s2,
        i1.len() == i2.len(),
{
    if s1.len() < s2.len() {
        let k = s1.len() - 1;
        lemma_net_prefix(toks, p, s1, i1, s2, i2, k);
        assert(net_item_at(toks, s2[k], i2[k], s2[k + 1]));
    } else if s2.len() < s1.len() {
        let k = s2.len() - 1;
        lemma_net_prefix(toks, p, s1, i1, s2, i2, k);
        assert(net_item_at(toks, s1[k], i1[k], s1[k + 1]));
    } else {
        lemma_net_prefix(toks, p, s1, i1, s2, i2, s1.len() - 1);
        assert(s1 =~= s2);
    }
}

/// The tokens from `p` spell at most one whole net instance.
proof fn lemma_net_inst_unique(toks: Seq<Token>, p: int, a: NetInst, ea: int, b: NetInst, eb: int)
    requires
        net_inst_closed(toks, p, a, ea),
        net_inst_closed(toks, p, b, eb),
    ensures
        a.net == b.net,
        a.connections@ == b.connections@,
        ea == eb,
{
    let na = a.connections@.len();
    let nb = b.connections@.len();
    if na < nb {
        assert(connection_at(toks, p + 2 + 4 * na) == Some(b.connections@[na as int]));
        if na > 0 && ea == p + 4 * na + 3 {
            assert(toks[ea - 1].kind is Semicolon);
        } else {
            assert(toks[ea - 2].kind is RBrace);
        }
    } else if nb < na {
        assert(connection_at(toks, p + 2 + 4 * nb) == Some(a.connections@[nb as int]));
        if nb > 0 && eb == p + 4 * nb + 3 {
            assert(toks[eb - 1].kind is Semicolon);
        } else {
            assert(toks[eb - 2].kind is RBrace);
        }
    } else {
        assert forall|j: int| 0 <= j < na implies a.connections@[j] == b.connections@[j] by {
            assert(connection_at(toks, p + 2 + 4 * j) == Some(a.connections@[j]));
            assert(connection_at(toks, p + 2 + 4 * j) == Some(b.connections@[j]));
        }
        assert(a.connections@ =~= b.connections@);
        if na > 0 && ea == p + 4 * na + 3 && eb == p + 4 * na + 4 {
            assert(toks[p + 1 + 4 * na].kind is Comma);
            assert(toks[ea - 2].kind is RBrace);
        }
        if na > 0 && eb == p + 4 * na + 3 && ea == p + 4 * na + 4 {
            assert(toks[p + 1 + 4 * na].kind is Comma);
            assert(toks[eb - 2].kind is RBrace);
        }
    }
}

/// The tokens from `p` spell at most one relation instance.
proof fn lemma_rel_inst_unique(toks: Seq<Token>, p: int, a: RelInst, ea: int, b: RelInst, eb: int)
    requires
        rel_inst_at(toks, p, a, ea),
        rel_inst_at(toks, p, b, eb),
    ensures
        a.asignee == b.asignee,
        a.rel == b.rel,
        a.args@ == b.args@,
        ea == eb,
{
    let na = a.args@.len();
    let nb = b.args@.len();
    if na < nb {
        assert(ident_token(toks[p + 4 + 2 * na]) == Some(b.args@[na as int]));
        if na > 0 && ea == p + 2 * na + 5 {
            assert(toks[ea - 1].kind is Semicolon);
        } else {
            assert(toks[ea - 2].kind is RParen);
        }
    } else if nb < na {
        assert(ident_token(toks[p + 4 + 2 * nb]) == Some(a.args@[nb as int]));
        if nb > 0 && eb == p + 2 * nb + 5 {
            assert(toks[eb - 1].kind is Semicolon);
        } else {
            assert(toks[eb - 2].kind is RParen);
        }
    } else {
        assert forall|j: int| 0 <= j < na implies a.args@[j] == b.args@[j] by {
            assert(ident_token(toks[p + 4 + 2 * j]) == Some(a.args@[j]));
            assert(ident_token(toks[p + 4 + 2 * j]) == Some(b.args@[j]));
        }
        assert(a.args@ =~= b.args@);
        if na > 0 && ea == p + 2 * na + 5 && eb == p + 2 * na + 6 {
            assert(toks[p + 3 + 2 * na].kind is Comma);
            assert(toks[ea - 2].kind is RParen);
        }
        if na > 0 && eb == p + 2 * na + 5 && ea == p + 2 * na + 6 {
            assert(toks[p + 3 + 2 * na].kind is Comma);
            assert(toks[eb - 2].kind is RParen);
        }
    }
}

/// The tokens from `p` begin the net instance `ni`: `NET { port := x, ... }`,
/// its connections separated by commas.
pub open spec fn net_inst_at(toks: Seq<Token>, p: int, ni: NetInst) -> bool {
    let n = ni.connections@.len();
    &&& ident_token(toks[p]) == Some(ni.net)
    &&& toks[p + 1].kind is LBrace
    &&& forall|j: int| 0 <= j < n ==> connection_at(toks, p + 2 + 4 * j) == Some(#[trigger] ni.connections@[j])
    &&& forall|j: int| 0 <= j < n - 1 ==> (#[trigger] toks[p + 5 + 4 * j]).kind is Comma
}

} // verus!
