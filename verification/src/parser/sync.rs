//! Recovery after a parse error: skip tokens up to a point where parsing
//! can go on. A skip never runs past a `}` that closes a block the caller
//! is still in; blocks opened while skipping are skipped whole.

use vstd::prelude::*;
use super::Parser;
use crate::token::{Token, TokenKind};

verus! {

/// Where to resume after an error.
#[derive(PartialEq, Eq, Structural, Debug, Clone, Copy)]
pub enum SyncRule {
    /// at the next top-level item
    Item,
    /// at the next item of a net body; `depth` is how many `{` deep inside
    /// that item the error happened
    Inst { depth: usize },
    /// at the next statement of a block
    Statement,
    /// after the broken expression; `depth` as for `Inst`
    Expr { depth: usize },
}

/// Tokens that begin a top-level item.
pub open spec fn starts_item(k: TokenKind) -> bool {
    k is Let || k is Ent_t || k is Rel_t || k is NetToken
}

/// Tokens that begin an item of a net body (besides names).
pub open spec fn starts_inst(k: TokenKind) -> bool {
    k is Input || k is Output || k is Init
}

/// Tokens that may follow an expression.
pub open spec fn follows_expr(k: TokenKind) -> bool {
    k is Comma || k is Semicolon || k is RParen || k is RBrace
}

/// How many blocks deep the tokens from `a` to `b` lead, starting `d`
/// deep: a `{` opens one (the count stops at `usize::MAX`), a `}` closes one
/// where one is open.
pub open spec fn nest(toks: Seq<Token>, a: int, b: int, d: usize) -> usize
    decreases b - a,
{
    if b <= a {
        d
    } else {
        let n = nest(toks, a, b - 1, d);
        let k = toks[b - 1].kind;
        if k is LBrace {
            if n == usize::MAX { n } else { (n + 1) as usize }
        } else if k is RBrace && n > 0 {
            (n - 1) as usize
        } else {
            n
        }
    }
}

/// Every `}` skipped from `a` to `b` closes a block opened while skipping
/// (or one of the `d` the skip started in): none closes an enclosing block.
pub open spec fn skips_no_closing(toks: Seq<Token>, a: int, b: int, d: usize) -> bool {
    forall|m: int| a <= m < b && (#[trigger] toks[m]).kind is RBrace ==> nest(toks, a, m, d) > 0
}

/// No token from `a` to `b` that was skipped outside every block opened while
/// skipping is one that `stop` says to stop at.
pub open spec fn skipped_none(toks: Seq<Token>, a: int, b: int, d: usize, stop: spec_fn(TokenKind) -> bool) -> bool {
    forall|m: int| a <= m < b && nest(toks, a, m, d) == 0 ==> !stop((#[trigger] toks[m]).kind)
}

/// The only `;` skipped outside the blocks opened while skipping is the last
/// token skipped.
pub open spec fn semicolon_last(toks: Seq<Token>, a: int, b: int, d: usize) -> bool {
    forall|m: int| a <= m < b && nest(toks, a, m, d) == 0 && (#[trigger] toks[m]).kind is Semicolon ==> m == b - 1
}

/// Where recovery by `rule` from `p` stops, at `q`: at the first token, outside
/// the blocks opened while skipping (those are skipped whole), that the rule
/// resumes at, without consuming it, or just after the first such `;`, or at
/// the end; never past a `}` that closes a block the error happened in.
pub open spec fn recovered(rule: SyncRule, toks: Seq<Token>, p: int, q: int) -> bool {
    let k = toks[q].kind;
    match rule {
        SyncRule::Item => {
            &&& k is Eof || starts_item(k) || (q > p && toks[q - 1].kind is Semicolon)
            &&& !(k is Eof) ==> nest(toks, p, q, 0) == 0
            &&& skipped_none(toks, p, q, 0, |t: TokenKind| starts_item(t))
            &&& semicolon_last(toks, p, q, 0)
        },
        SyncRule::Inst { depth } => {
            &&& k is Eof || k is RBrace || starts_inst(k) || (q > p && toks[q - 1].kind is Semicolon)
            &&& !(k is Eof) ==> nest(toks, p, q, depth) == 0
            &&& skips_no_closing(toks, p, q, depth)
            &&& skipped_none(toks, p, q, depth, |t: TokenKind| starts_inst(t))
            &&& semicolon_last(toks, p, q, depth)
        },
        SyncRule::Statement => {
            &&& k is Eof || k is Let || k is RBrace || (q > p && toks[q - 1].kind is Semicolon)
            &&& !(k is Eof) ==> nest(toks, p, q, 0) == 0
            &&& skips_no_closing(toks, p, q, 0)
            &&& skipped_none(toks, p, q, 0, |t: TokenKind| t is Let)
            &&& semicolon_last(toks, p, q, 0)
        },
        SyncRule::Expr { depth } => {
            &&& k is Eof || follows_expr(k)
            &&& !(k is Eof) ==> nest(toks, p, q, depth) == 0
            &&& skips_no_closing(toks, p, q, depth)
            &&& skipped_none(toks, p, q, depth, |t: TokenKind| follows_expr(t))
        },
    }
}

impl Parser {
    /// The token just before the position is a `;` consumed since `before`.
    pub open spec fn consumed_semicolon_since(&self, before: &Parser) -> bool {
        &&& self.pos() > before.pos()
        &&& self.toks()[self.pos() - 1].kind is Semicolon
    }

    /// Skips ahead as `rule` says.
    pub fn sync(&mut self, rule: &SyncRule)
        requires
            old(self).wf(),
        ensures
            old(self).steps_to(final(self)),
            final(self).errs() == old(self).errs(),
            recovered(*rule, old(self).toks(), old(self).pos(), final(self).pos()),
    {
        match rule {
            SyncRule::Item => self.sync_item(),
            SyncRule::Inst { depth } => self.sync_inst(*depth),
            SyncRule::Statement => self.sync_statement(),
            SyncRule::Expr { depth } => self.sync_expr(*depth),
        }
    }

    /// Stops before the next `let`, `ent_t`, `rel_t` or `net`, or just after the next `;`.
    #[verifier::rlimit(30)]
    pub fn sync_item(&mut self)
        requires
            old(self).wf(),
        ensures
            old(self).steps_to(final(self)),
            final(self).errs() == old(self).errs(),
            final(self).cur_kind() is Eof || starts_item(final(self).cur_kind())
                || final(self).consumed_semicolon_since(old(self)),
            !(old(self).cur_kind() is Eof) && !starts_item(old(self).cur_kind())
                ==> final(self).pos() > old(self).pos(),
            !(final(self).cur_kind() is Eof) ==> nest(final(self).toks(), old(self).pos(), final(self).pos(), 0) == 0,
            forall|m: int| old(self).pos() <= m < final(self).pos() && nest(final(self).toks(), old(self).pos(), m, 0) == 0
                ==> !starts_item((#[trigger] final(self).toks()[m]).kind),
        recovered(SyncRule::Item, old(self).toks(), old(self).pos(), final(self).pos()),
    {
        let ghost start = *self;
        proof {
            super::lemma_steps_refl(self);
        }
        let mut depth: usize = 0;
        loop
            invariant
                start == *old(self),
                start.steps_to(self),
                self.errs() == start.errs(),
                skipped_none(self.toks(), start.pos(), self.pos(), 0, |t: TokenKind| starts_item(t)),
                skipped_none(self.toks(), start.pos(), self.pos(), 0, |t: TokenKind| t is Semicolon),
                depth == nest(self.toks(), start.pos(), self.pos(), 0),
                forall|m: int| start.pos() <= m < self.pos() && nest(self.toks(), start.pos(), m, 0) == 0
                    ==> !starts_item((#[trigger] self.toks()[m]).kind),
            decreases self.remaining(),
        {
            let k = self.peek().kind.duplicate();
            if matches!(k, TokenKind::Eof) {
                return;
            }
            if depth == 0 && (matches!(k, TokenKind::Let) || matches!(k, TokenKind::Ent_t)
                || matches!(k, TokenKind::Rel_t) || matches!(k, TokenKind::NetToken)) {
                return;
            }
            let ghost d_before = depth;
            if matches!(k, TokenKind::LBrace) {
                depth = depth.saturating_add(1);
            } else if matches!(k, TokenKind::RBrace) && depth > 0 {
                depth = depth - 1;
            }
            let ghost before = *self;
            self.next();
            proof {
                super::lemma_steps_trans(&start, &before, self);
                assert(self.pos() == before.pos() + 1);
                assert(self.toks()[before.pos()].kind == k);
                assert(self.toks() == before.toks());
                assert forall|m: int| start.pos() <= m < self.pos() && nest(self.toks(), start.pos(), m, 0) == 0
                    implies !starts_item((#[trigger] self.toks()[m]).kind) by {
                    if m == before.pos() {
                        assert(nest(self.toks(), start.pos(), m, 0) == d_before);
                    }
                }
            }
            if depth == 0 && matches!(k, TokenKind::Semicolon) {
                proof {
                    assert(semicolon_last(self.toks(), start.pos(), self.pos(), 0)) by {
                        assert forall|m: int| start.pos() <= m < self.pos() && nest(self.toks(), start.pos(), m, 0) == 0
                            && (#[trigger] self.toks()[m]).kind is Semicolon implies m == self.pos() - 1 by {
                            if m < self.pos() - 1 {
                                assert(!((|t: TokenKind| t is Semicolon)(self.toks()[m].kind)));
                            }
                        }
                    }
                }
                return;
            }
            proof {
                assert forall|m: int| start.pos() <= m < self.pos() && nest(self.toks(), start.pos(), m, 0) == 0
                    implies !((|t: TokenKind| t is Semicolon)((#[trigger] self.toks()[m]).kind)) by {
                    if m == self.pos() - 1 {
                        assert(nest(self.toks(), start.pos(), m, 0) == d_before);
                    }
                }
            }
        }
    }

    /// Stops before the `}` that closes the net body, before `input`, `output`
    /// or `init`, or just after the `;` that ends the broken item.
    pub fn sync_inst(&mut self, depth: usize)
        requires
            old(self).wf(),
        ensures
            old(self).steps_to(final(self)),
            final(self).errs() == old(self).errs(),
            final(self).cur_kind() is Eof || final(self).cur_kind() is RBrace
                || starts_inst(final(self).cur_kind())
                || final(self).consumed_semicolon_since(old(self)),
            depth == 0 && (old(self).cur_kind() is RBrace || starts_inst(old(self).cur_kind()))
                ==> final(self).pos() == old(self).pos(),
            !(old(self).cur_kind() is Eof) && !(old(self).cur_kind() is RBrace)
                && !starts_inst(old(self).cur_kind()) ==> final(self).pos() > old(self).pos(),
            skips_no_closing(final(self).toks(), old(self).pos(), final(self).pos(), depth),
            final(self).cur_kind() is RBrace ==> nest(final(self).toks(), old(self).pos(), final(self).pos(), depth) == 0,
        recovered(SyncRule::Inst { depth: depth }, old(self).toks(), old(self).pos(), final(self).pos()),
    {
        let ghost start = *self;
        proof {
            super::lemma_steps_refl(self);
        }
        let mut d = depth;
        let ghost mut moved = false;
        loop
            invariant
                start == *old(self),
                start.steps_to(self),
                self.errs() == start.errs(),
                skipped_none(self.toks(), start.pos(), self.pos(), depth, |t: TokenKind| starts_inst(t)),
                skipped_none(self.toks(), start.pos(), self.pos(), depth, |t: TokenKind| t is Semicolon),
                d == nest(self.toks(), start.pos(), self.pos(), depth),
                skips_no_closing(self.toks(), start.pos(), self.pos(), depth),
                !moved ==> self.pos() == start.pos() && d == depth,
                depth == 0 && (start.cur_kind() is RBrace || starts_inst(start.cur_kind())) ==> !moved,
            decreases self.remaining(),
        {
            let k = self.peek().kind.duplicate();
            if matches!(k, TokenKind::Eof) {
                return;
            }
            if d == 0 && (matches!(k, TokenKind::RBrace) || matches!(k, TokenKind::Input)
                || matches!(k, TokenKind::Output) || matches!(k, TokenKind::Init)) {
                return;
            }
            let ghost d_before = d;
            if matches!(k, TokenKind::LBrace) {
                d = d.saturating_add(1);
            } else if matches!(k, TokenKind::RBrace) && d > 0 {
                d = d - 1;
            }
            let ghost before = *self;
            self.next();
            proof {
                super::lemma_steps_trans(&start, &before, self);
                moved = true;
                assert(self.pos() == before.pos() + 1);
                assert(self.toks()[before.pos()].kind == k);
                assert(self.toks() == before.toks());
                assert(nest(self.toks(), start.pos(), before.pos(), depth) == d_before);
                assert forall|m: int| start.pos() <= m < self.pos() && nest(self.toks(), start.pos(), m, depth) == 0
                    implies !(|t: TokenKind| starts_inst(t))((#[trigger] self.toks()[m]).kind) by {
                    if m == before.pos() {
                        assert(nest(self.toks(), start.pos(), m, depth) == d_before);
                    }
                }
            }
            if d == 0 && matches!(k, TokenKind::Semicolon) {
                proof {
                    assert(semicolon_last(self.toks(), start.pos(), self.pos(), depth)) by {
                        assert forall|m: int| start.pos() <= m < self.pos() && nest(self.toks(), start.pos(), m, depth) == 0
                            && (#[trigger] self.toks()[m]).kind is Semicolon implies m == self.pos() - 1 by {
                            if m < self.pos() - 1 {
                                assert(!((|t: TokenKind| t is Semicolon)(self.toks()[m].kind)));
                            }
                        }
                    }
                }
                return;
            }
            proof {
                assert forall|m: int| start.pos() <= m < self.pos() && nest(self.toks(), start.pos(), m, depth) == 0
                    implies !((|t: TokenKind| t is Semicolon)((#[trigger] self.toks()[m]).kind)) by {
                    if m == self.pos() - 1 {
                        assert(nest(self.toks(), start.pos(), m, depth) == d_before);
                    }
                }
            }
        }
    }

    /// Stops before the next `let` or the `}` closing the block, or just after the next `;`.
    pub fn sync_statement(&mut self)
        requires
            old(self).wf(),
        ensures
            old(self).steps_to(final(self)),
            final(self).errs() == old(self).errs(),
            final(self).cur_kind() is Eof || final(self).cur_kind() is Let
                || final(self).cur_kind() is RBrace
                || final(self).consumed_semicolon_since(old(self)),
            skips_no_closing(final(self).toks(), old(self).pos(), final(self).pos(), 0),
            !(final(self).cur_kind() is Eof) ==> nest(final(self).toks(), old(self).pos(), final(self).pos(), 0) == 0,
        recovered(SyncRule::Statement, old(self).toks(), old(self).pos(), final(self).pos()),
    {
        let ghost start = *self;
        proof {
            super::lemma_steps_refl(self);
        }
        let mut depth: usize = 0;
        loop
            invariant
                start == *old(self),
                start.steps_to(self),
                self.errs() == start.errs(),
                skipped_none(self.toks(), start.pos(), self.pos(), 0, |t: TokenKind| t is Let),
                skipped_none(self.toks(), start.pos(), self.pos(), 0, |t: TokenKind| t is Semicolon),
                depth == nest(self.toks(), start.pos(), self.pos(), 0),
                skips_no_closing(self.toks(), start.pos(), self.pos(), 0),
            decreases self.remaining(),
        {
            let k = self.peek().kind.duplicate();
            if matches!(k, TokenKind::Eof) {
                return;
            }
            if depth == 0 && (matches!(k, TokenKind::Let) || matches!(k, TokenKind::RBrace)) {
                return;
            }
            let ghost d_before = depth;
            if matches!(k, TokenKind::LBrace) {
                depth = depth.saturating_add(1);
            } else if matches!(k, TokenKind::RBrace) && depth > 0 {
                depth = depth - 1;
            }
            let ghost before = *self;
            self.next();
            proof {
                super::lemma_steps_trans(&start, &before, self);
                assert(self.pos() == before.pos() + 1);
                assert(self.toks()[before.pos()].kind == k);
                assert(self.toks() == before.toks());
                assert(nest(self.toks(), start.pos(), before.pos(), 0) == d_before);
                assert forall|m: int| start.pos() <= m < self.pos() && nest(self.toks(), start.pos(), m, 0) == 0
                    implies !(|t: TokenKind| t is Let)((#[trigger] self.toks()[m]).kind) by {
                    if m == before.pos() {
                        assert(nest(self.toks(), start.pos(), m, 0) == d_before);
                    }
                }
            }
            if depth == 0 && matches!(k, TokenKind::Semicolon) {
                proof {
                    assert(semicolon_last(self.toks(), start.pos(), self.pos(), 0)) by {
                        assert forall|m: int| start.pos() <= m < self.pos() && nest(self.toks(), start.pos(), m, 0) == 0
                            && (#[trigger] self.toks()[m]).kind is Semicolon implies m == self.pos() - 1 by {
                            if m < self.pos() - 1 {
                                assert(!((|t: TokenKind| t is Semicolon)(self.toks()[m].kind)));
                            }
                        }
                    }
                }
                return;
            }
            proof {
                assert forall|m: int| start.pos() <= m < self.pos() && nest(self.toks(), start.pos(), m, 0) == 0
                    implies !((|t: TokenKind| t is Semicolon)((#[trigger] self.toks()[m]).kind)) by {
                    if m == self.pos() - 1 {
                        assert(nest(self.toks(), start.pos(), m, 0) == d_before);
                    }
                }
            }
        }
    }

    /// Leaves the `depth` blocks the error happened in, then stops before the
    /// next `,`, `;`, `)` or `}`.
    pub fn sync_expr(&mut self, depth: usize)
        requires
            old(self).wf(),
        ensures
            old(self).steps_to(final(self)),
            final(self).errs() == old(self).errs(),
            final(self).cur_kind() is Eof || follows_expr(final(self).cur_kind()),
            depth == 0 && follows_expr(old(self).cur_kind()) ==> final(self).pos() == old(self).pos(),
            skips_no_closing(final(self).toks(), old(self).pos(), final(self).pos(), depth),
            !(final(self).cur_kind() is Eof) ==> nest(final(self).toks(), old(self).pos(), final(self).pos(), depth) == 0,
        recovered(SyncRule::Expr { depth: depth }, old(self).toks(), old(self).pos(), final(self).pos()),
    {
        let ghost start = *self;
        proof {
            super::lemma_steps_refl(self);
        }
        let mut d = depth;
        let ghost mut moved = false;
        loop
            invariant
                start == *old(self),
                start.steps_to(self),
                self.errs() == start.errs(),
                skipped_none(self.toks(), start.pos(), self.pos(), depth, |t: TokenKind| follows_expr(t)),
                d == nest(self.toks(), start.pos(), self.pos(), depth),
                skips_no_closing(self.toks(), start.pos(), self.pos(), depth),
                !moved ==> self.pos() == start.pos() && d == depth,
                depth == 0 && follows_expr(start.cur_kind()) ==> !moved,
            decreases self.remaining(),
        {
            let k = self.peek().kind.duplicate();
            if matches!(k, TokenKind::Eof) {
                return;
            }
            if d == 0 && (matches!(k, TokenKind::Comma) || matches!(k, TokenKind::Semicolon)
                || matches!(k, TokenKind::RParen) || matches!(k, TokenKind::RBrace)) {
                return;
            }
            let ghost d_before = d;
            if matches!(k, TokenKind::LBrace) {
                d = d.saturating_add(1);
            } else if matches!(k, TokenKind::RBrace) && d > 0 {
                d = d - 1;
            }
            let ghost before = *self;
            self.next();
            proof {
                super::lemma_steps_trans(&start, &before, self);
                moved = true;
                assert(self.pos() == before.pos() + 1);
                assert(self.toks()[before.pos()].kind == k);
                assert(self.toks() == before.toks());
                assert(nest(self.toks(), start.pos(), before.pos(), depth) == d_before);
                assert forall|m: int| start.pos() <= m < self.pos() && nest(self.toks(), start.pos(), m, depth) == 0
                    implies !(|t: TokenKind| follows_expr(t))((#[trigger] self.toks()[m]).kind) by {
                    if m == before.pos() {
                        assert(nest(self.toks(), start.pos(), m, depth) == d_before);
                    }
                }
            }
        }
    }
}

} // verus!
