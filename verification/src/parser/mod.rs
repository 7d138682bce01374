//! Recursive-descent parser with a Pratt parser for expressions. Errors are
//! reported to the parser's diagnostics; after an error the parser skips
//! ahead to a point where it can go on (see `sync`).

use vstd::prelude::*;
use crate::ast::Ident;
use crate::diagnostics::{CompilerError, Diagnostics, Expected, Span};
use crate::lexer::ends_with_single_eof;
use crate::token::{Token, TokenKind};

pub mod sync;
pub mod expr;
pub mod net;
pub mod item;

verus! {

pub struct Parser {
    tokens: Vec<Token>,
    current: usize,
    diagnostics: Diagnostics,
}

/// The token stream a parser works on: `tokens` up to and including the first
/// `Eof`, or all of `tokens` and one `Eof` more when they hold none.
pub open spec fn normalized_tokens(tokens: Seq<Token>) -> Seq<Token>
    decreases tokens.len(),
{
    if tokens.len() == 0 {
        seq![Token { kind: TokenKind::Eof, span: Span { line: 0, col: 0 } }]
    } else {
        let prefix = normalized_tokens(tokens.drop_last());
        if prefix.last().kind is Eof && first_eof_in(tokens.drop_last()) {
            prefix
        } else if tokens.last().kind is Eof {
            tokens
        } else {
            tokens + seq![Token { kind: TokenKind::Eof, span: tokens.last().span }]
        }
    }
}

/// Some token of `tokens` is an `Eof`.
/// The name a token spells, where it is an identifier.
pub open spec fn ident_token(t: Token) -> Option<Ident> {
    match t.kind {
        TokenKind::Ident(val) => Some(Ident::Str { val, span: t.span }),
        _ => None,
    }
}

pub open spec fn first_eof_in(tokens: Seq<Token>) -> bool {
    exists|i: int| 0 <= i < tokens.len() && (#[trigger] tokens[i]).kind is Eof
}

impl Parser {
    /// The tokens being parsed.
    pub closed spec fn toks(&self) -> Seq<Token> {
        self.tokens@
    }

    /// The index of the next token to read.
    pub closed spec fn pos(&self) -> int {
        self.current as int
    }

    /// The errors reported so far.
    pub closed spec fn errs(&self) -> Seq<CompilerError> {
        self.diagnostics@
    }

    /// The token stream ends with its only `Eof` and the position is inside it.
    pub open spec fn wf(&self) -> bool {
        &&& ends_with_single_eof(self.toks())
        &&& 0 <= self.pos() < self.toks().len()
    }

    /// The kind of the next token.
    pub open spec fn cur_kind(&self) -> TokenKind {
        self.toks()[self.pos()].kind
    }

    /// `after` is this parser later on: same tokens, position not moved back,
    /// and the errors of this parser followed by those reported since.
    pub open spec fn steps_to(&self, after: &Parser) -> bool {
        &&& after.wf()
        &&& after.toks() == self.toks()
        &&& self.pos() <= after.pos()
        &&& self.errs().len() <= after.errs().len()
        &&& after.errs().subrange(0, self.errs().len() as int) == self.errs()
    }

    /// How many tokens are left to read.
    pub open spec fn remaining(&self) -> nat {
        (self.toks().len() - self.pos()) as nat
    }

    /// A parser over `tokens` (cut after the first `Eof`, or given an `Eof`
    /// at the end when they hold none) that reports to `diagnostics`.
    pub fn new(tokens: Vec<Token>, diagnostics: Diagnostics) -> (p: Parser)
        ensures
            p.wf(),
            p.pos() == 0,
            p.errs() == diagnostics@,
            p.toks() == normalized_tokens(tokens@),
    {
        let mut kept: Vec<Token> = Vec::new();
        let mut i: usize = 0;
        let mut found_eof = false;
        while i < tokens.len() && !found_eof
            invariant
                i <= tokens.len(),
                found_eof ==> i >= 1,
                found_eof ==> kept@ == normalized_tokens(tokens@.subrange(0, i as int)),
                found_eof ==> ends_with_single_eof(kept@),
                found_eof ==> first_eof_in(tokens@.subrange(0, i as int)),
                !found_eof ==> kept@ == tokens@.subrange(0, i as int),
                !found_eof ==> !first_eof_in(tokens@.subrange(0, i as int)),
            decreases tokens.len() - i + if found_eof { 0int } else { 1int },
        {
            let t = tokens[i].duplicate();
            let is_eof = matches!(t.kind, TokenKind::Eof);
            let ghost before = tokens@.subrange(0, i as int);
            kept.push(t);
            i = i + 1;
            let ghost now = tokens@.subrange(0, i as int);
            assert(now.drop_last() =~= before);
            proof {
                lemma_normalized_no_eof(before);
            }
            if is_eof {
                found_eof = true;
                assert(kept@ =~= now);
                assert(now[now.len() - 1].kind is Eof);
                assert(first_eof_in(now));
            } else {
                assert(kept@ =~= now);
                assert forall|j: int| 0 <= j < now.len() implies !((#[trigger] now[j]).kind is Eof) by {
                    if j < before.len() {
                        assert(now[j] == before[j]);
                    }
                }
            }
        }
        if !found_eof {
            let ghost all = tokens@;
            assert(tokens@.subrange(0, tokens@.len() as int) =~= all);
            let span = if kept.len() == 0 {
                Span { line: 0, col: 0 }
            } else {
                kept[kept.len() - 1].span
            };
            proof {
                lemma_normalized_no_eof(all);
            }
            kept.push(Token { kind: TokenKind::Eof, span });
        } else {
            proof {
                lemma_normalized_extends(tokens@, i as int);
            }
        }
        Parser { tokens: kept, current: 0, diagnostics }
    }

    /// The diagnostics reported so far.
    pub fn diagnostics(&self) -> (d: &Diagnostics)
        ensures
            d@ == self.errs(),
    {
        &self.diagnostics
    }

    /// Ends parsing and hands back the diagnostics.
    pub fn into_diagnostics(self) -> (d: Diagnostics)
        ensures
            d@ == self.errs(),
    {
        self.diagnostics
    }

    /// The next token, not consumed.
    pub fn peek(&self) -> (t: &Token)
        requires
            self.wf(),
        ensures
            *t == self.toks()[self.pos()],
    {
        &self.tokens[self.current]
    }

    /// The token `n` places ahead, or the final `Eof` when there are fewer left.
    pub fn peek_n(&self, n: usize) -> (t: &Token)
        requires
            self.wf(),
        ensures
            self.pos() + n < self.toks().len() ==> *t == self.toks()[self.pos() + n],
            self.pos() + n >= self.toks().len() ==> *t == self.toks().last(),
    {
        let last = self.tokens.len() - 1;
        if n <= last - self.current {
            &self.tokens[self.current + n]
        } else {
            &self.tokens[last]
        }
    }

    /// Consumes and returns the next token; at the final `Eof` the position stays.
    pub fn next(&mut self) -> (t: Token)
        requires
            old(self).wf(),
        ensures
            old(self).steps_to(final(self)),
            final(self).errs() == old(self).errs(),
            t == old(self).toks()[old(self).pos()],
            !(t.kind is Eof) ==> final(self).pos() == old(self).pos() + 1,
            t.kind is Eof ==> final(self).pos() == old(self).pos(),
    {
        let t = self.tokens[self.current].duplicate();
        if self.current < self.tokens.len() - 1 {
            self.current = self.current + 1;
        }
        proof {
            assert(self.diagnostics@.subrange(0, self.diagnostics@.len() as int) =~= self.diagnostics@);
        }
        t
    }

    /// Reports that `found` was met where one of `expected` was wanted.
    pub fn report_unexpected(&mut self, expected: Vec<Expected>, found: &Token)
        requires
            old(self).wf(),
        ensures
            old(self).steps_to(final(self)),
            final(self).pos() == old(self).pos(),
            final(self).errs() == old(self).errs().push(
                CompilerError::UnexpectedToken { expected, found: found.kind, span: found.span },
            ),
    {
        let ghost before = self.diagnostics@;
        self.diagnostics.error(CompilerError::UnexpectedToken {
            expected,
            found: found.kind.duplicate(),
            span: found.span,
        });
        proof {
            assert(self.diagnostics@.subrange(0, before.len() as int) =~= before);
        }
    }
}

/// The one-element list `[e]`.
pub fn expect_one(e: Expected) -> (v: Vec<Expected>)
    ensures
        v@ == seq![e],
{
    let mut v = Vec::new();
    v.push(e);
    assert(v@ =~= seq![e]);
    v
}

/// The list `[a, b, ...]` of the given expectations, in order.
pub fn expect_list(items: &[Expected]) -> (v: Vec<Expected>)
    ensures
        v@ == items@,
{
    let mut v: Vec<Expected> = Vec::new();
    let mut i: usize = 0;
    while i < items.len()
        invariant
            i <= items.len(),
            v@ == items@.subrange(0, i as int),
        decreases items.len() - i,
    {
        v.push(items[i].duplicate());
        i = i + 1;
        assert(v@ =~= items@.subrange(0, i as int));
    }
    assert(items@.subrange(0, items@.len() as int) =~= items@);
    v
}

/// A parser state steps to itself.
pub proof fn lemma_steps_refl(p: &Parser)
    requires
        p.wf(),
    ensures
        p.steps_to(p),
{
    assert(p.errs().subrange(0, p.errs().len() as int) =~= p.errs());
}

/// Stepping is transitive.
pub proof fn lemma_steps_trans(a: &Parser, b: &Parser, c: &Parser)
    requires
        a.steps_to(b),
        b.steps_to(c),
    ensures
        a.steps_to(c),
{
    assert(c.errs().subrange(0, a.errs().len() as int) =~= c.errs().subrange(0, b.errs().len() as int).subrange(0, a.errs().len() as int));
}

/// A sequence without `Eof` normalizes to itself plus a closing `Eof`.
proof fn lemma_normalized_no_eof(tokens: Seq<Token>)
    requires
        !first_eof_in(tokens),
    ensures
        tokens.len() == 0 ==> normalized_tokens(tokens) == seq![Token { kind: TokenKind::Eof, span: Span { line: 0, col: 0 } }],
        tokens.len() > 0 ==> normalized_tokens(tokens) == tokens + seq![Token { kind: TokenKind::Eof, span: tokens.last().span }],
    decreases tokens.len(),
{
    if tokens.len() > 0 {
        let p = tokens.drop_last();
        assert(!first_eof_in(p)) by {
            if first_eof_in(p) {
                let i = choose|i: int| 0 <= i < p.len() && (#[trigger] p[i]).kind is Eof;
                assert(tokens[i] == p[i]);
            }
        }
        assert(!(tokens[tokens.len() - 1].kind is Eof));
    }
}

/// Once the first `Eof` is in the prefix of length `i`, longer prefixes normalize the same.
proof fn lemma_normalized_extends(tokens: Seq<Token>, i: int)
    requires
        1 <= i <= tokens.len(),
        first_eof_in(tokens.subrange(0, i)),
        ends_with_single_eof(normalized_tokens(tokens.subrange(0, i))),
    ensures
        normalized_tokens(tokens) == normalized_tokens(tokens.subrange(0, i)),
    decreases tokens.len() - i,
{
    if i < tokens.len() {
        let longer = tokens.subrange(0, i + 1);
        assert(longer.drop_last() =~= tokens.subrange(0, i));
        assert(first_eof_in(longer)) by {
            let k = choose|k: int| 0 <= k < i && (#[trigger] tokens.subrange(0, i)[k]).kind is Eof;
            assert(longer[k] == tokens.subrange(0, i)[k]);
        }
        lemma_normalized_extends(tokens, i + 1);
    } else {
        assert(tokens.subrange(0, i) =~= tokens);
    }
}

} // verus!
