//! Expressions, parsed with a Pratt parser.
//!
//! An error anywhere in an expression makes the whole expression fail,
//! with three exceptions where only the broken part becomes `Expr::Error`:
//! a statement or the final expression of a block, an element of a tuple,
//! and the result of an arm of `cases` or `sample`.

use vstd::prelude::*;
use super::Parser;
use super::sync::SyncRule;
use super::{ident_token, lemma_steps_trans};
use crate::ast::{
    BinaryExpr, BinaryOp, BlockExpr, CasesArm, CasesExpr, CompOp, ComparisonPattern, Expr,
    Ident, LetStatement, Literal, Prob, SampleArm, SampleExpr, SimplePattern, Statement,
    UnaryExpr, UnaryOp, expr_clean, statement_clean, cases_arm_clean, pattern_clean,
    sample_arm_clean, expr_untyped, statement_untyped, cases_arm_untyped, pattern_untyped, sample_arm_untyped,
};
use crate::diagnostics::{Expected, Span};
use crate::token::{Token, TokenKind};
use crate::types::Type;

verus! {

/// The binary operator a token stands for, with its left and right binding power.
pub open spec fn infix_spec(k: TokenKind) -> Option<(BinaryOp, u8, u8)> {
    match k {
        TokenKind::Gt => Some((BinaryOp::Gt, 1u8, 2u8)),
        TokenKind::Lt => Some((BinaryOp::Lt, 1u8, 2u8)),
        TokenKind::Ge => Some((BinaryOp::Ge, 1u8, 2u8)),
        TokenKind::Le => Some((BinaryOp::Le, 1u8, 2u8)),
        TokenKind::Plus => Some((BinaryOp::Add, 10u8, 11u8)),
        TokenKind::Minus => Some((BinaryOp::Sub, 10u8, 11u8)),
        TokenKind::Asterisk => Some((BinaryOp::Mul, 20u8, 21u8)),
        TokenKind::Slash => Some((BinaryOp::Div, 20u8, 21u8)),
        TokenKind::Caret => Some((BinaryOp::Pow, 31u8, 30u8)),
        TokenKind::Pipe => Some((BinaryOp::Or, 10u8, 11u8)),
        TokenKind::Ampersand => Some((BinaryOp::And, 20u8, 21u8)),
        _ => None,
    }
}

/// The expression a single literal or name token stands for.
pub open spec fn atom_token(t: Token) -> Option<Expr> {
    match t.kind {
        TokenKind::IntLiteral(n) => Some(Expr::Literal(Literal::Int(n))),
        TokenKind::BoolLiteral(b) => Some(Expr::Literal(Literal::Bool(b))),
        TokenKind::RealLiteral(d) => Some(Expr::Literal(Literal::Real(d))),
        TokenKind::Ident(val) => Some(Expr::Ident(Ident::Str { val, span: t.span })),
        _ => None,
    }
}

/// The token at `p` is a literal or a name that no operator binding at
/// least `min_bp` follows: the expression is that token alone.
pub open spec fn lone_atom(toks: Seq<Token>, p: int, min_bp: u8) -> bool {
    &&& atom_token(toks[p]) is Some
    &&& (infix_spec(toks[p + 1].kind) matches Some((_, l, _)) ==> l < min_bp)
}

/// From `q`: a literal or a name, or `a op b` of two, and then `;`.
pub open spec fn body_tokens_at(toks: Seq<Token>, q: int) -> bool {
    &&& atom_token(toks[q]) is Some
    &&& toks[q + 1].kind is Semicolon || (infix_spec(toks[q + 1].kind) is Some
        && atom_token(toks[q + 2]) is Some && toks[q + 3].kind is Semicolon)
}

/// Where the tokens of `body_tokens_at` end, just after the `;`.
pub open spec fn body_end(toks: Seq<Token>, q: int) -> int {
    if toks[q + 1].kind is Semicolon { q + 2 } else { q + 4 }
}

/// The expression that `body_tokens_at` spells.
pub open spec fn body_expr(toks: Seq<Token>, q: int) -> Expr {
    if toks[q + 1].kind is Semicolon { atom_token(toks[q])->0 } else { binary_at(toks, q) }
}

/// The tokens from `p` to `end` are `NAME = e;` (after `let`) where `e` is
/// a literal or a name, or `a op b` of two, and `s` is that statement.
pub open spec fn simple_let_at(toks: Seq<Token>, p: int, s: LetStatement, end: int) -> bool {
    &&& ident_token(toks[p]) == Some(s.name)
    &&& toks[p + 1].kind is Equals
    &&& body_tokens_at(toks, p + 2)
    &&& s.expr == body_expr(toks, p + 2)
    &&& end == body_end(toks, p + 2)
}

/// The tokens from `p` are `a op b` of two literals or names, with no
/// operator binding at least `min_bp` after them (and `op` binding at least
/// `min_bp`): the expression is that one operation.
pub open spec fn lone_binary(toks: Seq<Token>, p: int, min_bp: u8) -> bool {
    &&& atom_token(toks[p]) is Some
    &&& infix_spec(toks[p + 1].kind) matches Some((_, l, rb)) && l >= min_bp && lone_atom(toks, p + 2, rb)
    &&& (infix_spec(toks[p + 3].kind) matches Some((_, l2, _)) ==> l2 < min_bp)
}

/// The binary operator a token stands for (`+` where it stands for none).
pub open spec fn infix_op(k: TokenKind) -> BinaryOp {
    match infix_spec(k) {
        Some((op, _, _)) => op,
        None => BinaryOp::Add,
    }
}

/// The operation `a op b` of `lone_binary`.
pub open spec fn binary_at(toks: Seq<Token>, p: int) -> Expr {
    Expr::Binary(BinaryExpr {
        left: Box::new(atom_token(toks[p])->0),
        op: infix_op(toks[p + 1].kind),
        right: Box::new(atom_token(toks[p + 2])->0),
        op_span: toks[p + 1].span,
        expr_type: Type::Unknown,
    })
}

/// How tightly an operator token binds the expression on its left.
pub open spec fn bind_left(k: TokenKind) -> u8 {
    match infix_spec(k) {
        Some((_, l, _)) => l,
        None => 0,
    }
}

/// How tightly an operator token binds the expression on its right.
pub open spec fn bind_right(k: TokenKind) -> u8 {
    match infix_spec(k) {
        Some((_, _, r)) => r,
        None => 0,
    }
}

/// The tokens from `p` are `a op1 b op2 c` of literals or names, both
/// operators binding at least `min_bp`, and no operator after them.
pub open spec fn lone_chain(toks: Seq<Token>, p: int, min_bp: u8) -> bool {
    &&& atom_token(toks[p]) is Some
    &&& infix_spec(toks[p + 1].kind) matches Some((_, l1, _)) && l1 >= min_bp
    &&& atom_token(toks[p + 2]) is Some
    &&& infix_spec(toks[p + 3].kind) matches Some((_, l2, _)) && l2 >= min_bp
    &&& atom_token(toks[p + 4]) is Some
    &&& infix_spec(toks[p + 5].kind) is None
}

/// `a op1 b op2 c` of `lone_chain` groups as `a op1 (b op2 c)` where `op2`
/// binds at least as tightly as the right side of `op1`, and as
/// `(a op1 b) op2 c` otherwise.
pub open spec fn chain_at(toks: Seq<Token>, p: int) -> Expr {
    if bind_left(toks[p + 3].kind) >= bind_right(toks[p + 1].kind) {
        Expr::Binary(BinaryExpr {
            left: Box::new(atom_token(toks[p])->0),
            op: infix_op(toks[p + 1].kind),
            right: Box::new(binary_at(toks, p + 2)),
            op_span: toks[p + 1].span,
            expr_type: Type::Unknown,
        })
    } else {
        Expr::Binary(BinaryExpr {
            left: Box::new(binary_at(toks, p)),
            op: infix_op(toks[p + 3].kind),
            right: Box::new(atom_token(toks[p + 4])->0),
            op_span: toks[p + 3].span,
            expr_type: Type::Unknown,
        })
    }
}

/// The tokens a simple pattern can begin with: `_`, a literal, a name, `(`
/// or a comparison.
pub open spec fn starts_pattern(k: TokenKind) -> bool {
    k is Underscore || k is BoolLiteral || k is IntLiteral || k is RealLiteral || k is Ident
        || k is LParen || k is Gt || k is Lt || k is Ge || k is Le
}

/// Binding power of prefix `-` and `~`.
pub const PREFIX_BP: u8 = 25;

impl Parser {
    /// The binary operator of `token`, its span and its left and right binding power.
    pub fn infix_into(&self, token: &Token) -> (r: Option<(BinaryOp, Span, u8, u8)>)
        ensures
            match infix_spec(token.kind) {
                Some((op, l, rb)) => r == Some((op, token.span, l, rb)),
                None => r is None,
            },
    {
        let s = token.span;
        match token.kind {
            TokenKind::Gt => Some((BinaryOp::Gt, s, 1, 2)),
            TokenKind::Lt => Some((BinaryOp::Lt, s, 1, 2)),
            TokenKind::Ge => Some((BinaryOp::Ge, s, 1, 2)),
            TokenKind::Le => Some((BinaryOp::Le, s, 1, 2)),
            TokenKind::Plus => Some((BinaryOp::Add, s, 10, 11)),
            TokenKind::Minus => Some((BinaryOp::Sub, s, 10, 11)),
            TokenKind::Asterisk => Some((BinaryOp::Mul, s, 20, 21)),
            TokenKind::Slash => Some((BinaryOp::Div, s, 20, 21)),
            TokenKind::Caret => Some((BinaryOp::Pow, s, 31, 30)),
            TokenKind::Pipe => Some((BinaryOp::Or, s, 10, 11)),
            TokenKind::Ampersand => Some((BinaryOp::And, s, 20, 21)),
            _ => None,
        }
    }

    /// An expression whose binary operators all bind at least as tightly as
    /// `min_bp` (0 for a whole expression).
    pub fn parse_expr(&mut self, min_bp: u8) -> (r: Option<Expr>)
        requires
            old(self).wf(),
        ensures
            old(self).steps_to(final(self)),
            r is None ==> final(self).errs().len() > old(self).errs().len(),
            final(self).errs().len() == old(self).errs().len() ==> (r matches Some(e) && expr_clean(e)),
            r matches Some(e) ==> expr_untyped(e),
            lone_atom(old(self).toks(), old(self).pos(), min_bp) ==> r == atom_token(old(self).toks()[old(self).pos()])
                && final(self).pos() == old(self).pos() + 1 && final(self).errs() == old(self).errs(),
            lone_binary(old(self).toks(), old(self).pos(), min_bp) ==> r == Some(binary_at(old(self).toks(), old(self).pos()))
                && final(self).pos() == old(self).pos() + 3 && final(self).errs() == old(self).errs(),
            lone_chain(old(self).toks(), old(self).pos(), min_bp) ==> r == Some(chain_at(old(self).toks(), old(self).pos()))
                && final(self).pos() == old(self).pos() + 5 && final(self).errs() == old(self).errs(),
        decreases old(self).remaining(), 1nat,
    {
        let ghost start = *self;
        let ghost toks = start.toks();
        let ghost p = start.pos();
        let ghost lone = lone_atom(start.toks(), start.pos(), min_bp);
        let ghost pair = lone_binary(start.toks(), start.pos(), min_bp);
        let ghost chain = lone_chain(toks, p, min_bp);
        let ghost tight = chain && bind_left(toks[p + 3].kind) >= bind_right(toks[p + 1].kind);
        let ghost mut round: int = 0;
        let mut lhs = match self.parse_prefix() {
            Some(e) => e,
            None => return None,
        };
        loop
            invariant
                start == *old(self),
                lone == lone_atom(start.toks(), start.pos(), min_bp),
                lone ==> lhs == atom_token(start.toks()[start.pos()])->0 && self.pos() == start.pos() + 1,
                pair == lone_binary(start.toks(), start.pos(), min_bp),
                pair ==> 0 <= round <= 1,
                pair && round == 0 ==> lhs == atom_token(start.toks()[start.pos()])->0 && self.pos() == start.pos() + 1,
                (lone || pair) ==> self.errs() == start.errs(),
                pair && round == 1 ==> lhs == binary_at(start.toks(), start.pos()) && self.pos() == start.pos() + 3,
                toks == start.toks() && p == start.pos(),
                chain == lone_chain(toks, p, min_bp),
                tight == (chain && bind_left(toks[p + 3].kind) >= bind_right(toks[p + 1].kind)),
                chain ==> 0 <= round <= 2 && self.errs() == start.errs(),
                tight ==> round <= 1,
                chain && round == 0 ==> lhs == atom_token(toks[p])->0 && self.pos() == p + 1,
                chain && !tight && round == 1 ==> lhs == binary_at(toks, p) && self.pos() == p + 3,
                chain && (tight && round == 1 || round == 2) ==> lhs == chain_at(toks, p) && self.pos() == p + 5,
                start.steps_to(self),
                self.errs().len() == start.errs().len() ==> expr_clean(lhs),
                expr_untyped(lhs),
            ensures
                pair ==> round == 1,
                chain ==> (tight && round == 1 || round == 2),
            decreases self.remaining(),
        {
            let token = self.peek().duplicate();
            let (op, op_span, left_bp, right_bp) = match self.infix_into(&token) {
                Some(x) => x,
                None => break,
            };
            if left_bp < min_bp {
                break;
            }
            let ghost s0 = *self;
            self.next();
            let ghost s1 = *self;
            proof {
                lemma_steps_trans(&start, &s0, &s1);
            }
            proof {
                if chain && round == 0 {
                    if tight {
                        assert(lone_binary(toks, p + 2, right_bp));
                    } else {
                        assert(lone_atom(toks, p + 2, right_bp));
                    }
                }
                if chain && round == 1 && !tight {
                    assert(lone_atom(toks, p + 4, right_bp));
                }
            }
            let rhs = self.parse_expr(right_bp);
            proof {
                lemma_steps_trans(&start, &s1, self);
            }
            let rhs = match rhs {
                Some(e) => e,
                None => return None,
            };
            lhs = Expr::Binary(BinaryExpr {
                left: Box::new(lhs),
                op,
                right: Box::new(rhs),
                op_span,
                expr_type: Type::Unknown,
            });
            proof {
                round = round + 1;
            }
        }
        Some(lhs)
    }

    /// Reports the next token as not starting an expression and skips past the broken expression.
    fn fail_expr(&mut self) -> (r: Option<Expr>)
        requires
            old(self).wf(),
        ensures
            old(self).steps_to(final(self)),
            r is None,
            final(self).reported_here(old(self), seq![Expected::Expr]),
    {
        let ghost start = *self;
        let found = self.peek().duplicate();
        self.report_unexpected(super::expect_one(Expected::Expr), &found);
        let ghost mid = *self;
        self.sync(&SyncRule::Expr { depth: 0 });
        proof {
            lemma_steps_trans(&start, &mid, self);
            assert(self.errs()[start.errs().len() as int] == mid.errs()[start.errs().len() as int]);
        }
        None
    }

    /// A literal, name, prefix operation, parenthesized expression or tuple,
    /// block, `cases` or `sample`.
    pub fn parse_prefix(&mut self) -> (r: Option<Expr>)
        requires
            old(self).wf(),
        ensures
            old(self).steps_to(final(self)),
            r is None ==> final(self).errs().len() > old(self).errs().len(),
            final(self).errs().len() == old(self).errs().len() ==> (r matches Some(e) && expr_clean(e)),
            r matches Some(e) ==> expr_untyped(e),
            old(self).cur_kind() matches TokenKind::IntLiteral(n) ==> r == Some(Expr::Literal(Literal::Int(n))),
            old(self).cur_kind() matches TokenKind::BoolLiteral(b) ==> r == Some(Expr::Literal(Literal::Bool(b))),
            old(self).cur_kind() matches TokenKind::RealLiteral(d) ==> r == Some(Expr::Literal(Literal::Real(d))),
            old(self).cur_kind() is Ident ==> r == Some(Expr::Ident(ident_token(old(self).toks()[old(self).pos()])->0)),
            atom_token(old(self).toks()[old(self).pos()]) is Some ==> r == atom_token(old(self).toks()[old(self).pos()])
                && final(self).pos() == old(self).pos() + 1 && final(self).errs() == old(self).errs(),
            (old(self).cur_kind() is Minus && r is Some) ==> (r->0 matches Expr::Unary(u) && u.op is Neg
                && u.op_span == old(self).toks()[old(self).pos()].span),
            (old(self).cur_kind() is Minus || old(self).cur_kind() is BitNot)
                && lone_atom(old(self).toks(), old(self).pos() + 1, PREFIX_BP) ==> (r matches Some(Expr::Unary(u))
                && *u.expr == atom_token(old(self).toks()[old(self).pos() + 1])->0
                && final(self).pos() == old(self).pos() + 2),
            (old(self).cur_kind() is BitNot && r is Some) ==> (r->0 matches Expr::Unary(u) && u.op is BitNot
                && u.op_span == old(self).toks()[old(self).pos()].span),
        decreases old(self).remaining(), 0nat,
    {
        let ghost start = *self;
        let token = self.peek().duplicate();
        match token.kind {
            TokenKind::BoolLiteral(b) => {
                self.next();
                Some(Expr::Literal(Literal::Bool(b)))
            }
            TokenKind::IntLiteral(n) => {
                self.next();
                Some(Expr::Literal(Literal::Int(n)))
            }
            TokenKind::RealLiteral(d) => {
                self.next();
                Some(Expr::Literal(Literal::Real(d)))
            }
            TokenKind::Ident(val) => {
                self.next();
                Some(Expr::Ident(Ident::Str { val, span: token.span }))
            }
            TokenKind::Minus | TokenKind::BitNot => {
                let op = if matches!(token.kind, TokenKind::Minus) {
                    UnaryOp::Neg
                } else {
                    UnaryOp::BitNot
                };
                self.next();
                let ghost s1 = *self;
                let rhs = self.parse_expr(PREFIX_BP);
                proof {
                    lemma_steps_trans(&start, &s1, self);
                }
                match rhs {
                    Some(e) => Some(Expr::Unary(UnaryExpr {
                        op,
                        expr: Box::new(e),
                        op_span: token.span,
                        expr_type: Type::Unknown,
                    })),
                    None => None,
                }
            }
            TokenKind::LParen => {
                self.next();
                self.parse_paren_tail(Ghost(start))
            }
            TokenKind::LBrace => {
                self.next();
                let ghost s1 = *self;
                let r = self.parse_block_expr();
                proof {
                    lemma_steps_trans(&start, &s1, self);
                }
                r
            }
            TokenKind::Cases => {
                self.next();
                let ghost s1 = *self;
                let r = self.parse_cases(token.span);
                proof {
                    lemma_steps_trans(&start, &s1, self);
                }
                r
            }
            TokenKind::Sample => {
                self.next();
                let ghost s1 = *self;
                let r = self.parse_sample(token.span);
                proof {
                    lemma_steps_trans(&start, &s1, self);
                }
                r
            }
            _ => self.fail_expr(),
        }
    }

    /// After `(`: a parenthesized expression `e)` or a tuple `e, e, ...)`.
    fn parse_paren_tail(&mut self, Ghost(outer): Ghost<Parser>) -> (r: Option<Expr>)
        requires
            old(self).wf(),
            outer.steps_to(old(self)),
            old(self).pos() > outer.pos(),
        ensures
            outer.steps_to(final(self)),
            r is None ==> final(self).errs().len() > old(self).errs().len(),
            final(self).errs().len() == old(self).errs().len() ==> (r matches Some(e) && expr_clean(e)),
            r matches Some(e) ==> expr_untyped(e),
            r is Some ==> final(self).pos() > old(self).pos()
                && final(self).toks()[final(self).pos() - 1].kind is RParen,
        decreases old(self).remaining(), 2nat,
    {
        let ghost start = *self;
        let first = self.parse_expr(0);
        let ghost s1 = *self;
        let closing = self.next();
        let ghost s2 = *self;
        proof {
            lemma_steps_trans(&start, &s1, &s2);
        }
        match closing.kind {
            TokenKind::RParen => {
                proof {
                    lemma_steps_trans(&outer, &start, self);
                }
                first
            }
            TokenKind::Comma => {
                let mut elements: Vec<Expr> = Vec::new();
                elements.push(match first {
                    Some(e) => e,
                    None => Expr::Error,
                });
                let ghost s3 = *self;
                let second = self.parse_expr(0);
                proof {
                    lemma_steps_trans(&start, &s3, self);
                }
                elements.push(match second {
                    Some(e) => e,
                    None => Expr::Error,
                });
                while matches!(self.peek().kind, TokenKind::Comma)
                    invariant
                        start == *old(self),
                        start.steps_to(self),
                        self.errs().len() == start.errs().len() ==>
                            forall|i: int| 0 <= i < elements@.len() ==> expr_clean(#[trigger] elements@[i]),
                        forall|i: int| 0 <= i < elements@.len() ==> expr_untyped(#[trigger] elements@[i]),
                    decreases self.remaining(),
                {
                    let ghost t0 = *self;
                    self.next();
                    let ghost t1 = *self;
                    proof {
                        lemma_steps_trans(&start, &t0, &t1);
                    }
                    let e = self.parse_expr(0);
                    proof {
                        lemma_steps_trans(&start, &t1, self);
                    }
                    elements.push(match e {
                        Some(e) => e,
                        None => Expr::Error,
                    });
                }
                let ghost s4 = *self;
                let close = self.expect(TokenKind::RParen, &SyncRule::Expr { depth: 0 });
                proof {
                    lemma_steps_trans(&start, &s4, self);
                    lemma_steps_trans(&outer, &start, self);
                }
                match close {
                    Some(_) => Some(Expr::Tuple(elements)),
                    None => None,
                }
            }
            _ => {
                self.report_unexpected(super::expect_list(&[Expected::Token(TokenKind::RParen), Expected::Token(TokenKind::Comma)]), &closing);
                let ghost s3 = *self;
                proof {
                    lemma_steps_trans(&start, &s2, &s3);
                }
                self.sync(&SyncRule::Expr { depth: 0 });
                proof {
                    lemma_steps_trans(&start, &s3, self);
                    lemma_steps_trans(&outer, &start, self);
                }
                None
            }
        }
    }

    /// After `{`: statements `let x = e;` then a final expression, then `}`.
    pub fn parse_block_expr(&mut self) -> (r: Option<Expr>)
        requires
            old(self).wf(),
        ensures
            old(self).steps_to(final(self)),
            r is None ==> final(self).errs().len() > old(self).errs().len(),
            final(self).errs().len() == old(self).errs().len() ==> (r matches Some(e) && expr_clean(e)),
            r matches Some(e) ==> expr_untyped(e),
        decreases old(self).remaining(), 2nat,
    {
        let ghost start = *self;
        let mut statements: Vec<Statement> = Vec::new();
        proof {
            super::lemma_steps_refl(self);
        }
        while matches!(self.peek().kind, TokenKind::Let)
            invariant
                start == *old(self),
                start.steps_to(self),
                self.errs().len() == start.errs().len() ==>
                    forall|i: int| 0 <= i < statements@.len() ==> statement_clean(#[trigger] statements@[i]),
                forall|i: int| 0 <= i < statements@.len() ==> statement_untyped(#[trigger] statements@[i]),
            decreases self.remaining(),
        {
            let ghost t0 = *self;
            self.next();
            let ghost t1 = *self;
            proof {
                lemma_steps_trans(&start, &t0, &t1);
            }
            let st = self.parse_let_stmt();
            proof {
                lemma_steps_trans(&start, &t1, self);
            }
            statements.push(match st {
                Some(s) => Statement::Let(s),
                None => Statement::Error,
            });
        }
        let ghost s1 = *self;
        let e = self.parse_expr(0);
        let ghost s2 = *self;
        proof {
            lemma_steps_trans(&start, &s1, &s2);
        }
        let expr = match e {
            Some(e) => e,
            None => Expr::Error,
        };
        let close = self.expect(TokenKind::RBrace, &SyncRule::Item);
        proof {
            lemma_steps_trans(&start, &s2, self);
            assert(expr_untyped(expr));
        }
        match close {
            Some(_) => Some(Expr::Block(BlockExpr {
                statements,
                expr: Box::new(expr),
                expr_type: Type::Unknown,
            })),
            None => None,
        }
    }

    /// After `let`: `name = expr;`. A broken expression stands as `Expr::Error`.
    pub fn parse_let_stmt(&mut self) -> (r: Option<LetStatement>)
        requires
            old(self).wf(),
        ensures
            old(self).steps_to(final(self)),
            r is None ==> final(self).errs().len() > old(self).errs().len(),
            final(self).errs().len() == old(self).errs().len() ==> (r matches Some(s) && expr_clean(s.expr)),
            r matches Some(s) ==> expr_untyped(s.expr),
            r matches Some(s) ==> ident_token(old(self).toks()[old(self).pos()]) == Some(s.name),
            ident_token(old(self).toks()[old(self).pos()]) is None ==> r is None,
            forall|s: LetStatement, end: int| #[trigger] simple_let_at(old(self).toks(), old(self).pos(), s, end)
                ==> (r matches Some(x) && simple_let_at(old(self).toks(), old(self).pos(), x, end))
                    && final(self).errs() == old(self).errs() && final(self).pos() == end,
        decreases old(self).remaining(), 2nat,
    {
        let ghost start = *self;
        let name = match self.expect_ident(&SyncRule::Statement) {
            Some(n) => n,
            None => return None,
        };
        let ghost s1 = *self;
        let eq = self.expect(TokenKind::Equals, &SyncRule::Statement);
        let ghost s2 = *self;
        proof {
            lemma_steps_trans(&start, &s1, &s2);
        }
        if eq.is_none() {
            return None;
        }
        let e = self.parse_expr(0);
        let ghost s3 = *self;
        proof {
            lemma_steps_trans(&start, &s2, &s3);
        }
        let expr = match e {
            Some(e) => e,
            None => Expr::Error,
        };
        let semi = self.expect(TokenKind::Semicolon, &SyncRule::Statement);
        proof {
            lemma_steps_trans(&start, &s3, self);
        }
        let result = match semi {
            Some(_) => Some(LetStatement { name, expr }),
            None => None,
        };
        proof {
            let toks = start.toks();
            let p = start.pos();
            assert forall|st: LetStatement, end: int| #[trigger] simple_let_at(toks, p, st, end)
                implies (result matches Some(x) && simple_let_at(toks, p, x, end))
                    && self.errs() == start.errs() && self.pos() == end by {
                assert(toks[p].kind is Ident);
                assert(s1.pos() == p + 1);
                assert(s2.pos() == p + 2);
                assert(s2.errs() == start.errs());
                if toks[p + 3].kind is Semicolon {
                    assert(lone_atom(toks, p + 2, 0));
                    assert(e == atom_token(toks[p + 2]));
                    assert(s3.pos() == p + 3);
                } else {
                    assert(lone_binary(toks, p + 2, 0));
                    assert(s3.pos() == p + 5);
                }
                assert(s3.errs() == start.errs());
                assert(semi is Some);
                assert(ident_token(toks[p]) == Some(name));
                assert(expr == body_expr(toks, p + 2));
            }
        }
        result
    }

    /// After `cases`: `scrutinee { arm, arm, ... }`.
    pub fn parse_cases(&mut self, span: Span) -> (r: Option<Expr>)
        requires
            old(self).wf(),
        ensures
            old(self).steps_to(final(self)),
            r is None ==> final(self).errs().len() > old(self).errs().len(),
            final(self).errs().len() == old(self).errs().len() ==> (r matches Some(e) && expr_clean(e)),
            r matches Some(e) ==> expr_untyped(e),
        decreases old(self).remaining(), 3nat,
    {
        let ghost start = *self;
        let scrutinee = match self.parse_expr(0) {
            Some(e) => e,
            None => return None,
        };
        let ghost s1 = *self;
        let open = self.expect(TokenKind::LBrace, &SyncRule::Expr { depth: 0 });
        let ghost s2 = *self;
        proof {
            lemma_steps_trans(&start, &s1, &s2);
        }
        if open.is_none() {
            return None;
        }
        let mut arms: Vec<CasesArm> = Vec::new();
        while !matches!(self.peek().kind, TokenKind::RBrace)
            invariant
                start == *old(self),
                start.steps_to(self),
                self.errs().len() == start.errs().len() ==>
                    forall|i: int| 0 <= i < arms@.len() ==> cases_arm_clean(#[trigger] arms@[i]),
                self.errs().len() == start.errs().len() ==> expr_clean(scrutinee),
                forall|i: int| 0 <= i < arms@.len() ==> cases_arm_untyped(#[trigger] arms@[i]),
                expr_untyped(scrutinee),
            decreases self.remaining(),
        {
            let ghost t0 = *self;
            let arm = self.parse_cases_arm();
            let ghost t1 = *self;
            proof {
                lemma_steps_trans(&start, &t0, &t1);
            }
            match arm {
                Some(a) => arms.push(a),
                None => return None,
            }
            if matches!(self.peek().kind, TokenKind::Comma) {
                self.next();
                proof {
                    lemma_steps_trans(&start, &t1, self);
                }
            } else {
                break;
            }
        }
        let ghost s3 = *self;
        let close = self.expect(TokenKind::RBrace, &SyncRule::Expr { depth: 0 });
        proof {
            lemma_steps_trans(&start, &s3, self);
        }
        match close {
            Some(_) => Some(Expr::Cases(CasesExpr {
                scrutinee: Box::new(scrutinee),
                arms,
                expr_type: Type::Unknown,
                span,
            })),
            None => None,
        }
    }

    /// `pattern | pattern ... : expr`. A broken result stands as `Expr::Error`.
    pub fn parse_cases_arm(&mut self) -> (r: Option<CasesArm>)
        requires
            old(self).wf(),
        ensures
            old(self).steps_to(final(self)),
            r is None ==> final(self).errs().len() > old(self).errs().len(),
            final(self).errs().len() == old(self).errs().len() ==> (r matches Some(a) && cases_arm_clean(a)),
            r matches Some(a) ==> cases_arm_untyped(a),
        decreases old(self).remaining(), 2nat,
    {
        let ghost start = *self;
        let arm_span = self.peek().span;
        let pattern = match self.parse_pattern() {
            Some(p) => p,
            None => return None,
        };
        let ghost s1 = *self;
        let colon = self.expect(TokenKind::Colon, &SyncRule::Expr { depth: 1 });
        let ghost s2 = *self;
        proof {
            lemma_steps_trans(&start, &s1, &s2);
        }
        if colon.is_none() {
            return None;
        }
        let e = self.parse_expr(0);
        proof {
            lemma_steps_trans(&start, &s2, self);
        }
        let expr = match e {
            Some(e) => e,
            None => Expr::Error,
        };
        Some(CasesArm { pattern, expr, arm_span })
    }

    /// Simple patterns separated by `|`.
    pub fn parse_pattern(&mut self) -> (r: Option<Vec<SimplePattern>>)
        requires
            old(self).wf(),
        ensures
            old(self).steps_to(final(self)),
            r is None ==> final(self).errs().len() > old(self).errs().len(),
            final(self).errs().len() == old(self).errs().len() ==> (r matches Some(v) &&
                forall|i: int| 0 <= i < v@.len() ==> pattern_clean(#[trigger] v@[i])),
            r matches Some(v) ==> forall|i: int| 0 <= i < v@.len() ==> pattern_untyped(#[trigger] v@[i]),
            !starts_pattern(old(self).cur_kind()) ==> r is None && final(self).reported_here(old(self), seq![Expected::Pattern]),
        decreases old(self).remaining(), 1nat,
    {
        let ghost start = *self;
        let first = match self.parse_simple_pattern() {
            Some(p) => p,
            None => return None,
        };
        let mut patterns: Vec<SimplePattern> = Vec::new();
        patterns.push(first);
        while matches!(self.peek().kind, TokenKind::Pipe)
            invariant
                start == *old(self),
                starts_pattern(start.cur_kind()),
                start.steps_to(self),
                self.errs().len() == start.errs().len() ==>
                    forall|i: int| 0 <= i < patterns@.len() ==> pattern_clean(#[trigger] patterns@[i]),
                forall|i: int| 0 <= i < patterns@.len() ==> pattern_untyped(#[trigger] patterns@[i]),
            decreases self.remaining(),
        {
            let ghost t0 = *self;
            self.next();
            let ghost t1 = *self;
            proof {
                lemma_steps_trans(&start, &t0, &t1);
            }
            let p = self.parse_simple_pattern();
            proof {
                lemma_steps_trans(&start, &t1, self);
            }
            match p {
                Some(p) => patterns.push(p),
                None => return None,
            }
        }
        Some(patterns)
    }

    /// `_`, a literal, a name, a tuple of patterns, or a comparison `> e`, `< e`, `>= e`, `<= e`.
    pub fn parse_simple_pattern(&mut self) -> (r: Option<SimplePattern>)
        requires
            old(self).wf(),
        ensures
            old(self).steps_to(final(self)),
            r is None ==> final(self).errs().len() > old(self).errs().len(),
            final(self).errs().len() == old(self).errs().len() ==> (r matches Some(p) && pattern_clean(p)),
            r matches Some(p) ==> pattern_untyped(p),
            !starts_pattern(old(self).cur_kind()) ==> r is None && final(self).reported_here(old(self), seq![Expected::Pattern]),
        decreases old(self).remaining(), 0nat,
    {
        let ghost start = *self;
        let token = self.next();
        let ghost s1 = *self;
        match token.kind {
            TokenKind::Underscore => Some(SimplePattern::Default),
            TokenKind::BoolLiteral(b) => Some(SimplePattern::Literal(Literal::Bool(b))),
            TokenKind::IntLiteral(n) => Some(SimplePattern::Literal(Literal::Int(n))),
            TokenKind::RealLiteral(d) => Some(SimplePattern::Literal(Literal::Real(d))),
            TokenKind::Ident(val) => Some(SimplePattern::Ident(Ident::Str { val, span: token.span })),
            TokenKind::LParen => {
                let r = self.parse_tuple_pattern();
                proof {
                    lemma_steps_trans(&start, &s1, self);
                }
                r
            }
            TokenKind::Gt | TokenKind::Lt | TokenKind::Ge | TokenKind::Le => {
                let op = match token.kind {
                    TokenKind::Gt => CompOp::Gt,
                    TokenKind::Lt => CompOp::Lt,
                    TokenKind::Ge => CompOp::Ge,
                    _ => CompOp::Le,
                };
                let r = self.parse_comparison_pattern(op);
                proof {
                    lemma_steps_trans(&start, &s1, self);
                }
                r
            }
            _ => {
                self.report_unexpected(super::expect_one(Expected::Pattern), &token);
                let ghost s2 = *self;
                proof {
                    lemma_steps_trans(&start, &s1, &s2);
                }
                self.sync(&SyncRule::Expr { depth: 1 });
                proof {
                    lemma_steps_trans(&start, &s2, self);
                    assert(self.errs()[start.errs().len() as int] == s2.errs()[start.errs().len() as int]);
                }
                None
            }
        }
    }

    /// After `(`: at least two patterns separated by `,`, then `)`.
    pub fn parse_tuple_pattern(&mut self) -> (r: Option<SimplePattern>)
        requires
            old(self).wf(),
        ensures
            old(self).steps_to(final(self)),
            r is None ==> final(self).errs().len() > old(self).errs().len(),
            final(self).errs().len() == old(self).errs().len() ==> (r matches Some(p) && pattern_clean(p)),
            r matches Some(p) ==> pattern_untyped(p),
        decreases old(self).remaining(), 1nat,
    {
        let ghost start = *self;
        let mut items: Vec<SimplePattern> = Vec::new();
        match self.parse_simple_pattern() {
            Some(p) => items.push(p),
            None => return None,
        }
        let ghost s1 = *self;
        let comma = self.expect(TokenKind::Comma, &SyncRule::Expr { depth: 1 });
        let ghost s2 = *self;
        proof {
            lemma_steps_trans(&start, &s1, &s2);
        }
        if comma.is_none() {
            return None;
        }
        match self.parse_simple_pattern() {
            Some(p) => items.push(p),
            None => {
                proof {
                    lemma_steps_trans(&start, &s2, self);
                }
                return None;
            }
        }
        proof {
            lemma_steps_trans(&start, &s2, self);
        }
        while matches!(self.peek().kind, TokenKind::Comma)
            invariant
                start == *old(self),
                start.steps_to(self),
                self.errs().len() == start.errs().len() ==>
                    forall|i: int| 0 <= i < items@.len() ==> pattern_clean(#[trigger] items@[i]),
                forall|i: int| 0 <= i < items@.len() ==> pattern_untyped(#[trigger] items@[i]),
            decreases self.remaining(),
        {
            let ghost t0 = *self;
            self.next();
            let ghost t1 = *self;
            proof {
                lemma_steps_trans(&start, &t0, &t1);
            }
            let p = self.parse_simple_pattern();
            proof {
                lemma_steps_trans(&start, &t1, self);
            }
            match p {
                Some(p) => items.push(p),
                None => return None,
            }
        }
        let ghost s3 = *self;
        let close = self.expect(TokenKind::RParen, &SyncRule::Expr { depth: 1 });
        proof {
            lemma_steps_trans(&start, &s3, self);
        }
        match close {
            Some(_) => Some(SimplePattern::Tuple(items)),
            None => None,
        }
    }

    /// After a comparison operator: the expression compared with.
    pub fn parse_comparison_pattern(&mut self, op: CompOp) -> (r: Option<SimplePattern>)
        requires
            old(self).wf(),
        ensures
            old(self).steps_to(final(self)),
            r is None ==> final(self).errs().len() > old(self).errs().len(),
            final(self).errs().len() == old(self).errs().len() ==> (r matches Some(p) && pattern_clean(p)),
            r matches Some(p) ==> pattern_untyped(p),
        decreases old(self).remaining(), 2nat,
    {
        match self.parse_expr(0) {
            Some(e) => Some(SimplePattern::Comparison(ComparisonPattern { op, expr: Box::new(e) })),
            None => None,
        }
    }

    /// After `sample`: `{ arm, arm, ... }`.
    pub fn parse_sample(&mut self, span: Span) -> (r: Option<Expr>)
        requires
            old(self).wf(),
        ensures
            old(self).steps_to(final(self)),
            r is None ==> final(self).errs().len() > old(self).errs().len(),
            final(self).errs().len() == old(self).errs().len() ==> (r matches Some(e) && expr_clean(e)),
            r matches Some(e) ==> expr_untyped(e),
        decreases old(self).remaining(), 3nat,
    {
        let ghost start = *self;
        let open = self.expect(TokenKind::LBrace, &SyncRule::Expr { depth: 0 });
        if open.is_none() {
            return None;
        }
        let mut arms: Vec<SampleArm> = Vec::new();
        while !matches!(self.peek().kind, TokenKind::RBrace)
            invariant
                start == *old(self),
                start.steps_to(self),
                self.errs().len() == start.errs().len() ==>
                    forall|i: int| 0 <= i < arms@.len() ==> sample_arm_clean(#[trigger] arms@[i]),
                forall|i: int| 0 <= i < arms@.len() ==> sample_arm_untyped(#[trigger] arms@[i]),
            decreases self.remaining(),
        {
            let ghost t0 = *self;
            let arm = self.parse_sample_arm();
            let ghost t1 = *self;
            proof {
                lemma_steps_trans(&start, &t0, &t1);
            }
            match arm {
                Some(a) => arms.push(a),
                None => return None,
            }
            if matches!(self.peek().kind, TokenKind::Comma) {
                self.next();
                proof {
                    lemma_steps_trans(&start, &t1, self);
                }
            } else {
                break;
            }
        }
        let ghost s3 = *self;
        let close = self.expect(TokenKind::RBrace, &SyncRule::Expr { depth: 0 });
        proof {
            lemma_steps_trans(&start, &s3, self);
        }
        match close {
            Some(_) => Some(Expr::Sample(SampleExpr { arms, expr_type: Type::Unknown, span })),
            None => None,
        }
    }

    /// `prob : expr` or `_ : expr`. A broken probability or result stands as `Expr::Error`.
    pub fn parse_sample_arm(&mut self) -> (r: Option<SampleArm>)
        requires
            old(self).wf(),
        ensures
            old(self).steps_to(final(self)),
            r is None ==> final(self).errs().len() > old(self).errs().len(),
            final(self).errs().len() == old(self).errs().len() ==> (r matches Some(a) && sample_arm_clean(a)),
            r matches Some(a) ==> sample_arm_untyped(a),
        decreases old(self).remaining(), 2nat,
    {
        let ghost start = *self;
        let arm_span = self.peek().span;
        let prob = if matches!(self.peek().kind, TokenKind::Underscore) {
            self.next();
            Prob::Default
        } else {
            match self.parse_expr(0) {
                Some(e) => Prob::Expr(e),
                None => Prob::Expr(Expr::Error),
            }
        };
        let ghost s1 = *self;
        let colon = self.expect(TokenKind::Colon, &SyncRule::Expr { depth: 1 });
        let ghost s2 = *self;
        proof {
            lemma_steps_trans(&start, &s1, &s2);
        }
        if colon.is_none() {
            return None;
        }
        let e = self.parse_expr(0);
        proof {
            lemma_steps_trans(&start, &s2, self);
        }
        let expr = match e {
            Some(e) => e,
            None => Expr::Error,
        };
        Some(SampleArm { prob, expr, arm_span })
    }
}

} // verus!
