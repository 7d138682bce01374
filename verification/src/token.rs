use vstd::prelude::*;
use crate::diagnostics::Span;

verus! {

/// An exact decimal number written in the source, `mantissa / 10^scale`.
/// Real literals are kept in this form so that no precision is lost
/// between the text and the compiler.
#[derive(PartialEq, Eq, Structural, Debug, Clone, Copy)]
pub struct Decimal {
    pub mantissa: i64,
    pub scale: u32,
}

impl Decimal {
    /// The value is zero.
    pub open spec fn is_zero_spec(self) -> bool {
        self.mantissa == 0
    }

    /// The value is one: `mantissa == 10^scale`.
    pub open spec fn is_one_spec(self) -> bool {
        self.mantissa == pow10(self.scale as nat)
    }

    pub fn is_zero(&self) -> (r: bool)
        ensures
            r == self.is_zero_spec(),
    {
        self.mantissa == 0
    }

    pub fn is_one(&self) -> (r: bool)
        ensures
            r == self.is_one_spec(),
    {
        equals_int(*self, 1)
    }
}

/// `10^n` over the integers.
pub open spec fn pow10(n: nat) -> int
    decreases n,
{
    if n == 0 {
        1
    } else {
        10 * pow10((n - 1) as nat)
    }
}

pub proof fn lemma_pow10_positive(n: nat)
    ensures
        pow10(n) >= 1,
    decreases n,
{
    if n > 0 {
        lemma_pow10_positive((n - 1) as nat);
    }
}

/// Whether the decimal `d` denotes the integer `k`, that is `d.mantissa == k * 10^d.scale`.
pub open spec fn decimal_equals_int(d: Decimal, k: int) -> bool {
    d.mantissa == k * pow10(d.scale as nat)
}

/// Decides exactly whether a decimal equals an integer.
pub fn equals_int(d: Decimal, k: i64) -> (r: bool)
    ensures
        r == decimal_equals_int(d, k as int),
{
    if k == 0 {
        return d.mantissa == 0;
    }
    // compare mantissa with k * 10^scale, stopping as soon as the product
    // leaves the range of i64, where it can no longer equal the mantissa
    let mut acc: i128 = k as i128;
    let mut i: u32 = 0;
    proof {
        lemma_pow10_positive(0);
    }
    while i < d.scale
        invariant
            i <= d.scale,
            acc == k * pow10(i as nat),
            -0x8000_0000_0000_0000 <= acc <= 0x7fff_ffff_ffff_ffff,
        decreases d.scale - i,
    {
        let next = acc * 10;
        assert(next == k * pow10((i + 1) as nat)) by (nonlinear_arith)
            requires
                acc == k * pow10(i as nat),
                next == acc * 10,
                pow10((i + 1) as nat) == 10 * pow10(i as nat),
        ;
        if next > 0x7fff_ffff_ffff_ffff || next < -0x8000_0000_0000_0000 {
            proof {
                lemma_scaled_stays_out(k as int, (i + 1) as nat, d.scale as nat);
            }
            return false;
        }
        acc = next;
        i = i + 1;
    }
    acc == d.mantissa as i128
}

/// Whether two decimals denote the same number:
/// `a.mantissa / 10^a.scale == b.mantissa / 10^b.scale`.
pub open spec fn decimal_same(a: Decimal, b: Decimal) -> bool {
    a.mantissa * pow10(b.scale as nat) == b.mantissa * pow10(a.scale as nat)
}

proof fn lemma_pow10_add(a: nat, b: nat)
    ensures
        pow10(a + b) == pow10(a) * pow10(b),
    decreases b,
{
    if b > 0 {
        lemma_pow10_add(a, (b - 1) as nat);
        let p = pow10(a);
        let q = pow10((b - 1) as nat);
        assert(pow10(a + b) == 10 * pow10((a + b - 1) as nat));
        assert(p * (10 * q) == 10 * (p * q)) by (nonlinear_arith);
    }
}

/// Scaling both sides by `10^s` changes nothing in an equation.
proof fn lemma_scaled_equal(x: int, y: int, s: nat, k: nat)
    ensures
        (x * pow10(s + k) == y * pow10(s)) == (x * pow10(k) == y),
{
    lemma_pow10_add(s, k);
    lemma_pow10_positive(s);
    let p = pow10(s);
    let q = pow10(k);
    assert((x * (p * q) == y * p) == (x * q == y)) by (nonlinear_arith)
        requires
            p >= 1,
    ;
}

/// Decides exactly whether two decimals denote the same number, whatever
/// their scales.
pub fn decimal_eq(a: Decimal, b: Decimal) -> (r: bool)
    ensures
        r == decimal_same(a, b),
{
    if a.scale <= b.scale {
        let k = b.scale - a.scale;
        proof {
            lemma_scaled_equal(a.mantissa as int, b.mantissa as int, a.scale as nat, k as nat);
            assert(a.scale as nat + k as nat == b.scale as nat);
        }
        equals_int(Decimal { mantissa: b.mantissa, scale: k }, a.mantissa)
    } else {
        let k = a.scale - b.scale;
        proof {
            lemma_scaled_equal(b.mantissa as int, a.mantissa as int, b.scale as nat, k as nat);
            assert(b.scale as nat + k as nat == a.scale as nat);
        }
        equals_int(Decimal { mantissa: a.mantissa, scale: k }, b.mantissa)
    }
}

/// Once `|k * 10^i|` exceeds the range of i64, so does `|k * 10^j|` for every `j >= i`.
proof fn lemma_scaled_stays_out(k: int, i: nat, j: nat)
    requires
        i <= j,
        k * pow10(i) > 0x7fff_ffff_ffff_ffff || k * pow10(i) < -0x8000_0000_0000_0000,
    ensures
        k * pow10(j) > 0x7fff_ffff_ffff_ffff || k * pow10(j) < -0x8000_0000_0000_0000,
    decreases j - i,
{
    if i < j {
        lemma_scaled_stays_out(k, i, (j - 1) as nat);
        let p = pow10((j - 1) as nat);
        assert(k * pow10(j) == (k * p) * 10) by (nonlinear_arith)
            requires
                pow10(j) == 10 * p,
        ;
    }
}

/// The kinds of token the lexer produces.
#[derive(PartialEq, Debug, Clone)]
pub enum TokenKind {
    // literals and names
    Ident(String),
    IntLiteral(i64),
    RealLiteral(Decimal),
    BoolLiteral(bool),

    // keywords
    Let,
    Ent_t,
    Rel_t,
    NetToken,
    Input,
    Output,
    Init,
    Cases,
    Sample,
    Mod,

    // type names
    Bool,
    Int,
    Real,
    Impulse,

    // punctuation
    LParen,
    RParen,
    LBrace,
    RBrace,
    Comma,
    Colon,
    Semicolon,
    Equals,
    Connect,
    Arrow,
    Underscore,

    // operators
    Plus,
    Minus,
    Asterisk,
    Slash,
    Caret,
    Pipe,
    Ampersand,
    BitNot,
    Gt,
    Lt,
    Ge,
    Le,

    // end of input, and the stand-in for a lexical error
    Eof,
    ErrorToken,
}

/// A token and where it starts.
#[derive(PartialEq, Debug, Clone)]
pub struct Token {
    pub kind: TokenKind,
    pub span: Span,
}

impl TokenKind {
    /// A copy of this token kind.
    pub fn duplicate(&self) -> (r: TokenKind)
        ensures
            r == *self,
    {
        match self {
            TokenKind::Ident(s) => TokenKind::Ident(s.clone()),
            TokenKind::IntLiteral(x) => TokenKind::IntLiteral(*x),
            TokenKind::RealLiteral(x) => TokenKind::RealLiteral(*x),
            TokenKind::BoolLiteral(x) => TokenKind::BoolLiteral(*x),
            TokenKind::Let => TokenKind::Let,
            TokenKind::Ent_t => TokenKind::Ent_t,
            TokenKind::Rel_t => TokenKind::Rel_t,
            TokenKind::NetToken => TokenKind::NetToken,
            TokenKind::Input => TokenKind::Input,
            TokenKind::Output => TokenKind::Output,
            TokenKind::Init => TokenKind::Init,
            TokenKind::Cases => TokenKind::Cases,
            TokenKind::Sample => TokenKind::Sample,
            TokenKind::Mod => TokenKind::Mod,
            TokenKind::Bool => TokenKind::Bool,
            TokenKind::Int => TokenKind::Int,
            TokenKind::Real => TokenKind::Real,
            TokenKind::Impulse => TokenKind::Impulse,
            TokenKind::LParen => TokenKind::LParen,
            TokenKind::RParen => TokenKind::RParen,
            TokenKind::LBrace => TokenKind::LBrace,
            TokenKind::RBrace => TokenKind::RBrace,
            TokenKind::Comma => TokenKind::Comma,
            TokenKind::Colon => TokenKind::Colon,
            TokenKind::Semicolon => TokenKind::Semicolon,
            TokenKind::Equals => TokenKind::Equals,
            TokenKind::Connect => TokenKind::Connect,
            TokenKind::Arrow => TokenKind::Arrow,
            TokenKind::Underscore => TokenKind::Underscore,
            TokenKind::Plus => TokenKind::Plus,
            TokenKind::Minus => TokenKind::Minus,
            TokenKind::Asterisk => TokenKind::Asterisk,
            TokenKind::Slash => TokenKind::Slash,
            TokenKind::Caret => TokenKind::Caret,
            TokenKind::Pipe => TokenKind::Pipe,
            TokenKind::Ampersand => TokenKind::Ampersand,
            TokenKind::BitNot => TokenKind::BitNot,
            TokenKind::Gt => TokenKind::Gt,
            TokenKind::Lt => TokenKind::Lt,
            TokenKind::Ge => TokenKind::Ge,
            TokenKind::Le => TokenKind::Le,
            TokenKind::Eof => TokenKind::Eof,
            TokenKind::ErrorToken => TokenKind::ErrorToken,
        }
    }

    /// Whether the two kinds are the same variant, payloads aside.
    pub open spec fn same_variant_spec(&self, other: &TokenKind) -> bool {
        match (self, other) {
            (TokenKind::Ident(_), TokenKind::Ident(_)) => true,
            (TokenKind::IntLiteral(_), TokenKind::IntLiteral(_)) => true,
            (TokenKind::RealLiteral(_), TokenKind::RealLiteral(_)) => true,
            (TokenKind::BoolLiteral(_), TokenKind::BoolLiteral(_)) => true,
            (TokenKind::Let, TokenKind::Let) => true,
            (TokenKind::Ent_t, TokenKind::Ent_t) => true,
            (TokenKind::Rel_t, TokenKind::Rel_t) => true,
            (TokenKind::NetToken, TokenKind::NetToken) => true,
            (TokenKind::Input, TokenKind::Input) => true,
            (TokenKind::Output, TokenKind::Output) => true,
            (TokenKind::Init, TokenKind::Init) => true,
            (TokenKind::Cases, TokenKind::Cases) => true,
            (TokenKind::Sample, TokenKind::Sample) => true,
            (TokenKind::Mod, TokenKind::Mod) => true,
            (TokenKind::Bool, TokenKind::Bool) => true,
            (TokenKind::Int, TokenKind::Int) => true,
            (TokenKind::Real, TokenKind::Real) => true,
            (TokenKind::Impulse, TokenKind::Impulse) => true,
            (TokenKind::LParen, TokenKind::LParen) => true,
            (TokenKind::RParen, TokenKind::RParen) => true,
            (TokenKind::LBrace, TokenKind::LBrace) => true,
            (TokenKind::RBrace, TokenKind::RBrace) => true,
            (TokenKind::Comma, TokenKind::Comma) => true,
            (TokenKind::Colon, TokenKind::Colon) => true,
            (TokenKind::Semicolon, TokenKind::Semicolon) => true,
            (TokenKind::Equals, TokenKind::Equals) => true,
            (TokenKind::Connect, TokenKind::Connect) => true,
            (TokenKind::Arrow, TokenKind::Arrow) => true,
            (TokenKind::Underscore, TokenKind::Underscore) => true,
            (TokenKind::Plus, TokenKind::Plus) => true,
            (TokenKind::Minus, TokenKind::Minus) => true,
            (TokenKind::Asterisk, TokenKind::Asterisk) => true,
            (TokenKind::Slash, TokenKind::Slash) => true,
            (TokenKind::Caret, TokenKind::Caret) => true,
            (TokenKind::Pipe, TokenKind::Pipe) => true,
            (TokenKind::Ampersand, TokenKind::Ampersand) => true,
            (TokenKind::BitNot, TokenKind::BitNot) => true,
            (TokenKind::Gt, TokenKind::Gt) => true,
            (TokenKind::Lt, TokenKind::Lt) => true,
            (TokenKind::Ge, TokenKind::Ge) => true,
            (TokenKind::Le, TokenKind::Le) => true,
            (TokenKind::Eof, TokenKind::Eof) => true,
            (TokenKind::ErrorToken, TokenKind::ErrorToken) => true,
            _ => false,
        }
    }

    pub fn same_variant(&self, other: &TokenKind) -> (r: bool)
        ensures
            r == self.same_variant_spec(other),
    {
        match (self, other) {
            (TokenKind::Ident(_), TokenKind::Ident(_)) => true,
            (TokenKind::IntLiteral(_), TokenKind::IntLiteral(_)) => true,
            (TokenKind::RealLiteral(_), TokenKind::RealLiteral(_)) => true,
            (TokenKind::BoolLiteral(_), TokenKind::BoolLiteral(_)) => true,
            (TokenKind::Let, TokenKind::Let) => true,
            (TokenKind::Ent_t, TokenKind::Ent_t) => true,
            (TokenKind::Rel_t, TokenKind::Rel_t) => true,
            (TokenKind::NetToken, TokenKind::NetToken) => true,
            (TokenKind::Input, TokenKind::Input) => true,
            (TokenKind::Output, TokenKind::Output) => true,
            (TokenKind::Init, TokenKind::Init) => true,
            (TokenKind::Cases, TokenKind::Cases) => true,
            (TokenKind::Sample, TokenKind::Sample) => true,
            (TokenKind::Mod, TokenKind::Mod) => true,
            (TokenKind::Bool, TokenKind::Bool) => true,
            (TokenKind::Int, TokenKind::Int) => true,
            (TokenKind::Real, TokenKind::Real) => true,
            (TokenKind::Impulse, TokenKind::Impulse) => true,
            (TokenKind::LParen, TokenKind::LParen) => true,
            (TokenKind::RParen, TokenKind::RParen) => true,
            (TokenKind::LBrace, TokenKind::LBrace) => true,
            (TokenKind::RBrace, TokenKind::RBrace) => true,
            (TokenKind::Comma, TokenKind::Comma) => true,
            (TokenKind::Colon, TokenKind::Colon) => true,
            (TokenKind::Semicolon, TokenKind::Semicolon) => true,
            (TokenKind::Equals, TokenKind::Equals) => true,
            (TokenKind::Connect, TokenKind::Connect) => true,
            (TokenKind::Arrow, TokenKind::Arrow) => true,
            (TokenKind::Underscore, TokenKind::Underscore) => true,
            (TokenKind::Plus, TokenKind::Plus) => true,
            (TokenKind::Minus, TokenKind::Minus) => true,
            (TokenKind::Asterisk, TokenKind::Asterisk) => true,
            (TokenKind::Slash, TokenKind::Slash) => true,
            (TokenKind::Caret, TokenKind::Caret) => true,
            (TokenKind::Pipe, TokenKind::Pipe) => true,
            (TokenKind::Ampersand, TokenKind::Ampersand) => true,
            (TokenKind::BitNot, TokenKind::BitNot) => true,
            (TokenKind::Gt, TokenKind::Gt) => true,
            (TokenKind::Lt, TokenKind::Lt) => true,
            (TokenKind::Ge, TokenKind::Ge) => true,
            (TokenKind::Le, TokenKind::Le) => true,
            (TokenKind::Eof, TokenKind::Eof) => true,
            (TokenKind::ErrorToken, TokenKind::ErrorToken) => true,
            _ => false,
        }
    }

    /// The kind carries no payload, so being the same variant means being equal.
    pub open spec fn is_plain(&self) -> bool {
        !(self is Ident || self is IntLiteral || self is RealLiteral || self is BoolLiteral)
    }
}

impl Token {
    pub fn duplicate(&self) -> (r: Token)
        ensures
            r == *self,
    {
        Token { kind: self.kind.duplicate(), span: self.span }
    }
}

} // verus!
