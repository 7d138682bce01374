use vstd::prelude::*;
use crate::diagnostics::{CompilerError, Diagnostics, Span};
use crate::token::{Decimal, Token, TokenKind};

verus! {

/// Turns source text into tokens. Lexical errors are reported to the
/// diagnostics and stand in the token stream as `ErrorToken`.
pub struct Lexer {
    chars: Vec<char>,
}

/// The characters of `code`, in order.
fn chars_of(code: &str) -> (v: Vec<char>)
    ensures
        v@ == code@,
{
    broadcast use vstd::string::axiom_spec_iter;
    let mut v: Vec<char> = Vec::new();
    for c in it: code.chars()
        invariant
            v@ == code@.take(it.index() as int),
            it.seq() == code@,
    {
        v.push(c);
        assert(code@.take(it.index() + 1) =~= v@);
    }
    assert(v@ =~= code@);
    v
}

/// A `String` made of the characters `chars[start..end]`, built by std's
/// `String: FromIterator<&char>` (`collect`). Trusted: its view is the
/// characters collected, in order.
#[verifier::external_body]
fn string_of(chars: &Vec<char>, start: usize, end: usize) -> (s: String)
    requires
        start <= end <= chars.len(),
    ensures
        s@ == chars@.subrange(start as int, end as int),
{
    chars[start..end].iter().collect()
}

pub open spec fn is_alpha(c: char) -> bool {
    ('a' <= c && c <= 'z') || ('A' <= c && c <= 'Z') || c == '_'
}

pub open spec fn is_digit(c: char) -> bool {
    '0' <= c && c <= '9'
}

pub open spec fn is_word_char(c: char) -> bool {
    is_alpha(c) || is_digit(c)
}

/// Number of `ErrorToken`s in a token sequence.
pub open spec fn count_error_tokens(toks: Seq<Token>) -> nat
    decreases toks.len(),
{
    if toks.len() == 0 {
        0
    } else {
        count_error_tokens(toks.drop_last()) + if toks.last().kind is ErrorToken { 1nat } else { 0nat }
    }
}

/// Every error in the sequence is a lexical one.
pub open spec fn all_lexical(errors: Seq<CompilerError>) -> bool {
    forall|i: int|
        0 <= i < errors.len() ==> (errors[i] is UnknownToken || errors[i] is InvalidNum)
}

/// A well-formed token stream: it ends with the one `Eof` it holds.
pub open spec fn ends_with_single_eof(toks: Seq<Token>) -> bool {
    &&& toks.len() >= 1
    &&& toks.last().kind is Eof
    &&& forall|i: int| 0 <= i < toks.len() - 1 ==> !(toks[i].kind is Eof)
}

/// The token kind of a reserved word, if `w` is one.
pub open spec fn keyword_spec(w: Seq<char>) -> Option<TokenKind> {
    if w == seq!['l', 'e', 't'] {
        Some(TokenKind::Let)
    } else if w == seq!['e', 'n', 't', '_', 't'] {
        Some(TokenKind::Ent_t)
    } else if w == seq!['r', 'e', 'l', '_', 't'] {
        Some(TokenKind::Rel_t)
    } else if w == seq!['n', 'e', 't'] {
        Some(TokenKind::NetToken)
    } else if w == seq!['i', 'n', 'p', 'u', 't'] {
        Some(TokenKind::Input)
    } else if w == seq!['o', 'u', 't', 'p', 'u', 't'] {
        Some(TokenKind::Output)
    } else if w == seq!['i', 'n', 'i', 't'] {
        Some(TokenKind::Init)
    } else if w == seq!['c', 'a', 's', 'e', 's'] {
        Some(TokenKind::Cases)
    } else if w == seq!['s', 'a', 'm', 'p', 'l', 'e'] {
        Some(TokenKind::Sample)
    } else if w == seq!['M', 'o', 'd'] {
        Some(TokenKind::Mod)
    } else if w == seq!['B', 'o', 'o', 'l'] {
        Some(TokenKind::Bool)
    } else if w == seq!['I', 'n', 't'] {
        Some(TokenKind::Int)
    } else if w == seq!['R', 'e', 'a', 'l'] {
        Some(TokenKind::Real)
    } else if w == seq!['I', 'm', 'p', 'u', 'l', 's', 'e'] {
        Some(TokenKind::Impulse)
    } else if w == seq!['t', 'r', 'u', 'e'] {
        Some(TokenKind::BoolLiteral(true))
    } else if w == seq!['f', 'a', 'l', 's', 'e'] {
        Some(TokenKind::BoolLiteral(false))
    } else if w == seq!['_'] {
        Some(TokenKind::Underscore)
    } else {
        None
    }
}

/// Whether `chars[start..end]` spells `word`.
fn spells(chars: &Vec<char>, start: usize, end: usize, word: &[char]) -> (r: bool)
    requires
        start <= end <= chars.len(),
    ensures
        r == (chars@.subrange(start as int, end as int) == word@),
{
    if end - start != word.len() {
        return false;
    }
    let mut i: usize = 0;
    while i < word.len()
        invariant
            start <= end <= chars.len(),
            end - start == word.len(),
            i <= word.len(),
            forall|j: int| 0 <= j < i ==> chars@[start + j] == word@[j],
        decreases word.len() - i,
    {
        if chars[start + i] != word[i] {
            assert(chars@.subrange(start as int, end as int)[i as int] != word@[i as int]);
            return false;
        }
        i = i + 1;
    }
    assert(chars@.subrange(start as int, end as int) =~= word@);
    true
}

/// The reserved word spelled by `chars[start..end]`, if any.
#[verifier::rlimit(50)]
fn keyword(chars: &Vec<char>, start: usize, end: usize) -> (k: Option<TokenKind>)
    requires
        start <= end <= chars.len(),
    ensures
        k == keyword_spec(chars@.subrange(start as int, end as int)),
{
    let kw0: [char; 3] = ['l', 'e', 't'];
    assert(kw0@ =~= seq!['l', 'e', 't']);
    if spells(chars, start, end, &kw0) {
        return Some(TokenKind::Let);
    }
    let kw1: [char; 5] = ['e', 'n', 't', '_', 't'];
    assert(kw1@ =~= seq!['e', 'n', 't', '_', 't']);
    if spells(chars, start, end, &kw1) {
        return Some(TokenKind::Ent_t);
    }
    let kw2: [char; 5] = ['r', 'e', 'l', '_', 't'];
    assert(kw2@ =~= seq!['r', 'e', 'l', '_', 't']);
    if spells(chars, start, end, &kw2) {
        return Some(TokenKind::Rel_t);
    }
    let kw3: [char; 3] = ['n', 'e', 't'];
    assert(kw3@ =~= seq!['n', 'e', 't']);
    if spells(chars, start, end, &kw3) {
        return Some(TokenKind::NetToken);
    }
    let kw4: [char; 5] = ['i', 'n', 'p', 'u', 't'];
    assert(kw4@ =~= seq!['i', 'n', 'p', 'u', 't']);
    if spells(chars, start, end, &kw4) {
        return Some(TokenKind::Input);
    }
    let kw5: [char; 6] = ['o', 'u', 't', 'p', 'u', 't'];
    assert(kw5@ =~= seq!['o', 'u', 't', 'p', 'u', 't']);
    if spells(chars, start, end, &kw5) {
        return Some(TokenKind::Output);
    }
    let kw6: [char; 4] = ['i', 'n', 'i', 't'];
    assert(kw6@ =~= seq!['i', 'n', 'i', 't']);
    if spells(chars, start, end, &kw6) {
        return Some(TokenKind::Init);
    }
    let kw7: [char; 5] = ['c', 'a', 's', 'e', 's'];
    assert(kw7@ =~= seq!['c', 'a', 's', 'e', 's']);
    if spells(chars, start, end, &kw7) {
        return Some(TokenKind::Cases);
    }
    let kw8: [char; 6] = ['s', 'a', 'm', 'p', 'l', 'e'];
    assert(kw8@ =~= seq!['s', 'a', 'm', 'p', 'l', 'e']);
    if spells(chars, start, end, &kw8) {
        return Some(TokenKind::Sample);
    }
    let kw9: [char; 3] = ['M', 'o', 'd'];
    assert(kw9@ =~= seq!['M', 'o', 'd']);
    if spells(chars, start, end, &kw9) {
        return Some(TokenKind::Mod);
    }
    let kw10: [char; 4] = ['B', 'o', 'o', 'l'];
    assert(kw10@ =~= seq!['B', 'o', 'o', 'l']);
    if spells(chars, start, end, &kw10) {
        return Some(TokenKind::Bool);
    }
    let kw11: [char; 3] = ['I', 'n', 't'];
    assert(kw11@ =~= seq!['I', 'n', 't']);
    if spells(chars, start, end, &kw11) {
        return Some(TokenKind::Int);
    }
    let kw12: [char; 4] = ['R', 'e', 'a', 'l'];
    assert(kw12@ =~= seq!['R', 'e', 'a', 'l']);
    if spells(chars, start, end, &kw12) {
        return Some(TokenKind::Real);
    }
    let kw13: [char; 7] = ['I', 'm', 'p', 'u', 'l', 's', 'e'];
    assert(kw13@ =~= seq!['I', 'm', 'p', 'u', 'l', 's', 'e']);
    if spells(chars, start, end, &kw13) {
        return Some(TokenKind::Impulse);
    }
    let kw14: [char; 4] = ['t', 'r', 'u', 'e'];
    assert(kw14@ =~= seq!['t', 'r', 'u', 'e']);
    if spells(chars, start, end, &kw14) {
        return Some(TokenKind::BoolLiteral(true));
    }
    let kw15: [char; 5] = ['f', 'a', 'l', 's', 'e'];
    assert(kw15@ =~= seq!['f', 'a', 'l', 's', 'e']);
    if spells(chars, start, end, &kw15) {
        return Some(TokenKind::BoolLiteral(false));
    }
    let kw16: [char; 1] = ['_'];
    assert(kw16@ =~= seq!['_']);
    if spells(chars, start, end, &kw16) {
        return Some(TokenKind::Underscore);
    }
    None
}

/// The end of the run of word characters starting at `i`.
fn scan_word_end(chars: &Vec<char>, i: usize) -> (e: usize)
    requires
        i <= chars.len(),
    ensures
        i <= e <= chars.len(),
        forall|j: int| i <= j < e ==> is_word_char(chars@[j]),
        e == chars.len() || !is_word_char(chars@[e as int]),
        e == word_end(chars@, i as int),
{
    let mut e = i;
    while e < chars.len() && is_word_char_exec(chars[e])
        invariant
            i <= e <= chars.len(),
            forall|j: int| i <= j < e ==> is_word_char(chars@[j]),
            word_end(chars@, e as int) == word_end(chars@, i as int),
        decreases chars.len() - e,
    {
        e = e + 1;
    }
    e
}

fn is_alpha_exec(c: char) -> (r: bool)
    ensures
        r == is_alpha(c),
{
    ('a' <= c && c <= 'z') || ('A' <= c && c <= 'Z') || c == '_'
}

fn is_digit_exec(c: char) -> (r: bool)
    ensures
        r == is_digit(c),
{
    '0' <= c && c <= '9'
}

fn is_word_char_exec(c: char) -> (r: bool)
    ensures
        r == is_word_char(c),
{
    is_alpha_exec(c) || is_digit_exec(c)
}

/// The value of a run of decimal digits, ignoring one `.` in it.
/// Where the run of identifier characters from `i` ends.
pub open spec fn word_end(s: Seq<char>, i: int) -> int
    decreases s.len() - i,
{
    if 0 <= i < s.len() && is_word_char(s[i]) {
        word_end(s, i + 1)
    } else {
        i
    }
}

/// Where the run of digits from `i` ends.
pub open spec fn digit_end(s: Seq<char>, i: int) -> int
    decreases s.len() - i,
{
    if 0 <= i < s.len() && is_digit(s[i]) {
        digit_end(s, i + 1)
    } else {
        i
    }
}

/// The number that starts at the digit `start`: digits, then a `.` and
/// more digits for a real, and where it ends. `None` where the number runs
/// into an identifier character (the whole word is then taken), or does
/// not fit: more than `i64::MAX` as digits, or too many decimals.
pub open spec fn number_spec(s: Seq<char>, start: int) -> (Option<TokenKind>, int) {
    let int_end = digit_end(s, start);
    let has_point = int_end < s.len() - 1 && s[int_end] == '.' && is_digit(s[int_end + 1]);
    let j = if has_point { digit_end(s, int_end + 1) } else { int_end };
    if j < s.len() && is_word_char(s[j]) {
        (None, word_end(s, j))
    } else {
        let v = digits_value(s.subrange(start, j));
        if v > i64::MAX {
            (None, j)
        } else if has_point {
            if j - int_end - 1 > 0xffff_ffff {
                (None, j)
            } else {
                (Some(TokenKind::RealLiteral(Decimal { mantissa: v as i64, scale: (j - int_end - 1) as u32 })), j)
            }
        } else {
            (Some(TokenKind::IntLiteral(v as i64)), j)
        }
    }
}

/// The value of the digits only grows as more digits (or the point) follow.
proof fn lemma_digits_value_grows(s: Seq<char>, a: int, b: int, c: int)
    requires
        0 <= a <= b <= c <= s.len(),
        forall|m: int| a <= m < c ==> (is_digit(s[m]) || s[m] == '.'),
    ensures
        0 <= digits_value(s.subrange(a, b)) <= digits_value(s.subrange(a, c)),
    decreases c - b,
{
    lemma_digits_value_nonneg(s, a, c);
    if b < c {
        lemma_digits_value_grows(s, a, b, c - 1);
        assert(s.subrange(a, c).drop_last() =~= s.subrange(a, c - 1));
        lemma_digits_value_nonneg(s, a, c - 1);
    }
}

proof fn lemma_digits_value_nonneg(s: Seq<char>, a: int, c: int)
    requires
        0 <= a <= c <= s.len(),
        forall|m: int| a <= m < c ==> (is_digit(s[m]) || s[m] == '.'),
    ensures
        digits_value(s.subrange(a, c)) >= 0,
    decreases c - a,
{
    if a < c {
        lemma_digits_value_nonneg(s, a, c - 1);
        assert(s.subrange(a, c).drop_last() =~= s.subrange(a, c - 1));
    }
}

pub open spec fn digits_value(s: Seq<char>) -> int
    decreases s.len(),
{
    if s.len() == 0 {
        0
    } else if s.last() == '.' {
        digits_value(s.drop_last())
    } else {
        10 * digits_value(s.drop_last()) + (s.last() as int - '0' as int)
    }
}

/// A number starting at `start`: its literal (or `None` when the text is not a
/// valid number) and the index just past it.
fn lex_number(chars: &Vec<char>, start: usize) -> (res: (Option<TokenKind>, usize))
    requires
        start < chars.len(),
        is_digit(chars@[start as int]),
    ensures
        start < res.1 <= chars.len(),
        res.0 matches Some(k) ==> (k is IntLiteral || k is RealLiteral),
        res.0 matches Some(TokenKind::IntLiteral(v)) ==> v == digits_value(chars@.subrange(start as int, res.1 as int)),
        res.0 matches Some(TokenKind::RealLiteral(d)) ==> d.mantissa == digits_value(chars@.subrange(start as int, res.1 as int)),
        res.0 == number_spec(chars@, start as int).0 && res.1 == number_spec(chars@, start as int).1,
{
    let len = chars.len();
    let mut j = start;
    while j < len && is_digit_exec(chars[j])
        invariant
            start <= j <= len,
            len == chars.len(),
            forall|k: int| start <= k < j ==> is_digit(chars@[k]),
            digit_end(chars@, j as int) == digit_end(chars@, start as int),
        decreases len - j,
    {
        j = j + 1;
    }
    let int_end = j;
    let mut is_real = false;
    if j < len - 1 && chars[j] == '.' && is_digit_exec(chars[j + 1]) {
        is_real = true;
        j = j + 1;
        while j < len && is_digit_exec(chars[j])
            invariant
                int_end < j <= len,
                len == chars.len(),
                forall|k: int| int_end < k < j ==> is_digit(chars@[k]),
                digit_end(chars@, j as int) == digit_end(chars@, int_end + 1),
            decreases len - j,
        {
            j = j + 1;
        }
    }
    if j < len && is_word_char_exec(chars[j]) {
        // something like `9a`: the whole word is one invalid number
        let e = scan_word_end(chars, j);
        return (None, e);
    }
    // accumulate the digits
    let mut acc: i64 = 0;
    let mut k = start;
    proof {
        if digits_value(chars@.subrange(start as int, j as int)) > i64::MAX {
            assert(number_spec(chars@, start as int).0 is None);
            assert(number_spec(chars@, start as int).1 == j);
        }
    }
    while k < j
        invariant
            start <= k <= j <= len,
            len == chars.len(),
            digits_value(chars@.subrange(start as int, j as int)) > i64::MAX ==> number_spec(chars@, start as int).0 is None
                && number_spec(chars@, start as int).1 == j,
            forall|m: int| start <= m < j ==> (is_digit(chars@[m]) || chars@[m] == '.'),
            acc == digits_value(chars@.subrange(start as int, k as int)),
            acc >= 0,
        decreases j - k,
    {
        let c = chars[k];
        assert(chars@.subrange(start as int, (k + 1) as int).drop_last() =~= chars@.subrange(start as int, k as int));
        if c != '.' {
            let d = (c as u32 - '0' as u32) as i64;
            let next = match acc.checked_mul(10) {
                Some(m) => m.checked_add(d),
                None => None,
            };
            match next {
                Some(v) => {
                    acc = v;
                }
                None => {
                    proof {
                        assert(d >= 0);
                        assert(10 * acc + d > i64::MAX);
                        assert(digits_value(chars@.subrange(start as int, (k + 1) as int)) == 10 * acc + d);
                        lemma_digits_value_grows(chars@, start as int, (k + 1) as int, j as int);
                    }
                    return (None, j);
                }
            }
        }
        k = k + 1;
    }
    proof {
        assert(chars@.subrange(start as int, k as int) == chars@.subrange(start as int, j as int));
    }
    if is_real {
        let frac = j - int_end - 1;
        if frac > 0xffff_ffff {
            return (None, j);
        }
        (Some(TokenKind::RealLiteral(Decimal { mantissa: acc, scale: frac as u32 })), j)
    } else {
        (Some(TokenKind::IntLiteral(acc)), j)
    }
}

/// The token that the punctuation or operator character `c` starts, given
/// the character after it (`:=`, `->`, `>=`, `<=` take two), and its length;
/// `None` for a character that starts no token.
pub open spec fn symbol_spec(c: char, next: Option<char>) -> Option<(TokenKind, usize)> {
    if c == ':' && next == Some('=') {
        Some((TokenKind::Connect, 2))
    } else if c == '-' && next == Some('>') {
        Some((TokenKind::Arrow, 2))
    } else if c == '>' && next == Some('=') {
        Some((TokenKind::Ge, 2))
    } else if c == '<' && next == Some('=') {
        Some((TokenKind::Le, 2))
    } else if c == '(' {
        Some((TokenKind::LParen, 1))
    } else if c == ')' {
        Some((TokenKind::RParen, 1))
    } else if c == '{' {
        Some((TokenKind::LBrace, 1))
    } else if c == '}' {
        Some((TokenKind::RBrace, 1))
    } else if c == ',' {
        Some((TokenKind::Comma, 1))
    } else if c == ':' {
        Some((TokenKind::Colon, 1))
    } else if c == ';' {
        Some((TokenKind::Semicolon, 1))
    } else if c == '=' {
        Some((TokenKind::Equals, 1))
    } else if c == '+' {
        Some((TokenKind::Plus, 1))
    } else if c == '-' {
        Some((TokenKind::Minus, 1))
    } else if c == '*' {
        Some((TokenKind::Asterisk, 1))
    } else if c == '/' {
        Some((TokenKind::Slash, 1))
    } else if c == '^' {
        Some((TokenKind::Caret, 1))
    } else if c == '|' {
        Some((TokenKind::Pipe, 1))
    } else if c == '&' {
        Some((TokenKind::Ampersand, 1))
    } else if c == '~' {
        Some((TokenKind::BitNot, 1))
    } else if c == '>' {
        Some((TokenKind::Gt, 1))
    } else if c == '<' {
        Some((TokenKind::Lt, 1))
    } else {
        None
    }
}

/// The token for a punctuation or operator character at `i` (looking one
/// character ahead for `:=`, `->`, `>=`, `<=`) and its length.
fn lex_symbol(chars: &Vec<char>, i: usize) -> (res: Option<(TokenKind, usize)>)
    requires
        i < chars.len(),
    ensures
        res == symbol_spec(chars@[i as int], if i + 1 < chars.len() { Some(chars@[i + 1]) } else { None }),
        res matches Some((k, n)) ==> {
            &&& (n == 1 || n == 2)
            &&& i + n <= chars.len()
            &&& !(k is Eof) && !(k is ErrorToken)
        },
{
    let c = chars[i];
    let has_next = i < chars.len() - 1;
    let n = if has_next { chars[i + 1] } else { ' ' };
    if c == ':' && has_next && n == '=' {
        return Some((TokenKind::Connect, 2));
    }
    if c == '-' && has_next && n == '>' {
        return Some((TokenKind::Arrow, 2));
    }
    if c == '>' && has_next && n == '=' {
        return Some((TokenKind::Ge, 2));
    }
    if c == '<' && has_next && n == '=' {
        return Some((TokenKind::Le, 2));
    }
    let k = if c == '(' {
        TokenKind::LParen
    } else if c == ')' {
        TokenKind::RParen
    } else if c == '{' {
        TokenKind::LBrace
    } else if c == '}' {
        TokenKind::RBrace
    } else if c == ',' {
        TokenKind::Comma
    } else if c == ':' {
        TokenKind::Colon
    } else if c == ';' {
        TokenKind::Semicolon
    } else if c == '=' {
        TokenKind::Equals
    } else if c == '+' {
        TokenKind::Plus
    } else if c == '-' {
        TokenKind::Minus
    } else if c == '*' {
        TokenKind::Asterisk
    } else if c == '/' {
        TokenKind::Slash
    } else if c == '^' {
        TokenKind::Caret
    } else if c == '|' {
        TokenKind::Pipe
    } else if c == '&' {
        TokenKind::Ampersand
    } else if c == '~' {
        TokenKind::BitNot
    } else if c == '>' {
        TokenKind::Gt
    } else if c == '<' {
        TokenKind::Lt
    } else {
        return None;
    };
    Some((k, 1))
}

/// The character after `i`, if there is one.
pub open spec fn next_char(s: Seq<char>, i: int) -> Option<char> {
    if i + 1 < s.len() { Some(s[i + 1]) } else { None }
}

/// Where the token that starts at the non-blank character `i` ends: a word,
/// a number (or the invalid word it runs into), a one- or two-character
/// symbol, or the one character that starts no token.
pub open spec fn lex_end(s: Seq<char>, i: int) -> int {
    if is_alpha(s[i]) {
        word_end(s, i)
    } else if is_digit(s[i]) {
        number_spec(s, i).1
    } else {
        match symbol_spec(s[i], next_char(s, i)) {
            Some((_, n)) => i + n,
            None => i + 1,
        }
    }
}

/// `k` is the kind of the token that the characters from `i` to `e` spell:
/// a keyword or else an identifier, a number, a symbol, or `ErrorToken`
/// where they are no valid token.
pub open spec fn token_fits(s: Seq<char>, i: int, e: int, k: TokenKind) -> bool {
    if is_alpha(s[i]) {
        match keyword_spec(s.subrange(i, e)) {
            Some(kw) => k == kw,
            None => k matches TokenKind::Ident(name) && name@ == s.subrange(i, e),
        }
    } else if is_digit(s[i]) {
        match number_spec(s, i).0 {
            Some(nk) => k == nk,
            None => k is ErrorToken,
        }
    } else {
        match symbol_spec(s[i], next_char(s, i)) {
            Some((sk, _)) => k == sk,
            None => k is ErrorToken,
        }
    }
}

/// The error for the invalid token from `i` to `e` at `span`: an invalid
/// number with its whole text, or the unknown character.
pub open spec fn error_fits(s: Seq<char>, i: int, e: int, span: Span, err: CompilerError) -> bool {
    if is_digit(s[i]) {
        err matches CompilerError::InvalidNum { lexeme, span: at } && lexeme@ == s.subrange(i, e) && at == span
    } else {
        err matches CompilerError::UnknownToken { lexeme, span: at } && lexeme@ == s.subrange(i, i + 1) && at == span
    }
}

/// One token starting at the non-blank character `i`: its kind, the index
/// just past it, and the error it raises, if it is not a valid token.
fn lex_one(chars: &Vec<char>, i: usize, span: Span) -> (res: (TokenKind, usize, Option<CompilerError>))
    requires
        i < chars.len(),
    ensures
        i < res.1 <= chars.len(),
        !(res.0 is Eof),
        res.0 is ErrorToken <==> res.2 is Some,
        res.2 matches Some(e) ==> (e is UnknownToken || e is InvalidNum),
        is_alpha(chars@[i as int]) ==> ({
            let w = chars@.subrange(i as int, res.1 as int);
            &&& forall|j: int| i <= j < res.1 ==> is_word_char(#[trigger] chars@[j])
            &&& (res.1 == chars.len() || !is_word_char(chars@[res.1 as int]))
            &&& (keyword_spec(w) matches Some(k) ==> res.0 == k)
            &&& (keyword_spec(w) is None ==> (res.0 matches TokenKind::Ident(name) && name@ == w))
        }),
        res.1 == lex_end(chars@, i as int),
        token_fits(chars@, i as int, res.1 as int, res.0),
        res.2 matches Some(e) ==> error_fits(chars@, i as int, res.1 as int, span, e),
{
    let c = chars[i];
    if is_alpha_exec(c) {
        let e = scan_word_end(chars, i);
        match keyword(chars, i, e) {
            Some(k) => (k, e, None),
            None => (TokenKind::Ident(string_of(chars, i, e)), e, None),
        }
    } else if is_digit_exec(c) {
        let (k, e) = lex_number(chars, i);
        match k {
            Some(k) => (k, e, None),
            None => {
                let lexeme = string_of(chars, i, e);
                (TokenKind::ErrorToken, e, Some(CompilerError::InvalidNum { lexeme, span }))
            }
        }
    } else {
        match lex_symbol(chars, i) {
            Some((k, n)) => (k, i + n, None),
            None => {
                let lexeme = string_of(chars, i, i + 1);
                (TokenKind::ErrorToken, i + 1, Some(CompilerError::UnknownToken { lexeme, span }))
            }
        }
    }
}

/// `x + d`, or `usize::MAX` where that does not fit.
pub open spec fn sat_add(x: usize, d: int) -> usize {
    if x + d > usize::MAX { usize::MAX } else { (x + d) as usize }
}

/// `toks` and `errs` are the tokens and the errors that lexing the
/// characters from `i` gives, where `i` stands at `line` and `col`: a new
/// line starts the next line at column 1, a blank moves one column, and
/// every other character starts a token that runs to `lex_end` (an invalid
/// one raises its error); the end of the text gives `Eof`.
pub open spec fn scanned(s: Seq<char>, i: int, line: usize, col: usize, toks: Seq<Token>, errs: Seq<CompilerError>) -> bool
    decreases s.len() - i,
{
    if i < 0 || i >= s.len() {
        toks == seq![Token { kind: TokenKind::Eof, span: Span { line, col } }] && errs.len() == 0
    } else if s[i] == '\n' {
        scanned(s, i + 1, sat_add(line, 1), 1, toks, errs)
    } else if s[i] == ' ' || s[i] == '\t' || s[i] == '\r' {
        scanned(s, i + 1, line, sat_add(col, 1), toks, errs)
    } else {
        let e = lex_end(s, i);
        let span = Span { line, col };
        &&& i < e <= s.len()
        &&& toks.len() > 0
        &&& toks[0].span == span
        &&& token_fits(s, i, e, toks[0].kind)
        &&& if toks[0].kind is ErrorToken {
            &&& errs.len() > 0
            &&& error_fits(s, i, e, span, errs[0])
            &&& scanned(s, e, line, sat_add(col, e - i), toks.drop_first(), errs.drop_first())
        } else {
            scanned(s, e, line, sat_add(col, e - i), toks.drop_first(), errs)
        }
    }
}

impl Lexer {
    /// The characters of the source text.
    pub closed spec fn source(&self) -> Seq<char> {
        self.chars@
    }

    pub fn new(code: &str) -> (l: Self)
        ensures
            l.source() == code@,
    {
        Lexer { chars: chars_of(code) }
    }

    /// Splits the source into tokens, ending with the single `Eof`. Each
    /// lexical error is reported once and leaves one `ErrorToken` in its place.
    pub fn tokenize(&self, diagnostics: &mut Diagnostics) -> (tokens: Vec<Token>)
        ensures
            ends_with_single_eof(tokens@),
            final(diagnostics)@.len() == old(diagnostics)@.len() + count_error_tokens(tokens@),
            final(diagnostics)@.subrange(0, old(diagnostics)@.len() as int) == old(diagnostics)@,
            all_lexical(final(diagnostics)@.subrange(old(diagnostics)@.len() as int, final(diagnostics)@.len() as int)),
            forall|k: int| 0 <= k < tokens@.len() ==> 1 <= #[trigger] tokens@[k].span.line && 1 <= tokens@[k].span.col,
            scanned(self.source(), 0, 1, 1, tokens@,
                final(diagnostics)@.subrange(old(diagnostics)@.len() as int, final(diagnostics)@.len() as int)),
    {
        let chars = &self.chars;
        let ghost src = chars@;
        let len = chars.len();
        let mut tokens: Vec<Token> = Vec::new();
        let mut i: usize = 0;
        let mut line: usize = 1;
        let mut col: usize = 1;
        let ghost old_diag = diagnostics@;
        proof {
            assert forall|rest: Seq<Token>, rerr: Seq<CompilerError>| #[trigger] scanned(src, 0, 1, 1, rest, rerr)
                implies scanned(src, 0, 1, 1, tokens@ + rest,
                    diagnostics@.subrange(old_diag.len() as int, diagnostics@.len() as int) + rerr) by {
                assert(tokens@ + rest =~= rest);
                assert(diagnostics@.subrange(old_diag.len() as int, diagnostics@.len() as int) + rerr =~= rerr);
            }
        }
        while i < len
            invariant
                len == chars.len(),
                i <= len,
                1 <= line <= i + 1,
                1 <= col <= i + 1,
                forall|k: int| 0 <= k < tokens@.len() ==> !(#[trigger] tokens@[k].kind is Eof),
                forall|k: int| 0 <= k < tokens@.len() ==> 1 <= #[trigger] tokens@[k].span.line && 1 <= tokens@[k].span.col,
                diagnostics@.len() == old_diag.len() + count_error_tokens(tokens@),
                diagnostics@.subrange(0, old_diag.len() as int) == old_diag,
                all_lexical(diagnostics@.subrange(old_diag.len() as int, diagnostics@.len() as int)),
                src == chars@,
                forall|rest: Seq<Token>, rerr: Seq<CompilerError>| #[trigger] scanned(src, i as int, line, col, rest, rerr)
                    ==> scanned(src, 0, 1, 1, tokens@ + rest,
                        diagnostics@.subrange(old_diag.len() as int, diagnostics@.len() as int) + rerr),
            decreases len - i,
        {
            let c = chars[i];
            let ghost (i0, line0, col0) = (i as int, line, col);
            if c == '\n' {
                line = line.saturating_add(1);
                col = 1;
                i = i + 1;
                proof {
                    assert forall|rest: Seq<Token>, rerr: Seq<CompilerError>| #[trigger] scanned(src, i as int, line, col, rest, rerr)
                        implies scanned(src, 0, 1, 1, tokens@ + rest,
                            diagnostics@.subrange(old_diag.len() as int, diagnostics@.len() as int) + rerr) by {
                        assert(scanned(src, i0, line0, col0, rest, rerr));
                    }
                }
            } else if c == ' ' || c == '\t' || c == '\r' {
                col = col.saturating_add(1);
                i = i + 1;
                proof {
                    assert forall|rest: Seq<Token>, rerr: Seq<CompilerError>| #[trigger] scanned(src, i as int, line, col, rest, rerr)
                        implies scanned(src, 0, 1, 1, tokens@ + rest,
                            diagnostics@.subrange(old_diag.len() as int, diagnostics@.len() as int) + rerr) by {
                        assert(scanned(src, i0, line0, col0, rest, rerr));
                    }
                }
            } else {
                let span = Span { line, col };
                let (kind, end, err) = lex_one(chars, i, span);
                let is_err = matches!(kind, TokenKind::ErrorToken);
                let tok = Token { kind, span };
                let ghost prev_toks = tokens@;
                let ghost prev_diag = diagnostics@;
                tokens.push(tok);
                assert(tokens@.drop_last() =~= prev_toks);
                match err {
                    Some(e) => {
                        diagnostics.error(e);
                        assert(diagnostics@.subrange(0, old_diag.len() as int) =~= prev_diag.subrange(0, old_diag.len() as int));
                        assert forall|m: int|
                            0 <= m < diagnostics@.subrange(old_diag.len() as int, diagnostics@.len() as int).len() implies
                            (#[trigger] diagnostics@.subrange(old_diag.len() as int, diagnostics@.len() as int)[m] is UnknownToken
                            || diagnostics@.subrange(old_diag.len() as int, diagnostics@.len() as int)[m] is InvalidNum) by {
                            if m < prev_diag.len() - old_diag.len() {
                                assert(diagnostics@.subrange(old_diag.len() as int, diagnostics@.len() as int)[m]
                                    == prev_diag.subrange(old_diag.len() as int, prev_diag.len() as int)[m]);
                            }
                        }
                    }
                    None => {}
                }
                col = col.saturating_add(end - i);
                i = end;
                proof {
                    let errs_now = diagnostics@.subrange(old_diag.len() as int, diagnostics@.len() as int);
                    let errs_before = prev_diag.subrange(old_diag.len() as int, prev_diag.len() as int);
                    assert forall|rest: Seq<Token>, rerr: Seq<CompilerError>| #[trigger] scanned(src, i as int, line, col, rest, rerr)
                        implies scanned(src, 0, 1, 1, tokens@ + rest, errs_now + rerr) by {
                        let rest2 = seq![tok] + rest;
                        assert(rest2.drop_first() =~= rest);
                        assert(prev_toks + rest2 =~= tokens@ + rest);
                        if is_err {
                            let e = err->0;
                            let rerr2 = seq![e] + rerr;
                            assert(rerr2.drop_first() =~= rerr);
                            assert(diagnostics@ == prev_diag.push(e));
                            assert(errs_before + rerr2 =~= errs_now + rerr);
                            assert(scanned(src, i0, line0, col0, rest2, rerr2));
                        } else {
                            assert(diagnostics@ == prev_diag);
                            assert(scanned(src, i0, line0, col0, rest2, rerr));
                        }
                    }
                }
            }
        }

        let ghost prev_toks = tokens@;
        tokens.push(Token { kind: TokenKind::Eof, span: Span { line, col } });
        assert(tokens@.drop_last() =~= prev_toks);
        proof {
            let errs_now = diagnostics@.subrange(old_diag.len() as int, diagnostics@.len() as int);
            let eof = seq![Token { kind: TokenKind::Eof, span: Span { line, col } }];
            assert(scanned(src, i as int, line, col, eof, Seq::<CompilerError>::empty()));
            assert(errs_now + Seq::<CompilerError>::empty() =~= errs_now);
            assert(prev_toks + eof =~= tokens@);
            assert(src == self.source());
        }
        tokens
    }
}

} // verus!
