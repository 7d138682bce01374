use loi_compiler::diagnostics::{CompilerError, Diagnostics, Span};
use loi_compiler::lexer::Lexer;
use loi_compiler::token::{Decimal, Token, TokenKind};

fn lex(code: &str) -> (Vec<Token>, Diagnostics) {
    let mut diagnostics = Diagnostics::new();
    let tokens = Lexer::new(code).tokenize(&mut diagnostics);
    (tokens, diagnostics)
}

#[test]
fn lexer_spans_follow_lines_and_columns() {
    let (tokens, diagnostics) = lex("let x := 1.25;\n  y");
    assert!(!diagnostics.has_errors());
    let kinds: Vec<TokenKind> = tokens.iter().map(|t| t.kind.clone()).collect();
    assert_eq!(
        kinds,
        vec![
            TokenKind::Let,
            TokenKind::Ident("x".to_string()),
            TokenKind::Connect,
            TokenKind::RealLiteral(Decimal { mantissa: 125, scale: 2 }),
            TokenKind::Semicolon,
            TokenKind::Ident("y".to_string()),
            TokenKind::Eof,
        ]
    );
    let spans: Vec<Span> = tokens.iter().map(|t| t.span.clone()).collect();
    assert_eq!(
        spans,
        vec![
            Span { line: 1, col: 1 },
            Span { line: 1, col: 5 },
            Span { line: 1, col: 7 },
            Span { line: 1, col: 10 },
            Span { line: 1, col: 14 },
            Span { line: 2, col: 3 },
            Span { line: 2, col: 4 },
        ]
    );
}

#[test]
fn lexer_number_too_large_is_invalid() {
    let (tokens, diagnostics) = lex("99999999999999999999");
    assert_eq!(tokens[0].kind, TokenKind::ErrorToken);
    assert_eq!(
        diagnostics.errors().to_vec(),
        vec![CompilerError::InvalidNum { lexeme: "99999999999999999999".to_string(), span: Span { line: 1, col: 1 } }]
    );
}

#[test]
fn lexer_empty_source_is_only_eof() {
    let (tokens, diagnostics) = lex("");
    assert!(!diagnostics.has_errors());
    assert_eq!(tokens.len(), 1);
    assert_eq!(tokens[0].kind, TokenKind::Eof);
    assert_eq!(tokens[0].span, Span { line: 1, col: 1 });
}
