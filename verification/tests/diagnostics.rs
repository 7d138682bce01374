use loi_compiler::diagnostics::{CompilerError, Diagnostics, Expected, Span};
use loi_compiler::lexer::Lexer;
use loi_compiler::parser::Parser;
use loi_compiler::token::TokenKind;

fn parse_source(code: &str) -> Diagnostics {
    let mut diagnostics = Diagnostics::new();
    let tokens = Lexer::new(code).tokenize(&mut diagnostics);
    let mut parser = Parser::new(tokens, diagnostics);
    parser.parse();
    parser.into_diagnostics()
}

#[test]
fn no_errors() {
    let diagnostics = parse_source("
            ent_t COIN = {H, T};
        
            let a = 1;

            rel_t ONE : () -> Real = 1;

            net EMPTY {}
        ");

    assert!(!diagnostics.has_errors());
}

#[test]
fn lexer_1() {
    let mut diagnostics = Diagnostics::new();
    Lexer::new(
    "@ 9a
        ").tokenize(&mut diagnostics);

    assert_eq!(diagnostics.errors().to_vec(), vec![
        CompilerError::UnknownToken {
            lexeme: "@".to_string(),
            span: Span { line: 1, col: 1 },
        },
        CompilerError::InvalidNum {
            lexeme: "9a".to_string(),
            span: Span { line: 1, col: 3 },
        },
    ]);
}

#[test]
fn rel() {
    let diagnostics = parse_source(
    "rel_t A () -> Real a;
        ");

    assert_eq!(diagnostics.errors().to_vec(), vec![
        CompilerError::UnexpectedToken {
            expected: vec![Expected::Token(TokenKind::Colon)],
            found: TokenKind::LParen,
            span: Span { line: 1, col: 9 },
        }
    ]);
}

#[test]
fn expr() {
    let diagnostics = parse_source(
"let n = cases a {
    let => 1,
};");

    assert_eq!(diagnostics.errors().to_vec(), vec![
        CompilerError::UnexpectedToken {
            expected: vec![Expected::Pattern],
            found: TokenKind::Let,
            span: Span { line: 2, col: 5 },
        }
    ]);
}

#[test]
fn multiple_errors_1() {
    let diagnostics = parse_source(
"let n = 1;
n = 2;
let n = 3;
let 9n = 4;
let n = 5;
let n = 6
let n = 7;
let n = @;");

    assert_eq!(diagnostics.errors().to_vec(), vec![
        CompilerError::InvalidNum {
            lexeme: "9n".to_string(),
            span: Span { line: 4, col: 5 },
        },
        CompilerError::UnknownToken {
            lexeme: "@".to_string(),
            span: Span { line: 8, col: 9 },
        },
        CompilerError::UnexpectedToken {
            expected: vec![
                Expected::Token(TokenKind::Let),
                Expected::Token(TokenKind::Ent_t),
                Expected::Token(TokenKind::Rel_t),
                Expected::Token(TokenKind::NetToken),
            ],
            found: TokenKind::Ident("n".to_string()),
            span: Span { line: 2, col: 1 },
        },
        CompilerError::UnexpectedToken {
            expected: vec![Expected::Ident],
            found: TokenKind::ErrorToken,
            span: Span { line: 4, col: 5 },
        },
        CompilerError::UnexpectedToken {
            expected: vec![Expected::Token(TokenKind::Semicolon)],
            found: TokenKind::Let,
            span: Span { line: 7, col: 1 },
        },
        CompilerError::UnexpectedToken {
            expected: vec![Expected::Expr],
            found: TokenKind::ErrorToken,
            span: Span { line: 8, col: 9 },
        },
    ]);
}

#[test]
fn errors_are_counted_and_kept_in_order() {
    let mut diagnostics = Diagnostics::new();
    let first = CompilerError::UnknownToken { lexeme: "@".to_string(), span: Span { line: 1, col: 1 } };
    let second = CompilerError::InvalidNum { lexeme: "9a".to_string(), span: Span { line: 2, col: 4 } };
    let third = CompilerError::UnknownToken { lexeme: "$".to_string(), span: Span { line: 3, col: 2 } };
    diagnostics.error(first.clone());
    diagnostics.error(second.clone());
    diagnostics.error(third.clone());
    assert_eq!(diagnostics.num_errors(), 3);
    assert!(diagnostics.has_errors());
    assert_eq!(diagnostics.errors().to_vec(), vec![first, second, third]);
}
