use loi_compiler::ast::{Connection, EntInit, Expr, Ident, Literal, Net, NetInst, NetItem, Param, RelInst};
use loi_compiler::diagnostics::{Diagnostics, Span};
use loi_compiler::parser::Parser;
use loi_compiler::token::{Token, TokenKind};
use loi_compiler::token::TokenKind::{
    Bool, BoolLiteral, Colon, Comma, Connect, Eof, Equals, Ident as IdentTok, Init, Input, LBrace,
    LParen, Output, RBrace, RParen, Semicolon,
};
use loi_compiler::types::Type;

fn build_token_vec(tokens: Vec<TokenKind>) -> Vec<Token> {
    tokens
        .into_iter()
        .map(|x| Token {kind: x, span: Span{line: 0, col: 0}})
        .collect()
}

fn build_ident_str(name: &str) -> Ident {
    Ident::Str {
        val: name.to_string(),
        span: Span{line: 0, col: 0},
    }
}

#[test]
fn net_add() {
    // net ADD {
    //     input a: Bool;
    //     input b: Bool;

    //     output sum: Bool;
    //     output cout: Bool;

    //     input cin: Bool = false;

    //     HALF_ADD {
    //         a := a,
    //         b := b,
    //         sum := h1_sum,
    //         cout := h1_carry,
    //     };

    //     HALF_ADD {
    //         a := h1_sum,
    //         b := cin,
    //         sum := sum,
    //         cout := h2_carry,
    //     };

    //     cout := OR(h1_carry, h2_carry);

    // }
    let kinds: Vec<TokenKind> = vec![
        IdentTok("ADD".to_string()), LBrace,
            Input, IdentTok("a".to_string()), Colon, Bool, Semicolon,
            Input, IdentTok("b".to_string()), Colon, Bool, Semicolon,
            Output, IdentTok("sum".to_string()), Colon, Bool, Semicolon,
            Output, IdentTok("cout".to_string()), Colon, Bool, Semicolon,
            Init, IdentTok("cin".to_string()), Colon, Bool, Equals, BoolLiteral(false), Semicolon,
            
            IdentTok("HALF_ADD".to_string()), LBrace,
                IdentTok("a".to_string()), Connect, IdentTok("a".to_string()), Comma,
                IdentTok("b".to_string()), Connect, IdentTok("b".to_string()), Comma,
                IdentTok("sum".to_string()), Connect, IdentTok("h1_sum".to_string()), Comma,
                IdentTok("cout".to_string()), Connect, IdentTok("h1_carry".to_string()), Comma,
            RBrace, Semicolon,

            IdentTok("HALF_ADD".to_string()), LBrace,
                IdentTok("a".to_string()), Connect, IdentTok("h1_sum".to_string()), Comma,
                IdentTok("b".to_string()), Connect, IdentTok("cin".to_string()), Comma,
                IdentTok("sum".to_string()), Connect, IdentTok("sum".to_string()), Comma,
                IdentTok("cout".to_string()), Connect, IdentTok("h2_carry".to_string()), Comma,
            RBrace, Semicolon,

            IdentTok("cout".to_string()), Connect, IdentTok("OR".to_string()), LParen,
                IdentTok("h1_carry".to_string()), Comma, IdentTok("h2_carry".to_string()),
            RParen, Semicolon,
        RBrace, Eof
        ];

    let tokens: Vec<Token> = build_token_vec(kinds);

        let mut parser = Parser::new(tokens, Diagnostics::new());

    let result = parser.parse_net();

    assert_eq!(result, Some(Net {
        name: build_ident_str("ADD"),
        items: vec![
            NetItem::Input(Param {
                name: build_ident_str("a"),
                param_type: Type::Bool,
            }),
            NetItem::Input(Param {
                name: build_ident_str("b"),
                param_type: Type::Bool,
            }),
            NetItem::Output(Param {
                name: build_ident_str("sum"),
                param_type: Type::Bool,
            }),
            NetItem::Output(Param {
                name: build_ident_str("cout"),
                param_type: Type::Bool,
            }),
            NetItem::Init(EntInit {
                param: Param {
                    name: build_ident_str("cin"),
                    param_type: Type::Bool,
                },
                val: Expr::Literal(Literal::Bool(false)),
            }),
            NetItem::NetInst(NetInst {
                net: build_ident_str("HALF_ADD"),
                connections: vec![
                    Connection {
                        port: build_ident_str("a"),
                        net: build_ident_str("a"),
                    },
                    Connection {
                        port: build_ident_str("b"),
                        net: build_ident_str("b"),
                    },
                    Connection {
                        port: build_ident_str("sum"),
                        net: build_ident_str("h1_sum"),
                    },
                    Connection {
                        port: build_ident_str("cout"),
                        net: build_ident_str("h1_carry"),
                    },
                ],
            }),
            NetItem::NetInst(NetInst {
                net: build_ident_str("HALF_ADD"),
                connections: vec![
                    Connection {
                        port: build_ident_str("a"),
                        net: build_ident_str("h1_sum"),
                    },
                    Connection {
                        port: build_ident_str("b"),
                        net: build_ident_str("cin"),
                    },
                    Connection {
                        port: build_ident_str("sum"),
                        net: build_ident_str("sum"),
                    },
                    Connection {
                        port: build_ident_str("cout"),
                        net: build_ident_str("h2_carry"),
                    },
                ],
            }),
            NetItem::RelInst(RelInst {
                asignee: build_ident_str("cout"),
                rel: build_ident_str("OR"),
                args: vec![
                    build_ident_str("h1_carry"),
                    build_ident_str("h2_carry"),
                ],
            })
        ],
    }));
}

#[test]
fn net_empty() {
    // net EMPTY {}
    let kinds: Vec<TokenKind> = vec![
        IdentTok("EMPTY".to_string()), LBrace, RBrace, Eof];

    let tokens: Vec<Token> = build_token_vec(kinds);

        let mut parser = Parser::new(tokens, Diagnostics::new());

    let result = parser.parse_net();

    assert_eq!(result, Some(Net {
        name: build_ident_str("EMPTY"),
        items: vec![],
    }));
}

#[test]
fn net_bad_1() {
    // net ADD {
    //     input a: Bool;
    //     input b Bool; // missing colon

    //     output sum: Bool;
    // }
    let kinds: Vec<TokenKind> = vec![
        IdentTok("ADD".to_string()), LBrace,
            Input, IdentTok("a".to_string()), Colon, Bool, Semicolon,
            Input, IdentTok("b".to_string()), Bool, Semicolon,
            Output, IdentTok("sum".to_string()), Colon, Bool, Semicolon,
        RBrace, Eof
        ];

    let tokens: Vec<Token> = build_token_vec(kinds);

        let mut parser = Parser::new(tokens, Diagnostics::new());

    let result = parser.parse_net();

    assert_eq!(result, Some(Net {
        name: build_ident_str("ADD"),
        items: vec![
            NetItem::Input(Param {
                name: build_ident_str("a"),
                param_type: Type::Bool,
            }),
            NetItem::Error,
            NetItem::Output(Param {
                name: build_ident_str("sum"),
                param_type: Type::Bool,
            }),
        ],
    }));
    assert_eq!(parser.diagnostics().num_errors(), 1);
}

#[test]
fn net_bad_2() {
    // net ADD {
    //     input a: ; // missing bool
    //     input b : Bool; 

    //     sum: Bool; // missing output
    // }
    let kinds: Vec<TokenKind> = vec![
        IdentTok("ADD".to_string()), LBrace,
            Input, IdentTok("a".to_string()), Colon, Semicolon,
            Input, IdentTok("b".to_string()), Colon, Bool, Semicolon,
            IdentTok("sum".to_string()), Colon, Bool, Semicolon,
        RBrace, Eof
        ];

    let tokens: Vec<Token> = build_token_vec(kinds);

        let mut parser = Parser::new(tokens, Diagnostics::new());

    let result = parser.parse_net();

    assert_eq!(result, Some(Net {
        name: build_ident_str("ADD"),
        items: vec![
            NetItem::Error,
            NetItem::Input(Param {
                name: build_ident_str("b"),
                param_type: Type::Bool,
            }),
            NetItem::Error,
        ],
    }));
    assert_eq!(parser.diagnostics().num_errors(), 2);
}

#[test]
fn net_bad_3() {
    // net ADD {
    //     input a: Bool;
    //     input b: Bool // missing semicolon

    //     output sum: Bool;
    // }
    let kinds: Vec<TokenKind> = vec![
        IdentTok("ADD".to_string()), LBrace,
            Input, IdentTok("a".to_string()), Colon, Bool, Semicolon,
            Input, IdentTok("b".to_string()), Colon, Bool,
            Output, IdentTok("sum".to_string()), Colon, Bool, Semicolon,
        RBrace, Eof
        ];

    let tokens: Vec<Token> = build_token_vec(kinds);

        let mut parser = Parser::new(tokens, Diagnostics::new());

    let result = parser.parse_net();

    assert_eq!(result, Some(Net {
        name: build_ident_str("ADD"),
        items: vec![
            NetItem::Input(Param {
                name: build_ident_str("a"),
                param_type: Type::Bool,
            }),
            NetItem::Error,
            NetItem::Output(Param {
                name: build_ident_str("sum"),
                param_type: Type::Bool,
            }),
        ],
    }));
    assert_eq!(parser.diagnostics().num_errors(), 1);
}

#[test]
fn net_bad_4() {
    // net A {
    //     B {
    //         c  d,   // missing connect
    //         e := f,
    //     };
    // }
    let kinds: Vec<TokenKind> = vec![
        IdentTok("A".to_string()), LBrace,
            IdentTok("B".to_string()), LBrace,
                IdentTok("c".to_string()), IdentTok("d".to_string()), Comma,
                IdentTok("e".to_string()), Connect, IdentTok("f".to_string()), Comma,
            RBrace, Semicolon,
        RBrace, Eof
        ];

    let tokens: Vec<Token> = build_token_vec(kinds);

        let mut parser = Parser::new(tokens, Diagnostics::new());

    let result = parser.parse_net();

    assert_eq!(result, Some(Net {
        name: build_ident_str("A"),
        items: vec![
            NetItem::Error,
        ],
    }));
    assert_eq!(parser.diagnostics().num_errors(), 1);
}

#[test]
fn net_bad_5() {
    // net A {
    //     B {
    //         c :=,   // missing ident
    //         e := f,
    //     };
    // }
    let kinds: Vec<TokenKind> = vec![
        IdentTok("A".to_string()), LBrace,
            IdentTok("B".to_string()), LBrace,
                IdentTok("c".to_string()), Connect, Comma,
                IdentTok("e".to_string()), Connect, IdentTok("f".to_string()), Comma,
            RBrace, Semicolon,
        RBrace, Eof
        ];

    let tokens: Vec<Token> = build_token_vec(kinds);

        let mut parser = Parser::new(tokens, Diagnostics::new());

    let result = parser.parse_net();

    assert_eq!(result, Some(Net {
        name: build_ident_str("A"),
        items: vec![
            NetItem::Error,
        ],
    }));
    assert_eq!(parser.diagnostics().num_errors(), 1);
}

#[test]
fn net_bad_6() {
    // net A {
    //     B {
    //         c := d,   
    //         e := f,
    //     } // Missing semicolon
    // }
    let kinds: Vec<TokenKind> = vec![
        IdentTok("A".to_string()), LBrace,
            IdentTok("B".to_string()), LBrace,
                IdentTok("c".to_string()), Connect, IdentTok("d".to_string()), Comma,
                IdentTok("e".to_string()), Connect, IdentTok("f".to_string()), Comma,
            RBrace,
        RBrace, Eof
        ];

    let tokens: Vec<Token> = build_token_vec(kinds);

        let mut parser = Parser::new(tokens, Diagnostics::new());

    let result = parser.parse_net();

    assert_eq!(result, Some(Net {
        name: build_ident_str("A"),
        items: vec![
            NetItem::Error,
        ],
    }));
    assert_eq!(parser.diagnostics().num_errors(), 1);
}

#[test]
fn net_bad_7() {
    // net ADD {
    //     cout  OR(h1_carry, h2_carry); // missing connect
    // }
    let kinds: Vec<TokenKind> = vec![
        IdentTok("ADD".to_string()), LBrace,
            IdentTok("cout".to_string()), IdentTok("OR".to_string()), LParen,
                IdentTok("h1_carry".to_string()), Comma, IdentTok("h2_carry".to_string()),
            RParen, Semicolon,
        RBrace, Eof
        ];

    let tokens: Vec<Token> = build_token_vec(kinds);

        let mut parser = Parser::new(tokens, Diagnostics::new());

    let result = parser.parse_net();

    assert_eq!(result, Some(Net {
        name: build_ident_str("ADD"),
        items: vec![
            NetItem::Error
        ],
    }));
    assert_eq!(parser.diagnostics().num_errors(), 1);
}
