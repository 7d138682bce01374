use loi_compiler::ast::{
    BinaryExpr, BinaryOp, BlockExpr, CasesArm, CasesExpr, CompOp, Expr, Ident, LetStatement,
    Literal, Prob, SampleArm, SampleExpr, SimplePattern, Statement, UnaryExpr, UnaryOp,
};
use loi_compiler::diagnostics::{Diagnostics, Span};
use loi_compiler::parser::Parser;
use loi_compiler::token::{Decimal, Token, TokenKind};
use loi_compiler::token::TokenKind::{
    Asterisk, Caret, Cases, Colon, Comma, Eof, Equals, ErrorToken, Ident as IdentTok, IntLiteral,
    LBrace, LParen, Let, Minus, Pipe, Plus, RBrace, RParen, RealLiteral, Sample, Semicolon, Slash, Underscore,
};
use loi_compiler::types::Type;

/// The exact decimal written as `text` (digits, a dot, digits).
fn decimal_of(text: &str) -> Decimal {
    let (int_part, frac_part) = text.split_once('.').unwrap();
    let digits = format!("{}{}", int_part, frac_part);
    Decimal { mantissa: digits.parse().unwrap(), scale: frac_part.len() as u32 }
}

fn real_to_string(d: &Decimal) -> String {
    (d.mantissa as f64 / 10f64.powi(d.scale as i32)).to_string()
}

fn build_token_vec(tokens: Vec<TokenKind>) -> Vec<Token> {
    tokens
        .into_iter()
        .map(|x| Token {kind: x, span: Span{line: 0, col: 0}})
        .collect()
}

fn build_ident_str(name: &str) -> Ident {
    Ident::Str {
        val: name.to_string(),
        span: Span{line: 0, col: 0},
    }
}

fn build_s_expr(expr: &Expr) -> String {
    match expr {
        Expr::Literal(Literal::Int(n)) => n.to_string(),
        Expr::Literal(Literal::Bool(b)) => b.to_string(),
        Expr::Literal(Literal::Real(x)) => real_to_string(x),

        Expr::Ident(ident) => match ident {
            Ident::Str {val, ..} => val.clone(),
            Ident::Symbol(id) => format!("sym:{}", id), // should be unreachable
        }

        Expr::Unary(unary) => {
            format!(
                "({} {})",
                unary_op_to_str(&unary.op),
                build_s_expr(&unary.expr),
            )
        }

        Expr::Binary(binary) => {
            format!(
                "({} {} {})",
                binary_op_to_str(&binary.op),
                build_s_expr(&binary.left),
                build_s_expr(&binary.right),
            )
        }

        // (tuple a b c)
        Expr::Tuple(elements) => {
            let elems = elements
                .iter()
                .map(build_s_expr)
                .collect::<Vec<_>>()
                .join(" ");

            format!("(tuple {})", elems)
        }

        // (block (let ident a) b)
        Expr::Block(block) => {
            let statements = block
                .statements
                .iter()
                .map(build_statement)
                .collect::<Vec<_>>()
                .join(" ");

            format!("(block {} {})", statements, build_s_expr(&block.expr))
        }

        // (cases x (arm 0 1) (arm _ 2))
        Expr::Cases(cases_expr) => {
            let arms = cases_expr 
                .arms
                .iter()
                .map(build_cases_arm)
                .collect::<Vec<_>>()
                .join(" ");

            format!("(cases {} {})", build_s_expr(&cases_expr.scrutinee), arms)
        }

        // (sample (arm 0.5 1) (arm _ 0))
        Expr::Sample(sample_expr) => {
            let arms = sample_expr
                .arms
                .iter()
                .map(build_sample_arm)
                .collect::<Vec<_>>()
                .join(" ");

            format!("(sample {})", arms)
        }

        Expr::Error => {
            format!("(error)")
        }
    }
}

fn build_statement(stmt: &Statement) -> String {
    match stmt {
        Statement::Let(let_stmt) => {
            let name = match &let_stmt.name {
                Ident::Str {val, ..} => val.clone(),
                Ident::Symbol(id) => format!("sym:{}", id), // should be unreachable
            };

            format!("(let {} {})", name, build_s_expr(&let_stmt.expr))
        }
        Statement::Error => {
            format!("(error)")
        }
    }
}

fn build_cases_arm(arm: &CasesArm) -> String {
    let pattern = if arm.pattern.len() == 1 {
        build_pattern(&arm.pattern[0])
    } else {
        let patterns = arm.pattern
            .iter()
            .map(build_pattern)
            .collect::<Vec<_>>()
            .join(" ");

        format!("(or {})", patterns)
    };

    format!(
        "(arm {} {})",
        pattern,
        build_s_expr(&arm.expr),
    )
}

fn build_pattern(pattern: &SimplePattern) -> String {
    match pattern {
        SimplePattern::Default => "_".to_string(),

        SimplePattern::Literal(Literal::Int(n)) => n.to_string(),
        SimplePattern::Literal(Literal::Bool(b)) => b.to_string(),
        SimplePattern::Literal(Literal::Real(x)) => real_to_string(x),

        SimplePattern::Ident(ident) => match ident {
            Ident::Str {val, ..} => val.clone(),
            Ident::Symbol(id) => format!("sym:{}", id), // should be unreachable
        }

        SimplePattern::Tuple(elements) => {
            let elems = elements
                .iter()
                .map(build_pattern)
                .collect::<Vec<_>>()
                .join(" ");

            format!("(tuple {})", elems)
        }

        SimplePattern::Comparison(comp) => {
            format!(
                "({} {})",
                comp_op_to_str(&comp.op),
                build_s_expr(&comp.expr),
            )
        }

        SimplePattern::Error => {
            format!("(error)")
        }
    }
}

fn build_sample_arm(arm: &SampleArm) -> String {
    let prob = match &arm.prob {
        Prob::Default => "_".to_string(),
        Prob::Expr(expr) =>  build_s_expr(expr),
    };

    format!(
        "(arm {} {})",
        prob,
        build_s_expr(&arm.expr),
    )
}

fn unary_op_to_str(op: &UnaryOp) -> &'static str {
    match op {
        UnaryOp::Neg    => "-",
        UnaryOp::BitNot => "~",
    }
}

fn binary_op_to_str(op: &BinaryOp) -> &'static str {
    match op {
        BinaryOp::Add => "+",
        BinaryOp::Sub => "-",
        BinaryOp::Mul => "*",
        BinaryOp::Div => "/",
        BinaryOp::Pow => "^",
        BinaryOp::Or  => "|",
        BinaryOp::And => "&",
        BinaryOp::Gt  => ">",
        BinaryOp::Lt  => "<",
        BinaryOp::Ge  => ">=",
        BinaryOp::Le  => "<=",
    }
}

fn comp_op_to_str(op: &CompOp) -> &'static str {
    match op {
        CompOp::Gt  => ">",
        CompOp::Lt  => "<",
        CompOp::Ge  => ">=",
        CompOp::Le  => "<=",
    }
}

#[test]
fn test_build_s_expr() {
    let start = Expr::Binary(BinaryExpr {
        left: Box::new(Expr::Unary(UnaryExpr {
            op: UnaryOp::Neg,
            expr: Box::new(Expr::Literal(Literal::Int(5))),
            op_span: Span {line: 0, col: 0},
            expr_type: Type::Unknown,
        })),
        op: BinaryOp::Add,
        right: Box::new(Expr::Binary(BinaryExpr {
            left: Box::new(Expr::Literal(Literal::Int(2))),
            op: BinaryOp::Mul,
            right: Box::new(Expr::Ident(build_ident_str("a"))),
            op_span: Span {line: 0, col: 0},
            expr_type: Type::Unknown
        })),
        op_span: Span {line: 0, col: 0},
        expr_type: Type::Unknown,
    });

    let result: String = build_s_expr(&start);

    assert_eq!(result, "(+ (- 5) (* 2 a))".to_string());
}

#[test]
fn test_no_expr() {
    let kinds: Vec<TokenKind> = vec![Eof];
    let tokens: Vec<Token> = build_token_vec(kinds);

        let mut parser = Parser::new(tokens, Diagnostics::new());

    let result = parser.parse_expr(0);

    assert_eq!(result, None);
    assert_eq!(parser.diagnostics().num_errors(), 1);
}

#[test]
fn literal_and_ident_expr() {
    let kinds: Vec<TokenKind> = vec![IntLiteral(3), Eof];
    let tokens: Vec<Token> = build_token_vec(kinds);

        let mut parser = Parser::new(tokens, Diagnostics::new());

    let result = parser.parse_prefix().unwrap();

    assert_eq!(result, Expr::Literal(Literal::Int(3)));

    let kinds: Vec<TokenKind> = vec![IdentTok("hey".to_string()), Eof];
    let tokens: Vec<Token> = build_token_vec(kinds);

        let mut parser = Parser::new(tokens, Diagnostics::new());

    let result = parser.parse_prefix().unwrap();

    assert_eq!(result, Expr::Ident(build_ident_str("hey")));
}

#[test]
fn unary_expr() {
    // ---6
    let kinds: Vec<TokenKind> = vec![Minus, Minus, Minus, IntLiteral(6), Eof];
    let tokens: Vec<Token> = build_token_vec(kinds);
    
        let mut parser = Parser::new(tokens, Diagnostics::new());

    let result = parser.parse_prefix().unwrap();
    
    let result_str: String = build_s_expr(&result);

    assert_eq!(result_str, "(- (- (- 6)))".to_string());
}

#[test]
fn binary_expr() {
    // -5 + 2 * a + b
    let kinds: Vec<TokenKind> = vec![Minus, IntLiteral(5), Plus, 
        IntLiteral(2), Asterisk, IdentTok("a".to_string()), Plus, 
        IdentTok("b".to_string()), Eof];
    let tokens: Vec<Token> = build_token_vec(kinds);

        let mut parser = Parser::new(tokens, Diagnostics::new());

    let result = parser.parse_expr(0).unwrap();

    let result_str: String = build_s_expr(&result);

    assert_eq!(result_str, "(+ (+ (- 5) (* 2 a)) b)".to_string()); 

    // (9 + 10) | 5
    let kinds: Vec<TokenKind> = vec![LParen, IntLiteral(9), Plus, 
    IntLiteral(10), RParen, Pipe, IntLiteral(5), Eof];
    let tokens: Vec<Token> = build_token_vec(kinds);

        let mut parser = Parser::new(tokens, Diagnostics::new());

    let result = parser.parse_expr(0).unwrap();

    let result_str: String = build_s_expr(&result);

    assert_eq!(result_str, "(| (+ 9 10) 5)".to_string()); 

    //-3^(-7)^(8-2-4/-1)
    let kinds: Vec<TokenKind> = vec![Minus, IntLiteral(3), Caret, LParen, 
        Minus, IntLiteral(7), RParen, Caret, LParen, IntLiteral(8), Minus,
        IntLiteral(2), Minus, IntLiteral(4), Slash, Minus, IntLiteral(1), 
        RParen, Eof];
    let tokens: Vec<Token> = build_token_vec(kinds);

        let mut parser = Parser::new(tokens, Diagnostics::new());

    let result = parser.parse_expr(0).unwrap();

    let result_str: String = build_s_expr(&result);

    assert_eq!(result_str, "(- (^ 3 (^ (- 7) (- (- 8 2) (/ 4 (- 1))))))".to_string()); 
}

#[test]
fn tuple_expr_1() {
    // (1, 1+5, 3)
    let kinds: Vec<TokenKind> = vec![LParen, IntLiteral(1), Comma, 
        IntLiteral(1), Plus, IntLiteral(5), Comma,
        IntLiteral(3), RParen, Eof];
    let tokens: Vec<Token> = build_token_vec(kinds);

        let mut parser = Parser::new(tokens, Diagnostics::new());

    let result: Expr = parser.parse_expr(0).unwrap();

    let result_str: String = build_s_expr(&result);

    assert_eq!(result_str, "(tuple 1 (+ 1 5) 3)".to_string()); 
}

#[test]
fn tuple_expr_2() {    
    // (1, (2, 3))
    let kinds: Vec<TokenKind> = vec![LParen, IntLiteral(1), Comma, 
        LParen, IntLiteral(2), Comma,
        IntLiteral(3), RParen, RParen, Eof];
    let tokens: Vec<Token> = build_token_vec(kinds);

        let mut parser = Parser::new(tokens, Diagnostics::new());

    let result= parser.parse_expr(0).unwrap();

    let result_str: String = build_s_expr(&result);

    assert_eq!(result_str, "(tuple 1 (tuple 2 3))".to_string()); 
}

#[test]
fn block_expr() {
    // {
    //     let n = 1;
        
    //     n + 1
    // } + 2
    let kinds: Vec<TokenKind> = vec![LBrace, 
        Let, IdentTok("n".to_string()), Equals, IntLiteral(1), Semicolon,
        IdentTok("n".to_string()), Plus, IntLiteral(1),
        RBrace, Plus, IntLiteral(2), Eof];
    let tokens = build_token_vec(kinds);

        let mut parser = Parser::new(tokens, Diagnostics::new());
    let result = parser.parse_expr(0).unwrap();

    let result_str = build_s_expr(&result);

    assert_eq!(result_str, "(+ (block (let n 1) (+ n 1)) 2)".to_string());
}

#[test]
fn match_expr() {
    // cases a {
    //     1 : 1+a,
    //     _ : a,
    // } - 2
    let kinds: Vec<TokenKind> = vec![Cases, IdentTok("a".to_string()), LBrace, 
        IntLiteral(1), Colon, IntLiteral(1), Plus, IdentTok("a".to_string()), Comma,
        Underscore, Colon, IdentTok("a".to_string()), Comma,
        RBrace, Minus, IntLiteral(2), Eof];
    let tokens: Vec<Token> = build_token_vec(kinds);

        let mut parser = Parser::new(tokens, Diagnostics::new());

    let result= parser.parse_expr(0).unwrap();

    let result_str: String = build_s_expr(&result);

    assert_eq!(result_str, "(- (cases a (arm 1 (+ 1 a)) (arm _ a)) 2)".to_string());

    // cases (a, b) {
    //     (1, 0) | (0, 1) | (1, 1) : 1,
    //     _ : 0,
    // }
    let kinds: Vec<TokenKind> = vec![Cases, LParen, IdentTok("a".to_string()), Comma,  IdentTok("b".to_string()), RParen, LBrace,
            LParen, IntLiteral(1), Comma, IntLiteral(0), RParen, Pipe, 
            LParen, IntLiteral(0), Comma, IntLiteral(1), RParen, Pipe,
            LParen, IntLiteral(1), Comma, IntLiteral(1), RParen,
            Colon, IntLiteral(1), Comma,
        Underscore, Colon, IntLiteral(0),
        RBrace, Eof];
    let tokens: Vec<Token> = build_token_vec(kinds);

        let mut parser = Parser::new(tokens, Diagnostics::new());

    let result= parser.parse_expr(0).unwrap();

    let result_str: String = build_s_expr(&result);

    assert_eq!(result_str, "(cases (tuple a b) (arm (or (tuple 1 0) (tuple 0 1) (tuple 1 1)) 1) (arm _ 0))".to_string());
}

#[test]
fn sample_expr() {
    // sample {
    //     0.5 : 1,
    //     _ : 0,
    // }
    let kinds: Vec<TokenKind> = vec![Sample, LBrace,
        RealLiteral(decimal_of("0.5")), Colon, IntLiteral(1), Comma,
        Underscore, Colon, IntLiteral(0), Comma,
        RBrace, Eof];
    let tokens: Vec<Token> = build_token_vec(kinds);

        let mut parser = Parser::new(tokens, Diagnostics::new());

    let result= parser.parse_expr(0).unwrap();

    let result_str: String = build_s_expr(&result);

    assert_eq!(result_str, "(sample (arm 0.5 1) (arm _ 0))".to_string());

    // cases coin {
    //     H : sample {
    //         0.1 : H,
    //         _ : T
    //     },
    //     T : sample {
    //         0.8 : H,
    //         _ : T
    //     },
    // }
    let kinds: Vec<TokenKind> = vec![Cases, IdentTok("coin".to_string()), LBrace,
        IdentTok("H".to_string()), Colon, Sample, LBrace,
            RealLiteral(decimal_of("0.1")), Colon, IdentTok("H".to_string()), Comma,
            Underscore, Colon, IdentTok("T".to_string()),
        RBrace, Comma,
        IdentTok("T".to_string()), Colon, Sample, LBrace,
            RealLiteral(decimal_of("0.8")), Colon, IdentTok("H".to_string()), Comma,
            Underscore, Colon, IdentTok("T".to_string()),
        RBrace, Comma,
        RBrace, Eof];
    let tokens: Vec<Token> = build_token_vec(kinds);

        let mut parser = Parser::new(tokens, Diagnostics::new());

    let result= parser.parse_expr(0).unwrap();

    let result_str: String = build_s_expr(&result);

    assert_eq!(result_str, "(cases coin (arm H (sample (arm 0.1 H) (arm _ T))) (arm T (sample (arm 0.8 H) (arm _ T))))".to_string());

    // sample {}
    let kinds: Vec<TokenKind> = vec![Sample, LBrace, RBrace, Eof];
    let tokens: Vec<Token> = build_token_vec(kinds);

        let mut parser = Parser::new(tokens, Diagnostics::new());

    let result = parser.parse_expr(0);

    assert_eq!(result, Some(Expr::Sample(SampleExpr {arms: vec![], expr_type: Type::Unknown, span: Span {line: 0, col: 0}})));

    // sample {
    //     a : sample {
    //        a : b        // no fat arrow
    //     },
    //     _ : c
    // }
    let kinds: Vec<TokenKind> = vec![Sample, LBrace,
        IdentTok("a".to_string()), Colon, Sample, LBrace, 
            IdentTok("a".to_string()), Colon, IdentTok("b".to_string()),
        RBrace, Comma,
        Underscore, Colon, IdentTok("c".to_string()), Comma,
        RBrace, Eof];
    let tokens: Vec<Token> = build_token_vec(kinds);

        let mut parser = Parser::new(tokens, Diagnostics::new());

    let result = parser.parse_expr(0);

    assert_eq!(result, Some(Expr::Sample(SampleExpr {
        arms: vec![
            SampleArm {
                prob: Prob::Expr(Expr::Ident(build_ident_str("a"))),
                expr: Expr::Sample(SampleExpr {
                    arms: vec![SampleArm {
                        prob: Prob::Expr(Expr::Ident(build_ident_str("a"))),
                        expr: Expr::Ident(build_ident_str("b")),
                        arm_span: Span {line: 0, col: 0},
                    }],
                    expr_type: Type::Unknown,
                    span: Span {line: 0, col: 0},
                }),
                arm_span: Span {line: 0, col: 0},
            },
            SampleArm {
                prob: Prob::Default,
                expr: Expr::Ident(build_ident_str("c")),
                arm_span: Span {line: 0, col: 0},
            },
        ],
        expr_type: Type::Unknown,
        span: Span {line: 0, col: 0},
    })));
}

#[test]
fn bad_unary_expr() {
    // @b
    let kinds: Vec<TokenKind> = vec![ErrorToken, IdentTok("b".to_string()), Eof];
    let tokens: Vec<Token> = build_token_vec(kinds);

        let mut parser = Parser::new(tokens, Diagnostics::new());

    let result = parser.parse_expr(0);

    assert_eq!(result, None);
    assert_eq!(parser.diagnostics().num_errors(), 1);
}

#[test]
fn bad_tuple_expr() {
    // (1, , 3)
    let kinds: Vec<TokenKind> = vec![LParen, IntLiteral(1), Comma, Comma, IntLiteral(3), RParen, Eof];
    let tokens: Vec<Token> = build_token_vec(kinds);

        let mut parser = Parser::new(tokens, Diagnostics::new());

    let result = parser.parse_expr(0);

    assert_eq!(result, Some(Expr::Tuple(vec![
        Expr::Literal(Literal::Int(1)),
        Expr::Error,
        Expr::Literal(Literal::Int(3)),
    ])));
    assert_eq!(parser.diagnostics().num_errors(), 1);
}

#[test]
fn bad_block_expr_1() {
    // {
    //     let m = 1;
    //     let n = 1 // no semicolon
    //     n + 1
    // }
    let kinds: Vec<TokenKind> = vec![LBrace, 
        Let, IdentTok("m".to_string()), Equals, IntLiteral(1), Semicolon,
        Let, IdentTok("n".to_string()), Equals, IntLiteral(1),
        IdentTok("n".to_string()), Plus, IntLiteral(1),
        RBrace, Eof];
    let tokens = build_token_vec(kinds);

        let mut parser = Parser::new(tokens, Diagnostics::new());
    let result = parser.parse_expr(0);

    // Synchronization will eat the expression coming after, 
    //  then the block expression parser will expect an expression and
    //  emit another error
    assert_eq!(result, Some(Expr::Block(BlockExpr {
        statements: vec![
            Statement::Let(LetStatement {
                name: Ident::Str{
                    val: "m".to_string(),
                    span: Span{line: 0, col: 0},
                },
                expr: Expr::Literal(Literal::Int(1)),
            }),
            Statement::Error,
        ],
        expr: Box::new(Expr::Error),
        expr_type: Type::Unknown,
    })));
    assert_eq!(parser.diagnostics().num_errors(), 2);
}

#[test]
fn bad_block_expr_2() {
    // {
    //     let n = 1;
        
    //     // no expr
    // }
    let kinds: Vec<TokenKind> = vec![LBrace, 
        Let, IdentTok("n".to_string()), Equals, IntLiteral(1), Semicolon,
        RBrace, Eof];
    let tokens = build_token_vec(kinds);

        let mut parser = Parser::new(tokens, Diagnostics::new());
    let result = parser.parse_expr(0);

    assert_eq!(result, Some(Expr::Block(BlockExpr {
        statements: vec![
            Statement::Let(LetStatement {
                name: Ident::Str{
                    val: "n".to_string(),
                    span: Span{line: 0, col: 0},
                },
                expr: Expr::Literal(Literal::Int(1)),
            })
        ],
        expr: Box::new(Expr::Error),
        expr_type: Type::Unknown,
    })));
    assert_eq!(parser.diagnostics().num_errors(), 1);
}

#[test]
fn bad_block_expr_3() {
    // {
    //     let n = 1;
        
    //     n + 1
    //  // no end brace
    let kinds: Vec<TokenKind> = vec![LBrace, 
        Let, IdentTok("n".to_string()), Equals, IntLiteral(1), Semicolon,
        IdentTok("n".to_string()), Plus, IntLiteral(1),
        Eof];
    let tokens = build_token_vec(kinds);

        let mut parser = Parser::new(tokens, Diagnostics::new());
    let result = parser.parse_expr(0);

    assert_eq!(result, None);
    assert_eq!(parser.diagnostics().num_errors(), 1);
}

#[test]
fn bad_match_1() {
    //     cases { // missing expression after cases
    //         a : 1,
    //         _ : 0,
    //     }
    // }
    let kinds: Vec<TokenKind> = vec![Cases, LBrace,
        IdentTok("a".to_string()), Colon, IntLiteral(1), Comma, 
        Underscore, Colon, IntLiteral(0), Comma,
        RBrace, Eof];
    let tokens: Vec<Token> = build_token_vec(kinds);

        let mut parser = Parser::new(tokens, Diagnostics::new());

    let result = parser.parse_expr(0);

    assert_eq!(result, None);
    assert_eq!(parser.diagnostics().num_errors(), 1);
}

#[test]
fn bad_match_2() {
    //     cases a { 
    //         @ : 1, // unknown token
    //         _ : 0,
    //     }
    // }
    let kinds: Vec<TokenKind> = vec![Cases, IdentTok("a".to_string()), LBrace,
        ErrorToken, Colon, IntLiteral(1), Comma, 
        Underscore, Colon, IntLiteral(0), Comma,
        RBrace, Eof];
    let tokens: Vec<Token> = build_token_vec(kinds);

        let mut parser = Parser::new(tokens, Diagnostics::new());

    let result = parser.parse_expr(0);

    assert_eq!(result, None);
    assert_eq!(parser.diagnostics().num_errors(), 1);
}

#[test]
fn bad_match_3() {
    //     cases a { 
    //         : 1, // missing expr
    //         _ : 0,
    //     }
    // }
    let kinds: Vec<TokenKind> = vec![Cases, IdentTok("a".to_string()), LBrace,
        Colon, IntLiteral(1), Comma, 
        Underscore, Colon, IntLiteral(0), Comma,
        RBrace, Eof];
    let tokens: Vec<Token> = build_token_vec(kinds);

        let mut parser = Parser::new(tokens, Diagnostics::new());

    let result = parser.parse_expr(0);

    assert_eq!(result, None);
    assert_eq!(parser.diagnostics().num_errors(), 1);
}

#[test]
fn bad_match_4() {
    //     cases a { 
    //         b : , // missing expr
    //         _ : 0,
    //     }
    // }
    let kinds: Vec<TokenKind> = vec![Cases, IdentTok("a".to_string()), LBrace,
        IdentTok("b".to_string()), Colon, Comma, 
        Underscore, Colon, IntLiteral(0), Comma,
        RBrace, Eof];
    let tokens: Vec<Token> = build_token_vec(kinds);

        let mut parser = Parser::new(tokens, Diagnostics::new());

    let result = parser.parse_expr(0);

    assert_eq!(result, Some(Expr::Cases(CasesExpr {
        scrutinee: Box::new(Expr::Ident(build_ident_str("a"))),
        arms: vec![
            CasesArm {
                pattern: vec![SimplePattern::Ident(build_ident_str("b"))],
                expr: Expr::Error,
                arm_span: Span {line: 0, col: 0},
            },
            CasesArm {
                pattern: vec![SimplePattern::Default],
                expr: Expr::Literal(Literal::Int(0)),
                arm_span: Span {line: 0, col: 0},
            }
        ],
        expr_type: Type::Unknown,
        span: Span {line: 0, col: 0},
    })));
    assert_eq!(parser.diagnostics().num_errors(), 1);
}

#[test]
fn bad_sample_expr_1() {
    // sample {
    //     b 1,  // no fat arrow
    //     _ c,  // no fat arrow
    // }
    let kinds: Vec<TokenKind> = vec![Sample, LBrace,
        IdentTok("b".to_string()), IntLiteral(1), Comma,
        Underscore, IdentTok("c".to_string()), Comma,
        RBrace, Eof];
    let tokens: Vec<Token> = build_token_vec(kinds);

        let mut parser = Parser::new(tokens, Diagnostics::new());

    let result = parser.parse_expr(0);

    assert_eq!(result, None);
    assert_eq!(parser.diagnostics().num_errors(), 1);
}

#[test]
fn bad_sample_expr_2() {
    // sample {
    //     b : 1   // no comma
    //     _ : c
    // }
    let kinds: Vec<TokenKind> = vec![Sample, LBrace,
        IdentTok("b".to_string()), Colon, IntLiteral(1),
        Underscore, Colon, IdentTok("c".to_string()), 
        RBrace];
    let tokens: Vec<Token> = build_token_vec(kinds);

        let mut parser = Parser::new(tokens, Diagnostics::new());

    let result = parser.parse_expr(0);

    assert_eq!(result, None);
    assert_eq!(parser.diagnostics().num_errors(), 1);
}

#[test]
fn bad_sample_expr_3() {
    // sample {
    //     a : sample {, // No closing brace causes last } to be mistaken for the second samples closing.
    //     _ : c
    // }
    let kinds: Vec<TokenKind> = vec![Sample, LBrace,
        IdentTok("a".to_string()), Colon, Sample, LBrace, Comma,
        Underscore, Colon, IdentTok("c".to_string()), Comma,
        RBrace, Eof];
    let tokens: Vec<Token> = build_token_vec(kinds);

        let mut parser = Parser::new(tokens, Diagnostics::new());

    let result = parser.parse_expr(0);

    assert_eq!(result, None);
}

#[test]
fn bad_sample_expr_4() {
    // sample {
    //     a : sample {
    //        a b        // no fat arrow
    //     },
    //     _ : c
    // }
    let kinds: Vec<TokenKind> = vec![Sample, LBrace,
        IdentTok("a".to_string()), Colon, Sample, LBrace, 
            IdentTok("a".to_string()), IdentTok("b".to_string()),
        RBrace, Comma,
        Underscore, Colon, IdentTok("c".to_string()), Comma,
        RBrace, Eof];
    let tokens: Vec<Token> = build_token_vec(kinds);

        let mut parser = Parser::new(tokens, Diagnostics::new());

    let result = parser.parse_expr(0);

    assert_eq!(result, Some(Expr::Sample(SampleExpr {
        arms: vec![
            SampleArm {
                prob: Prob::Expr(Expr::Ident(build_ident_str("a"))),
                expr: Expr::Error,
                arm_span: Span {line: 0, col: 0},
            },
            SampleArm {
                prob: Prob::Default,
                expr: Expr::Ident(build_ident_str("c")),
                arm_span: Span {line: 0, col: 0},
            },
        ],
        expr_type: Type::Unknown,
        span: Span {line: 0, col: 0},
    })));
    assert_eq!(parser.diagnostics().num_errors(), 1);
}
