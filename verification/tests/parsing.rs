use monkey::ast::{Expression, Ident, Infix, Literals, Prefix, Statement};
use monkey::lexer::Lexer;
use monkey::parser::Parser;
use monkey::token::Token;

fn parse(src: &str) -> Vec<Statement> {
    let lexer = Lexer::new(src.to_string());
    let mut parser = Parser::new(lexer);
    parser.parse_program()
}

#[test]
fn lexer() {
    let input = "var x = 10\n var y = true\n var z = -19 + 29\n var a = 10 < 20";
    let lexer = Lexer::new(input.to_string());
    let mut parser = Parser::new(lexer);
    let stmts = parser.parse_program();
    let res = vec![
        Statement::Var(
            Ident {
                literal: "x".to_string(),
            },
            Expression::Literal(Literals::Int(10)),
        ),
        Statement::Var(
            Ident {
                literal: "y".to_string(),
            },
            Expression::Literal(Literals::Bool(true)),
        ),
        Statement::Var(
            Ident {
                literal: "z".to_string(),
            },
            Expression::Infix(
                Infix::Plus,
                Box::new(Expression::Prefix(
                    Prefix::Minus,
                    Box::new(Expression::Literal(Literals::Int(19))),
                )),
                Box::new(Expression::Literal(Literals::Int(29))),
            ),
        ),
        Statement::Var(
            Ident {
                literal: "a".to_string(),
            },
            Expression::Infix(
                Infix::LT,
                Box::new(Expression::Literal(Literals::Int(10))),
                Box::new(Expression::Literal(Literals::Int(20))),
            ),
        ),
    ];

    for i in 0..stmts.len() {
        assert_eq!(stmts[i], res[i]);
    }
}

#[test]
fn lexer_single_tokens() {
    let mut lx = Lexer::new("= + - * / > < \n ( ) { } , [ ] == != ! ?".to_string());
    let expected = vec![
        Token::Assign,
        Token::Plus,
        Token::Minus,
        Token::Star,
        Token::Slash,
        Token::GT,
        Token::LT,
        Token::NewLine,
        Token::LPAREN,
        Token::RPAREN,
        Token::LBRACE,
        Token::RBRACE,
        Token::Comma,
        Token::LBRACKET,
        Token::RBRACKET,
        Token::EQ,
        Token::NotEQ,
        Token::Illegal,
        Token::Illegal,
        Token::EOF,
    ];
    for t in expected {
        assert_eq!(lx.next_token(), t);
    }
}

#[test]
fn lexer_keywords_idents_and_literals() {
    let mut lx = Lexer::new("func var return if else true false count 42 \"hi there\"".to_string());
    let expected = vec![
        Token::Func,
        Token::Var,
        Token::Return,
        Token::If,
        Token::Else,
        Token::Bool(true),
        Token::Bool(false),
        Token::Ident("count".to_string()),
        Token::Int(42),
        Token::String("hi there".to_string()),
        Token::EOF,
    ];
    for t in expected {
        assert_eq!(lx.next_token(), t);
    }
}

#[test]
fn lexer_oversized_number_is_illegal() {
    let mut lx = Lexer::new("99999999999999999999".to_string());
    assert_eq!(lx.next_token(), Token::Illegal);
    assert_eq!(lx.next_token(), Token::EOF);
}

#[test]
fn lexer_unterminated_string_stops_at_end() {
    let mut lx = Lexer::new("\"abc".to_string());
    assert_eq!(lx.next_token(), Token::String("abc".to_string()));
    assert_eq!(lx.next_token(), Token::EOF);
}

#[test]
fn precedence_ladder_and_left_association() {
    // -19 * 2 + 39 * 3 parses as (((-19) * 2) + (39 * 3))
    let stmts = parse("-19 * 2 + 39 * 3");
    let expected = Statement::ExpressionStmt(Expression::Infix(
        Infix::Plus,
        Box::new(Expression::Infix(
            Infix::Star,
            Box::new(Expression::Prefix(
                Prefix::Minus,
                Box::new(Expression::Literal(Literals::Int(19))),
            )),
            Box::new(Expression::Literal(Literals::Int(2))),
        )),
        Box::new(Expression::Infix(
            Infix::Star,
            Box::new(Expression::Literal(Literals::Int(39))),
            Box::new(Expression::Literal(Literals::Int(3))),
        )),
    ));
    assert_eq!(stmts, vec![expected]);
}

#[test]
fn equal_precedence_associates_left() {
    // 10 - 2 - 3 parses as ((10 - 2) - 3)
    let stmts = parse("10 - 2 - 3");
    let expected = Statement::ExpressionStmt(Expression::Infix(
        Infix::Minus,
        Box::new(Expression::Infix(
            Infix::Minus,
            Box::new(Expression::Literal(Literals::Int(10))),
            Box::new(Expression::Literal(Literals::Int(2))),
        )),
        Box::new(Expression::Literal(Literals::Int(3))),
    ));
    assert_eq!(stmts, vec![expected]);
}

#[test]
fn comparison_binds_weaker_than_sum() {
    // 1 + 2 < 4 parses as ((1 + 2) < 4)
    let stmts = parse("1 + 2 < 4");
    let expected = Statement::ExpressionStmt(Expression::Infix(
        Infix::LT,
        Box::new(Expression::Infix(
            Infix::Plus,
            Box::new(Expression::Literal(Literals::Int(1))),
            Box::new(Expression::Literal(Literals::Int(2))),
        )),
        Box::new(Expression::Literal(Literals::Int(4))),
    ));
    assert_eq!(stmts, vec![expected]);
}

#[test]
fn parse_function_literal_and_call() {
    let stmts = parse("var add = func(a, b) { return a + b }");
    let expected = Statement::Var(
        Ident {
            literal: "add".to_string(),
        },
        Expression::Function(
            vec![
                Ident {
                    literal: "a".to_string(),
                },
                Ident {
                    literal: "b".to_string(),
                },
            ],
            vec![Statement::Return(Expression::Infix(
                Infix::Plus,
                Box::new(Expression::Ident(Ident {
                    literal: "a".to_string(),
                })),
                Box::new(Expression::Ident(Ident {
                    literal: "b".to_string(),
                })),
            ))],
        ),
    );
    assert_eq!(stmts, vec![expected]);

    let call = parse("add(2, 3)");
    let expected_call = Statement::ExpressionStmt(Expression::FunctionCall(
        vec![
            Expression::Literal(Literals::Int(2)),
            Expression::Literal(Literals::Int(3)),
        ],
        Box::new(Expression::Ident(Ident {
            literal: "add".to_string(),
        })),
    ));
    assert_eq!(call, vec![expected_call]);
}

#[test]
fn parse_array_literal_and_index() {
    let stmts = parse("[1, 2, 3]");
    let expected = Statement::ExpressionStmt(Expression::Literal(Literals::Arr(vec![
        Expression::Literal(Literals::Int(1)),
        Expression::Literal(Literals::Int(2)),
        Expression::Literal(Literals::Int(3)),
    ])));
    assert_eq!(stmts, vec![expected]);

    let ix = parse("f[1]");
    let expected_ix = Statement::ExpressionStmt(Expression::Index(
        Box::new(Expression::Ident(Ident {
            literal: "f".to_string(),
        })),
        Box::new(Expression::Literal(Literals::Int(1))),
    ));
    assert_eq!(ix, vec![expected_ix]);
}

#[test]
fn parse_if_else() {
    let stmts = parse("if (x > 1) { 1 } else { 2 }");
    let expected = Statement::ExpressionStmt(Expression::If(
        Box::new(Expression::Infix(
            Infix::GT,
            Box::new(Expression::Ident(Ident {
                literal: "x".to_string(),
            })),
            Box::new(Expression::Literal(Literals::Int(1))),
        )),
        vec![Statement::ExpressionStmt(Expression::Literal(
            Literals::Int(1),
        ))],
        Some(vec![Statement::ExpressionStmt(Expression::Literal(
            Literals::Int(2),
        ))]),
    ));
    assert_eq!(stmts, vec![expected]);
}

#[test]
fn malformed_binding_degrades_to_absence() {
    let stmts = parse("var = 10");
    assert_eq!(stmts[0], Statement::Nothing);
}

#[test]
fn expression_text_shows_grouping() {
    let stmts = parse("-19 * 2 + 39 * 3");
    match &stmts[0] {
        Statement::ExpressionStmt(e) => {
            assert_eq!(e.text(), "(((-19)*2)+(39*3))");
        }
        other => panic!("unexpected statement {:?}", other),
    }
}

#[test]
fn statement_text_shows_binding() {
    let stmts = parse("var x = 10");
    assert_eq!(stmts[0].text(), "var x = 10");
}

#[test]
fn literal_text_joins_array_elements() {
    let stmts = parse("[1, 2, 3]");
    match &stmts[0] {
        Statement::ExpressionStmt(e) => {
            assert_eq!(e.text(), "1, 2, 3");
        }
        other => panic!("unexpected statement {:?}", other),
    }
}
