use minicc::ast::{
    BinOp, Declaration, Expr, NotAnOperator, Scope, ScopeIdCounter, Statement, Type,
};
use minicc::parser::{has_main_shape, parse, ParseError};
use minicc::tokenizer::{tokenize, Token};

fn main_with(statements: Vec<Statement>, id: u32) -> Vec<Declaration> {
    vec![Declaration::Function {
        name: "main".to_string(),
        args: vec![],
        return_type: Type::Int,
        scope: Scope { id, statements },
    }]
}

fn binary(op: BinOp, left: Expr, right: Expr) -> Expr {
    Expr::BinaryOperation { op, left: Box::new(left), right: Box::new(right) }
}

fn variable(name: &str) -> Expr {
    Expr::Variable(name.to_string())
}

/// The tokens of `int main() { body }`.
fn main_tokens<'a>(body: Vec<Token<'a>>) -> Vec<Token<'a>> {
    let mut tokens = vec![
        Token::Keyword("int"),
        Token::Identifier("main"),
        Token::OpenParen,
        Token::CloseParen,
        Token::OpenBrace,
    ];
    tokens.extend(body);
    tokens.push(Token::CloseBrace);
    tokens
}

fn id(name: &str) -> Token<'_> {
    Token::Identifier(name)
}

fn op(text: &str) -> Token<'_> {
    Token::Operator(text)
}

fn num(value: u64) -> Token<'static> {
    Token::IntegerLiteral(value)
}

fn parse_text(text: &str) -> Result<Vec<Declaration>, String> {
    let tokens = tokenize(text).map_err(|e| format!("{:?}", e))?;
    assert!(has_main_shape(&tokens));
    parse(&tokens).map_err(|e| format!("{:?}", e))
}

#[test]
fn test_main() {
    let input: Vec<_> = tokenize("int main() { return 0; }").unwrap();
    let expected: Vec<Declaration> = vec![Declaration::Function {
        name: "main".to_string(),
        args: vec![],
        return_type: Type::Int,
        scope: Scope { id: 1, statements: vec![Statement::Return(Expr::IntLiteral(0))] },
    }];
    let result = parse(&input).unwrap();
    assert_eq!(result, expected);
}

#[test]
fn test_variable_declaration() {
    let z_value = "value of z".to_string();
    let tokenize_input =
        format!("int main() {{ int x; int y = x; MyType z = \"{:}\"; }}", z_value);
    let input: Vec<_> = tokenize(&tokenize_input).unwrap();
    let expected: Vec<Declaration> = vec![Declaration::Function {
        name: "main".to_string(),
        args: vec![],
        return_type: Type::Int,
        scope: Scope {
            id: 1,
            statements: vec![
                Statement::VarDeclare { name: "x".to_string(), var_type: Type::Int, value: None },
                Statement::VarDeclare {
                    name: "y".to_string(),
                    var_type: Type::Int,
                    value: Some(Expr::Variable("x".to_string())),
                },
                Statement::VarDeclare {
                    name: "z".to_string(),
                    var_type: Type::UserDefined("MyType".to_string()),
                    value: Some(Expr::StringLiteral(z_value)),
                },
            ],
        },
    }];
    let result = parse(&input).unwrap();
    assert_eq!(result, expected);
}

#[test]
fn test_if() {
    let tokenize_input = "int main() { if(x) { return 0; } return 1;}";
    let input: Vec<_> = tokenize(tokenize_input).unwrap();
    let expected: Vec<Declaration> = vec![Declaration::Function {
        name: "main".to_string(),
        args: vec![],
        return_type: Type::Int,
        scope: Scope {
            id: 2,
            statements: vec![
                Statement::If {
                    condition: Expr::Variable("x".to_string()),
                    true_block: Scope {
                        id: 1,
                        statements: vec![Statement::Return(Expr::IntLiteral(0))],
                    },
                    false_block: None,
                },
                Statement::Return(Expr::IntLiteral(1)),
            ],
        },
    }];
    let result = parse(&input).unwrap();
    assert_eq!(result, expected);
}

#[test]
fn test_if_else() {
    let tokenize_input = "int main() { if(x){ return 1; }else{ return 0; }}";
    let input: Vec<_> = tokenize(tokenize_input).unwrap();
    let expected: Vec<Declaration> = vec![Declaration::Function {
        name: "main".to_string(),
        args: vec![],
        return_type: Type::Int,
        scope: Scope {
            id: 3,
            statements: vec![Statement::If {
                condition: Expr::Variable("x".to_string()),
                true_block: Scope {
                    id: 2,
                    statements: vec![Statement::Return(Expr::IntLiteral(1))],
                },
                false_block: Some(Scope {
                    id: 1,
                    statements: vec![Statement::Return(Expr::IntLiteral(0))],
                }),
            }],
        },
    }];
    let result = parse(&input).unwrap();
    assert_eq!(result, expected);
}

#[test]
fn test_assign() {
    let tokenize_input = "int main() { x = 1; }";
    let input: Vec<_> = tokenize(tokenize_input).unwrap();
    let expected: Vec<Declaration> = vec![Declaration::Function {
        name: "main".to_string(),
        args: vec![],
        return_type: Type::Int,
        scope: Scope {
            id: 1,
            statements: vec![Statement::Expression(Expr::BinaryOperation {
                op: BinOp::Assign,
                left: Box::new(Expr::Variable("x".to_string())),
                right: Box::new(Expr::IntLiteral(1)),
            })],
        },
    }];
    let result = parse(&input).unwrap();
    assert_eq!(result, expected);
}

#[test]
fn test_precedence() {
    // int main() { x = 1 + 2 * 3; x = 1 * 2 + 3; }
    let input: Vec<_> = main_tokens(vec![
        id("x"),
        op("="),
        num(1),
        op("+"),
        num(2),
        op("*"),
        num(3),
        Token::Semicolon,
        id("x"),
        op("="),
        num(1),
        op("*"),
        num(2),
        op("+"),
        num(3),
        Token::Semicolon,
    ]);
    let expected: Vec<Declaration> = vec![Declaration::Function {
        name: "main".to_string(),
        args: vec![],
        return_type: Type::Int,
        scope: Scope {
            id: 1,
            statements: vec![
                Statement::Expression(Expr::BinaryOperation {
                    op: BinOp::Assign,
                    left: Box::new(Expr::Variable("x".to_string())),
                    right: Box::new(Expr::BinaryOperation {
                        op: BinOp::Add,
                        left: Box::new(Expr::IntLiteral(1)),
                        right: Box::new(Expr::BinaryOperation {
                            op: BinOp::Mul,
                            left: Box::new(Expr::IntLiteral(2)),
                            right: Box::new(Expr::IntLiteral(3)),
                        }),
                    }),
                }),
                Statement::Expression(Expr::BinaryOperation {
                    op: BinOp::Assign,
                    left: Box::new(Expr::Variable("x".to_string())),
                    right: Box::new(Expr::BinaryOperation {
                        op: BinOp::Add,
                        left: Box::new(Expr::BinaryOperation {
                            op: BinOp::Mul,
                            left: Box::new(Expr::IntLiteral(1)),
                            right: Box::new(Expr::IntLiteral(2)),
                        }),
                        right: Box::new(Expr::IntLiteral(3)),
                    }),
                }),
            ],
        },
    }];
    let result = parse(&input).unwrap();
    assert_eq!(result, expected);
}

#[test]
fn test_parens() {
    // int main() { x = ((1 + 2) * 3); }
    let input: Vec<_> = main_tokens(vec![
        id("x"),
        op("="),
        Token::OpenParen,
        Token::OpenParen,
        num(1),
        op("+"),
        num(2),
        Token::CloseParen,
        op("*"),
        num(3),
        Token::CloseParen,
        Token::Semicolon,
    ]);
    let expected: Vec<Declaration> = vec![Declaration::Function {
        name: "main".to_string(),
        args: vec![],
        return_type: Type::Int,
        scope: Scope {
            id: 1,
            statements: vec![Statement::Expression(Expr::BinaryOperation {
                op: BinOp::Assign,
                left: Box::new(Expr::Variable("x".to_string())),
                right: Box::new(Expr::BinaryOperation {
                    op: BinOp::Mul,
                    left: Box::new(Expr::BinaryOperation {
                        op: BinOp::Add,
                        left: Box::new(Expr::IntLiteral(1)),
                        right: Box::new(Expr::IntLiteral(2)),
                    }),
                    right: Box::new(Expr::IntLiteral(3)),
                }),
            })],
        },
    }];
    let result = parse(&input).unwrap();
    assert_eq!(result, expected);
}

#[test]
fn parse_empty_body() {
    assert_eq!(parse_text("int main() { }").unwrap(), main_with(vec![], 1));
}

#[test]
fn parse_equal_precedence_groups_to_the_left() {
    let parsed = parse_text("int main() { a - b + c - d; }").unwrap();
    let expected = binary(
        BinOp::Sub,
        binary(BinOp::Add, binary(BinOp::Sub, variable("a"), variable("b")), variable("c")),
        variable("d"),
    );
    assert_eq!(parsed, main_with(vec![Statement::Expression(expected)], 1));
}

#[test]
fn parse_all_four_precedence_levels() {
    // int main() { a = b == c + d * e; }
    let tokens = main_tokens(vec![
        id("a"),
        op("="),
        id("b"),
        op("=="),
        id("c"),
        op("+"),
        id("d"),
        op("*"),
        id("e"),
        Token::Semicolon,
    ]);
    let parsed = parse(&tokens).unwrap();
    let expected = binary(
        BinOp::Assign,
        variable("a"),
        binary(
            BinOp::Equals,
            variable("b"),
            binary(BinOp::Add, variable("c"), binary(BinOp::Mul, variable("d"), variable("e"))),
        ),
    );
    assert_eq!(parsed, main_with(vec![Statement::Expression(expected)], 1));
}

#[test]
fn parse_looser_operator_after_tighter_ones() {
    // int main() { a = b + c * d == e; }
    let tokens = main_tokens(vec![
        id("a"),
        op("="),
        id("b"),
        op("+"),
        id("c"),
        op("*"),
        id("d"),
        op("=="),
        id("e"),
        Token::Semicolon,
    ]);
    let parsed = parse(&tokens).unwrap();
    let expected = binary(
        BinOp::Assign,
        variable("a"),
        binary(
            BinOp::Equals,
            binary(BinOp::Add, variable("b"), binary(BinOp::Mul, variable("c"), variable("d"))),
            variable("e"),
        ),
    );
    assert_eq!(parsed, main_with(vec![Statement::Expression(expected)], 1));
}

#[test]
fn parse_division_token_binds_like_multiplication() {
    // The lexer makes no `/` and no `*`; the parser takes them from tokens made by hand.
    let tokens = main_tokens(vec![
        Token::Keyword("return"),
        num(8),
        op("/"),
        num(4),
        op("*"),
        num(2),
        op("-"),
        num(1),
        Token::Semicolon,
    ]);
    let parsed = parse(&tokens).unwrap();
    let expected = binary(
        BinOp::Sub,
        binary(
            BinOp::Mul,
            binary(BinOp::Div, Expr::IntLiteral(8), Expr::IntLiteral(4)),
            Expr::IntLiteral(2),
        ),
        Expr::IntLiteral(1),
    );
    assert_eq!(parsed, main_with(vec![Statement::Return(expected)], 1));
}

#[test]
fn parse_nested_scopes_are_numbered_before_their_enclosing_scope() {
    let parsed = parse_text(
        "int main() { if (a) { if (b) { } else { } } else { if (c) { } } if (d) { } }",
    )
    .unwrap();
    let empty = |id: u32| Scope { id, statements: vec![] };
    let expected = main_with(
        vec![
            Statement::If {
                condition: variable("a"),
                true_block: Scope {
                    id: 5,
                    statements: vec![Statement::If {
                        condition: variable("b"),
                        true_block: empty(2),
                        false_block: Some(empty(1)),
                    }],
                },
                false_block: Some(Scope {
                    id: 4,
                    statements: vec![Statement::If {
                        condition: variable("c"),
                        true_block: empty(3),
                        false_block: None,
                    }],
                }),
            },
            Statement::If { condition: variable("d"), true_block: empty(6), false_block: None },
        ],
        7,
    );
    assert_eq!(parsed, expected);
}

#[test]
fn parse_declaration_of_user_type_without_value() {
    let parsed = parse_text("int main() { Point p; }").unwrap();
    assert_eq!(
        parsed,
        main_with(
            vec![Statement::VarDeclare {
                name: "p".to_string(),
                var_type: Type::UserDefined("Point".to_string()),
                value: None,
            }],
            1
        )
    );
}

#[test]
fn parse_missing_semicolon_is_an_error() {
    let tokens = tokenize("int main() { return 0 }").unwrap();
    assert_eq!(
        parse(&tokens),
        Err(ParseError::Expected { expected: Token::Semicolon, found: Some(Token::CloseBrace) })
    );
}

#[test]
fn parse_missing_operand_names_the_token_and_its_position() {
    let tokens = tokenize("int main() { x = ; }").unwrap();
    assert_eq!(
        parse(&tokens),
        Err(ParseError::UnexpectedToken { found: Some(Token::Semicolon), position: 3 })
    );
}

#[test]
fn parse_missing_close_paren_is_an_error() {
    let tokens = tokenize("int main() { x = (1 + 2; }").unwrap();
    assert_eq!(
        parse(&tokens),
        Err(ParseError::Expected { expected: Token::CloseParen, found: Some(Token::Semicolon) })
    );
}

#[test]
fn parse_declaration_without_name_is_an_error() {
    let tokens = tokenize("int main() { int = 3; }").unwrap();
    assert_eq!(
        parse(&tokens),
        Err(ParseError::BadVariableName { token: Token::Operator("="), position: 2 })
    );
}

#[test]
fn parse_declaration_needs_equals_or_semicolon() {
    let tokens = tokenize("int main() { int x 3; }").unwrap();
    assert_eq!(
        parse(&tokens),
        Err(ParseError::Expected {
            expected: Token::Operator("="),
            found: Some(Token::IntegerLiteral(3))
        })
    );
}

#[test]
fn parse_unclosed_block_ends_the_input() {
    let tokens = tokenize("int main() { if (x) { }").unwrap();
    assert!(has_main_shape(&tokens));
    assert_eq!(parse(&tokens), Err(ParseError::EndOfInput));
}

#[test]
fn parse_body_must_open_with_a_brace() {
    let tokens = tokenize("int main() return 0; }").unwrap();
    assert!(has_main_shape(&tokens));
    assert_eq!(
        parse(&tokens),
        Err(ParseError::Expected {
            expected: Token::OpenBrace,
            found: Some(Token::Keyword("return"))
        })
    );
}

#[test]
fn parse_if_needs_a_parenthesized_condition() {
    let tokens = tokenize("int main() { if x { } }").unwrap();
    assert_eq!(
        parse(&tokens),
        Err(ParseError::Expected { expected: Token::OpenParen, found: Some(Token::Identifier("x")) })
    );
}

#[test]
fn has_main_shape_rejects_other_outlines() {
    assert!(!has_main_shape(&tokenize("").unwrap()));
    assert!(!has_main_shape(&tokenize("int main()").unwrap()));
    assert!(!has_main_shape(&tokenize("int start() { }").unwrap()));
    assert!(!has_main_shape(&tokenize("void main() { }").unwrap()));
    assert!(!has_main_shape(&tokenize("int main() { ;").unwrap()));
    assert!(has_main_shape(&tokenize("int main() }").unwrap()));
}

#[test]
fn binop_from_token_knows_every_operator() {
    assert_eq!(BinOp::from_token(&Token::Operator("+")), Ok(BinOp::Add));
    assert_eq!(BinOp::from_token(&Token::Operator("-")), Ok(BinOp::Sub));
    assert_eq!(BinOp::from_token(&Token::Operator("*")), Ok(BinOp::Mul));
    assert_eq!(BinOp::from_token(&Token::Operator("/")), Ok(BinOp::Div));
    assert_eq!(BinOp::from_token(&Token::Operator("=")), Ok(BinOp::Assign));
    assert_eq!(BinOp::from_token(&Token::Operator("==")), Ok(BinOp::Equals));
    assert_eq!(
        BinOp::from_token(&Token::Operator("===")),
        Err(NotAnOperator { token: Token::Operator("===") })
    );
    assert_eq!(
        BinOp::from_token(&Token::Identifier("+")),
        Err(NotAnOperator { token: Token::Identifier("+") })
    );
    assert_eq!(BinOp::from_token(&Token::Semicolon), Err(NotAnOperator { token: Token::Semicolon }));
    assert_eq!(
        BinOp::from_token(&Token::Identifier("x")).unwrap_err().message(),
        "Cannot construct BinOp from x"
    );
    assert_eq!(
        NotAnOperator { token: Token::StringLiteral("+") }.message(),
        "Cannot construct BinOp from \"+\""
    );
}

#[test]
fn binop_precedence_values() {
    assert_eq!(BinOp::Assign.precedence(), 10);
    assert_eq!(BinOp::Equals.precedence(), 20);
    assert_eq!(BinOp::Add.precedence(), 30);
    assert_eq!(BinOp::Sub.precedence(), 30);
    assert_eq!(BinOp::Mul.precedence(), 40);
    assert_eq!(BinOp::Div.precedence(), 40);
}

#[test]
fn scope_from_statements_takes_the_next_identifier() {
    let mut counter = ScopeIdCounter { counter: 41 };
    let first = Scope::from_statements(vec![Statement::Return(Expr::IntLiteral(1))], &mut counter);
    assert_eq!(first, Scope { id: 42, statements: vec![Statement::Return(Expr::IntLiteral(1))] });
    let second = Scope::from_statements(vec![], &mut counter);
    assert_eq!(second.id, 43);
    assert_eq!(counter.counter, 43);
}

#[test]
fn token_same_as_compares_kind_and_text() {
    assert!(Token::Identifier("x").same_as(&Token::Identifier("x")));
    assert!(!Token::Identifier("x").same_as(&Token::Identifier("y")));
    assert!(!Token::Identifier("x").same_as(&Token::Keyword("x")));
    assert!(Token::IntegerLiteral(3).same_as(&Token::IntegerLiteral(3)));
    assert!(!Token::IntegerLiteral(3).same_as(&Token::IntegerLiteral(4)));
    assert!(Token::OpenBrace.same_as(&Token::OpenBrace));
    assert!(!Token::OpenBrace.same_as(&Token::CloseBrace));
}

#[test]
fn parse_type_keywords_made_by_hand() {
    // The lexer knows no keyword `char`, but the parser takes one.
    let tokens = vec![
        Token::Keyword("int"),
        Token::Identifier("main"),
        Token::OpenParen,
        Token::CloseParen,
        Token::OpenBrace,
        Token::Keyword("char"),
        Token::Identifier("c"),
        Token::Semicolon,
        Token::CloseBrace,
    ];
    assert_eq!(
        parse(&tokens).unwrap(),
        main_with(
            vec![Statement::VarDeclare {
                name: "c".to_string(),
                var_type: Type::Char,
                value: None
            }],
            1
        )
    );
}

#[test]
fn parse_token_after_the_body_is_an_error() {
    let tokens = tokenize("int main() { return 0; } }").unwrap();
    assert!(has_main_shape(&tokens));
    assert_eq!(
        parse(&tokens),
        Err(ParseError::UnexpectedToken { found: Some(Token::CloseBrace), position: 5 })
    );
    let tokens = tokenize("int main() { } int x; }").unwrap();
    assert!(has_main_shape(&tokens));
    assert_eq!(
        parse(&tokens),
        Err(ParseError::UnexpectedToken { found: Some(Token::Keyword("int")), position: 2 })
    );
}

#[test]
fn parse_source_with_star_does_not_lex() {
    assert!(tokenize("int main() { x = 1 + 2 * 3; }").is_err());
}
