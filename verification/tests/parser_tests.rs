use delta_lang::ast::{
    BinaryOperation, BinaryOperator, Expression, FunctionCall, FunctionDef, LetStatement,
    Program, ShowStatement, Statement, WhenStatement,
};
use delta_lang::lexer::{Lexer, Token};
use delta_lang::parser::{ParseError, Parser};

fn parse(source: &str) -> Result<Program, ParseError> {
    let tokens = Lexer::new(source).tokenize().unwrap();
    Parser::new(tokens).parse()
}

fn statements_of(source: &str) -> Vec<Statement> {
    parse(source).unwrap().statements
}

fn number(lexeme: &str) -> Expression {
    Expression::Number(lexeme.to_string())
}

fn name(identifier: &str) -> Expression {
    Expression::Identifier(identifier.to_string())
}

fn text(value: &str) -> Expression {
    Expression::String(value.to_string())
}

fn binary(left: Expression, operator: BinaryOperator, right: Expression) -> Expression {
    Expression::BinaryOp(BinaryOperation {
        left: Box::new(left),
        operator,
        right: Box::new(right),
    })
}

fn show(value: Expression) -> Statement {
    Statement::Show(ShowStatement { value })
}

#[test]
fn let_x_be_5_is_one_let_statement() {
    let program = parse("let x be 5").unwrap();
    assert_eq!(program.statements.len(), 1);
    match &program.statements[0] {
        Statement::Let(binding) => {
            assert_eq!(binding.identifier, "x");
            match &binding.value {
                Expression::Number(lexeme) => assert_eq!(lexeme.parse::<f64>(), Ok(5.0)),
                other => panic!("not a number: {:?}", other),
            }
        }
        other => panic!("not a let statement: {:?}", other),
    }
    assert_eq!(
        program,
        Program {
            statements: vec![Statement::Let(LetStatement {
                identifier: "x".to_string(),
                value: number("5"),
            })],
        }
    );
}

#[test]
fn parsing_twice_gives_equal_trees() {
    let source = "let x be 1 + 2 * 3\nwhen x is greater than 2 then\n    show x\n    otherwise\n        show \"small\"\ndefine f with a b\n    show a\nf\n";
    let tokens = Lexer::new(source).tokenize().unwrap();
    let first = Parser::new(tokens.clone()).parse();
    let second = Parser::new(tokens).parse();
    assert!(first.is_ok());
    assert_eq!(first, second);
}

#[test]
fn a_copy_of_a_tree_is_equal_to_it() {
    let source = "let x be 1 + 2 * 3\nwhen x is greater than 2 then\n    show x\n    otherwise\n        show \"small\"\ndefine f with a b\n    show a\nf\n";
    let program = parse(source).unwrap();
    let copy = program.clone();
    assert_eq!(copy, program);
    assert_eq!(copy.statements[1].clone(), program.statements[1]);
    let call = Expression::FunctionCall(FunctionCall {
        name: "f".to_string(),
        arguments: vec![number("1"), text("a"), binary(name("x"), BinaryOperator::Add, number("2"))],
    });
    assert_eq!(call.clone(), call);
    let tokens = Lexer::new(source).tokenize().unwrap();
    assert_eq!(tokens.clone(), tokens);
}

#[test]
fn parsing_twice_gives_equal_errors() {
    let tokens = Lexer::new("let x 5").tokenize().unwrap();
    let first = Parser::new(tokens.clone()).parse();
    let second = Parser::new(tokens).parse();
    assert!(first.is_err());
    assert_eq!(first, second);
}

#[test]
fn an_empty_program_has_no_statements() {
    assert_eq!(statements_of(""), vec![]);
    assert_eq!(statements_of("\n\n\n"), vec![]);
    assert_eq!(Parser::new(vec![]).parse(), Ok(Program { statements: vec![] }));
}

#[test]
fn statements_follow_one_another() {
    assert_eq!(
        statements_of("\nshow 1\n\n\nshow 2\nx\n"),
        vec![show(number("1")), show(number("2")), Statement::Expression(name("x"))]
    );
}

#[test]
fn statements_need_no_line_break_between_them() {
    assert_eq!(statements_of("show 1 show 2"), vec![show(number("1")), show(number("2"))]);
}

#[test]
fn multiplication_binds_tighter_than_addition() {
    assert_eq!(
        statements_of("show 1 + 2 * 3"),
        vec![show(binary(
            number("1"),
            BinaryOperator::Add,
            binary(number("2"), BinaryOperator::Multiply, number("3")),
        ))]
    );
    assert_eq!(
        statements_of("show 1 / 2 - 3"),
        vec![show(binary(
            binary(number("1"), BinaryOperator::Divide, number("2")),
            BinaryOperator::Subtract,
            number("3"),
        ))]
    );
}

#[test]
fn addition_binds_tighter_than_a_relation() {
    assert_eq!(
        statements_of("show a + 1 is less than b * 2"),
        vec![show(binary(
            binary(name("a"), BinaryOperator::Add, number("1")),
            BinaryOperator::LessThan,
            binary(name("b"), BinaryOperator::Multiply, number("2")),
        ))]
    );
}

#[test]
fn operators_group_from_the_left() {
    assert_eq!(
        statements_of("show 1 - 2 - 3"),
        vec![show(binary(
            binary(number("1"), BinaryOperator::Subtract, number("2")),
            BinaryOperator::Subtract,
            number("3"),
        ))]
    );
    assert_eq!(
        statements_of("show 8 / 4 * 2"),
        vec![show(binary(
            binary(number("8"), BinaryOperator::Divide, number("4")),
            BinaryOperator::Multiply,
            number("2"),
        ))]
    );
    assert_eq!(
        statements_of("show a is equal b is not equal c"),
        vec![show(binary(
            binary(name("a"), BinaryOperator::Equal, name("b")),
            BinaryOperator::NotEqual,
            name("c"),
        ))]
    );
}

#[test]
fn every_relation_has_its_operator() {
    let cases = [
        ("is greater than", BinaryOperator::GreaterThan),
        ("is less than", BinaryOperator::LessThan),
        ("is greater than or equal", BinaryOperator::GreaterThanOrEqual),
        ("is less than or equal", BinaryOperator::LessThanOrEqual),
        ("is equal", BinaryOperator::Equal),
        ("is not equal", BinaryOperator::NotEqual),
    ];
    for (phrase, operator) in cases {
        assert_eq!(
            statements_of(&format!("a {} \"b\"", phrase)),
            vec![Statement::Expression(binary(name("a"), operator, text("b")))]
        );
    }
}

#[test]
fn a_when_has_a_block() {
    assert_eq!(
        statements_of("when x then\n    show 1\n    show 2\nshow 3"),
        vec![
            Statement::When(WhenStatement {
                condition: name("x"),
                then_block: vec![show(number("1")), show(number("2"))],
                otherwise_block: None,
            }),
            show(number("3")),
        ]
    );
}

#[test]
fn a_when_may_end_with_the_text() {
    assert_eq!(
        statements_of("when x then\n    show 1"),
        vec![Statement::When(WhenStatement {
            condition: name("x"),
            then_block: vec![show(number("1"))],
            otherwise_block: None,
        })]
    );
}

#[test]
fn otherwise_in_the_block_starts_the_second_block() {
    assert_eq!(
        statements_of("when x then\n    show 1\n    otherwise\n        show 2\nshow 3"),
        vec![
            Statement::When(WhenStatement {
                condition: name("x"),
                then_block: vec![show(number("1"))],
                otherwise_block: Some(vec![show(number("2"))]),
            }),
            show(number("3")),
        ]
    );
}

#[test]
fn otherwise_under_the_when_starts_the_second_block() {
    assert_eq!(
        statements_of("when x then\n    show 1\notherwise\n    show 2\nshow 3"),
        vec![
            Statement::When(WhenStatement {
                condition: name("x"),
                then_block: vec![show(number("1"))],
                otherwise_block: Some(vec![show(number("2"))]),
            }),
            show(number("3")),
        ]
    );
}

#[test]
fn the_dedent_that_closes_the_block_does_not_hide_otherwise() {
    let tokens = vec![
        Token::When,
        Token::Number("2".to_string()),
        Token::IsLessThan,
        Token::Number("1".to_string()),
        Token::Then,
        Token::Newline,
        Token::Indent,
        Token::Show,
        Token::String("yes".to_string()),
        Token::Newline,
        Token::Dedent,
        Token::Otherwise,
        Token::Newline,
        Token::Indent,
        Token::Show,
        Token::String("no".to_string()),
        Token::Dedent,
        Token::Eof,
    ];
    assert_eq!(
        Lexer::new("when 2 is less than 1 then\n    show \"yes\"\notherwise\n    show \"no\"")
            .tokenize()
            .unwrap(),
        tokens
    );
    assert_eq!(
        Parser::new(tokens).parse(),
        Ok(Program {
            statements: vec![Statement::When(WhenStatement {
                condition: binary(number("2"), BinaryOperator::LessThan, number("1")),
                then_block: vec![show(text("yes"))],
                otherwise_block: Some(vec![show(text("no"))]),
            })],
        })
    );
}

#[test]
fn one_dedent_belongs_to_an_otherwise_under_the_when() {
    assert_eq!(
        statements_of("when a then\n  when b then\n    show 1\n  otherwise\n    show 2\n  show 3\nshow 4"),
        vec![
            Statement::When(WhenStatement {
                condition: name("a"),
                then_block: vec![
                    Statement::When(WhenStatement {
                        condition: name("b"),
                        then_block: vec![show(number("1"))],
                        otherwise_block: Some(vec![show(number("2"))]),
                    }),
                    show(number("3")),
                ],
                otherwise_block: None,
            }),
            show(number("4")),
        ]
    );
}

#[test]
fn otherwise_belongs_to_the_when_it_stands_under() {
    let inner = "when a then\n  when b then\n    show 1\n  otherwise\n    show 2";
    assert_eq!(
        statements_of(inner),
        vec![Statement::When(WhenStatement {
            condition: name("a"),
            then_block: vec![Statement::When(WhenStatement {
                condition: name("b"),
                then_block: vec![show(number("1"))],
                otherwise_block: Some(vec![show(number("2"))]),
            })],
            otherwise_block: None,
        })]
    );
    let outer = "when a then\n  when b then\n    show 1\notherwise\n  show 2";
    assert_eq!(
        statements_of(outer),
        vec![Statement::When(WhenStatement {
            condition: name("a"),
            then_block: vec![Statement::When(WhenStatement {
                condition: name("b"),
                then_block: vec![show(number("1"))],
                otherwise_block: None,
            })],
            otherwise_block: Some(vec![show(number("2"))]),
        })]
    );
}

#[test]
fn both_whens_may_have_their_otherwise() {
    let source = "when a then\n  when b then\n    show 1\n  otherwise\n    show 2\notherwise\n  show 3\nshow 4";
    assert_eq!(
        statements_of(source),
        vec![
            Statement::When(WhenStatement {
                condition: name("a"),
                then_block: vec![Statement::When(WhenStatement {
                    condition: name("b"),
                    then_block: vec![show(number("1"))],
                    otherwise_block: Some(vec![show(number("2"))]),
                })],
                otherwise_block: Some(vec![show(number("3"))]),
            }),
            show(number("4")),
        ]
    );
}

#[test]
fn a_second_otherwise_is_an_error() {
    assert_eq!(
        parse("when x then\n    show 1\notherwise\n    show 2\notherwise\n    show 3"),
        Err(ParseError::MissingExpression { found: Token::Otherwise })
    );
    assert_eq!(
        parse("otherwise\n    show 2"),
        Err(ParseError::MissingExpression { found: Token::Otherwise })
    );
}

#[test]
fn whens_nest() {
    assert_eq!(
        statements_of("when a then\n  when b then\n    show 1\n  show 2\nshow 3"),
        vec![
            Statement::When(WhenStatement {
                condition: name("a"),
                then_block: vec![
                    Statement::When(WhenStatement {
                        condition: name("b"),
                        then_block: vec![show(number("1"))],
                        otherwise_block: None,
                    }),
                    show(number("2")),
                ],
                otherwise_block: None,
            }),
            show(number("3")),
        ]
    );
}

#[test]
fn a_when_without_a_block_is_an_error() {
    assert_eq!(
        parse("when x then\nshow 1"),
        Err(ParseError::UnexpectedToken { expected: Token::Indent, found: Token::Show })
    );
    assert_eq!(
        parse("when x then"),
        Err(ParseError::UnexpectedToken { expected: Token::Indent, found: Token::Eof })
    );
}

#[test]
fn a_when_without_then_is_an_error() {
    assert_eq!(
        parse("when x\n    show 1"),
        Err(ParseError::UnexpectedToken { expected: Token::Then, found: Token::Newline })
    );
}

#[test]
fn otherwise_without_a_block_is_an_error() {
    assert_eq!(
        parse("when x then\n    show 1\n    otherwise\n    show 2"),
        Err(ParseError::UnexpectedToken { expected: Token::Indent, found: Token::Show })
    );
}

#[test]
fn a_function_has_a_name_parameters_and_a_body() {
    assert_eq!(
        statements_of("define add with a b\n    show a + b\nshow 1"),
        vec![
            Statement::FunctionDef(FunctionDef {
                name: "add".to_string(),
                parameters: vec!["a".to_string(), "b".to_string()],
                body: vec![show(binary(name("a"), BinaryOperator::Add, name("b")))],
            }),
            show(number("1")),
        ]
    );
}

#[test]
fn end_behind_the_body_is_no_part_of_the_function() {
    assert_eq!(
        parse("define f\n    show 1\nend"),
        Err(ParseError::MissingExpression { found: Token::End })
    );
}

#[test]
fn end_in_the_body_closes_a_function() {
    assert_eq!(
        Parser::new(vec![
            Token::Define,
            Token::Identifier("f".to_string()),
            Token::Newline,
            Token::Indent,
            Token::Show,
            Token::Number("1".to_string()),
            Token::Newline,
            Token::End,
            Token::Newline,
            Token::Dedent,
            Token::Eof,
        ])
        .parse(),
        Err(ParseError::MissingExpression { found: Token::Dedent })
    );
    assert_eq!(
        Parser::new(vec![
            Token::Define,
            Token::Identifier("f".to_string()),
            Token::Newline,
            Token::Indent,
            Token::Show,
            Token::Number("1".to_string()),
            Token::Newline,
            Token::End,
            Token::Show,
            Token::Number("2".to_string()),
            Token::Eof,
        ])
        .parse(),
        Ok(Program {
            statements: vec![
                Statement::FunctionDef(FunctionDef {
                    name: "f".to_string(),
                    parameters: vec![],
                    body: vec![show(number("1"))],
                }),
                show(number("2")),
            ],
        })
    );
}

#[test]
fn a_function_may_have_no_parameters() {
    assert_eq!(
        statements_of("define f\n    show 1\nshow 2"),
        vec![
            Statement::FunctionDef(FunctionDef {
                name: "f".to_string(),
                parameters: vec![],
                body: vec![show(number("1"))],
            }),
            show(number("2")),
        ]
    );
    assert_eq!(
        statements_of("define f with\n    show 1"),
        vec![Statement::FunctionDef(FunctionDef {
            name: "f".to_string(),
            parameters: vec![],
            body: vec![show(number("1"))],
        })]
    );
}

#[test]
fn a_function_without_a_name_is_an_error() {
    assert_eq!(parse("define\n    show 1"), Err(ParseError::MissingFunctionName));
    assert_eq!(parse("define 5"), Err(ParseError::MissingFunctionName));
    assert_eq!(parse("define"), Err(ParseError::MissingFunctionName));
}

#[test]
fn a_function_without_a_body_is_an_error() {
    assert_eq!(
        parse("define f with a\nshow 1"),
        Err(ParseError::UnexpectedToken { expected: Token::Indent, found: Token::Show })
    );
}

#[test]
fn let_without_a_name_is_an_error() {
    assert_eq!(parse("let 5 be 5"), Err(ParseError::MissingIdentifier));
    assert_eq!(parse("let be 5"), Err(ParseError::MissingIdentifier));
    assert_eq!(parse("let"), Err(ParseError::MissingIdentifier));
}

#[test]
fn let_without_be_is_an_error() {
    assert_eq!(
        parse("let x 5"),
        Err(ParseError::UnexpectedToken {
            expected: Token::Be,
            found: Token::Number("5".to_string()),
        })
    );
    assert_eq!(
        parse("let x"),
        Err(ParseError::UnexpectedToken { expected: Token::Be, found: Token::Eof })
    );
}

#[test]
fn a_missing_operand_is_an_error() {
    assert_eq!(parse("show"), Err(ParseError::MissingExpression { found: Token::Eof }));
    assert_eq!(parse("show 1 +"), Err(ParseError::MissingExpression { found: Token::Eof }));
    assert_eq!(
        parse("show 1 + * 2"),
        Err(ParseError::MissingExpression { found: Token::Multiply })
    );
    assert_eq!(
        parse("let x be\nshow 1"),
        Err(ParseError::MissingExpression { found: Token::Newline })
    );
    assert_eq!(
        parse("show 1 is less than then"),
        Err(ParseError::MissingExpression { found: Token::Then })
    );
}

#[test]
fn a_stray_token_is_an_error() {
    assert_eq!(parse("be"), Err(ParseError::MissingExpression { found: Token::Be }));
    assert_eq!(parse("+ 1"), Err(ParseError::MissingExpression { found: Token::Plus }));
    assert_eq!(parse("  show 1"), Ok(Program { statements: vec![show(number("1"))] }));
    assert_eq!(parse("a\n  b"), Err(ParseError::MissingExpression { found: Token::Indent }));
}

#[test]
fn tokens_behind_the_end_are_not_read() {
    assert_eq!(
        Parser::new(vec![Token::Show, Token::Number("1".to_string())]).parse(),
        Ok(Program { statements: vec![show(number("1"))] })
    );
    assert_eq!(
        Parser::new(vec![
            Token::Show,
            Token::Number("1".to_string()),
            Token::Eof,
            Token::Show,
            Token::Number("2".to_string()),
        ])
        .parse(),
        Ok(Program { statements: vec![show(number("1"))] })
    );
}

#[test]
fn parsing_again_goes_on_behind_the_cursor() {
    let mut parser = Parser::new(vec![Token::Show, Token::Number("1".to_string()), Token::Eof]);
    assert_eq!(parser.parse(), Ok(Program { statements: vec![show(number("1"))] }));
    assert_eq!(parser.parse(), Ok(Program { statements: vec![] }));
}
