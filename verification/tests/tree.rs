use expr_compiler::ast::{AbstractSyntaxTree, AstError, AstNode};
use expr_compiler::lexer::{Lexeme, Lexer};
use expr_compiler::operations::{BinaryOperationKind, UnaryOperationKind};
use expr_compiler::parser::AstParser;
use expr_compiler::tokenizer::tokenize;

fn with_floats(lexemes: Vec<Lexeme<String>>) -> Vec<Lexeme<f64>> {
    lexemes
        .into_iter()
        .map(|l| match l {
            Lexeme::Identifier(s) => Lexeme::Identifier(s),
            Lexeme::Number(n) => Lexeme::Number(n.parse::<f64>().unwrap()),
            Lexeme::Plus => Lexeme::Plus,
            Lexeme::Minus => Lexeme::Minus,
            Lexeme::Multiply => Lexeme::Multiply,
            Lexeme::Divide => Lexeme::Divide,
            Lexeme::Modulus => Lexeme::Modulus,
            Lexeme::LeftParenthesis => Lexeme::LeftParenthesis,
            Lexeme::RightParenthesis => Lexeme::RightParenthesis,
            Lexeme::LeftBracket => Lexeme::LeftBracket,
            Lexeme::RightBracket => Lexeme::RightBracket,
            Lexeme::Not => Lexeme::Not,
            Lexeme::And => Lexeme::And,
            Lexeme::Or => Lexeme::Or,
            Lexeme::Comma => Lexeme::Comma,
            Lexeme::String(s) => Lexeme::String(s),
        })
        .collect()
}

fn process(code: &str) -> AbstractSyntaxTree<f64> {
    let tokens = tokenize(code);
    let lexemes = Lexer::new(tokens).run();
    assert!(lexemes.is_ok());
    let lexemes = with_floats(lexemes.unwrap());
    let result = AstParser::new(lexemes).parse();
    assert!(result.is_ok());
    result.unwrap_or_else(|_| panic!())
}

#[test]
fn tree_test_1() {
    let code = "a + b * c";
    let actual_ast = process(code);
    let expected_ast = AstNode::BinaryOperation {
        operation: BinaryOperationKind::Plus,
        left: Box::new(AstNode::Identifier("a".to_string())),
        right: Box::new(AstNode::BinaryOperation {
            operation: BinaryOperationKind::Multiply,
            left: Box::new(AstNode::Identifier("b".to_string())),
            right: Box::new(AstNode::Identifier("c".to_string())),
        }),
    };
    assert_eq!(AbstractSyntaxTree::from_node(expected_ast), actual_ast);
}

#[test]
fn tree_test_2() {
    let code = "a + b * func(a, (b - c) * !d)";
    let actual_ast = process(code);
    let expected_ast = AstNode::BinaryOperation {
        operation: BinaryOperationKind::Plus,
        left: Box::new(AstNode::Identifier("a".to_string())),
        right: Box::new(AstNode::BinaryOperation {
            operation: BinaryOperationKind::Multiply,
            left: Box::new(AstNode::Identifier("b".to_string())),
            right: Box::new(AstNode::FunctionCall {
                name: "func".to_string(),
                arguments: vec![
                    AstNode::Identifier("a".to_string()),
                    AstNode::BinaryOperation {
                        operation: BinaryOperationKind::Multiply,
                        left: Box::new(AstNode::BinaryOperation {
                            operation: BinaryOperationKind::Minus,
                            left: Box::new(AstNode::Identifier("b".to_string())),
                            right: Box::new(AstNode::Identifier("c".to_string())),
                        }),
                        right: Box::new(AstNode::UnaryOperation {
                            operation: UnaryOperationKind::Not,
                            expression: Box::new(AstNode::Identifier(
                                "d".to_string(),
                            )),
                        }),
                    },
                ],
            }),
        }),
    };
    assert_eq!(AbstractSyntaxTree::from_node(expected_ast), actual_ast);
}

#[test]
fn tree_test_3() {
    let code = "a + b * c + \"hello\"";
    let tokens = tokenize(code);
    let lexemes = Lexer::new(tokens).run();
    assert!(lexemes.is_ok());
    let lexemes = with_floats(lexemes.unwrap());
    let result = AstParser::new(lexemes).parse();
    let actual_error = Err(AstError::StringOutsideFunction("hello".to_string()));
    assert_eq!(actual_error, result);
}

#[test]
fn tree_test_4() {
    let code = "a + b * func(a, \"hello\", (b - c) * !d)";
    let actual_ast = process(code);
    let expected_ast = AstNode::BinaryOperation {
        operation: BinaryOperationKind::Plus,
        left: Box::new(AstNode::Identifier("a".to_string())),
        right: Box::new(AstNode::BinaryOperation {
            operation: BinaryOperationKind::Multiply,
            left: Box::new(AstNode::Identifier("b".to_string())),
            right: Box::new(AstNode::FunctionCall {
                name: "func".to_string(),
                arguments: vec![
                    AstNode::Identifier("a".to_string()),
                    AstNode::StringLiteral("hello".to_string()),
                    AstNode::BinaryOperation {
                        operation: BinaryOperationKind::Multiply,
                        left: Box::new(AstNode::BinaryOperation {
                            operation: BinaryOperationKind::Minus,
                            left: Box::new(AstNode::Identifier("b".to_string())),
                            right: Box::new(AstNode::Identifier("c".to_string())),
                        }),
                        right: Box::new(AstNode::UnaryOperation {
                            operation: UnaryOperationKind::Not,
                            expression: Box::new(AstNode::Identifier(
                                "d".to_string(),
                            )),
                        }),
                    },
                ],
            }),
        }),
    };
    assert_eq!(AbstractSyntaxTree::from_node(expected_ast), actual_ast);
}

#[test]
fn tree_test_5() {
    let code = "a + b * func(a, (b - c) * !d, \"hello\")";
    let actual_ast = process(code);
    let expected_ast = AstNode::BinaryOperation {
        operation: BinaryOperationKind::Plus,
        left: Box::new(AstNode::Identifier("a".to_string())),
        right: Box::new(AstNode::BinaryOperation {
            operation: BinaryOperationKind::Multiply,
            left: Box::new(AstNode::Identifier("b".to_string())),
            right: Box::new(AstNode::FunctionCall {
                name: "func".to_string(),
                arguments: vec![
                    AstNode::Identifier("a".to_string()),
                    AstNode::BinaryOperation {
                        operation: BinaryOperationKind::Multiply,
                        left: Box::new(AstNode::BinaryOperation {
                            operation: BinaryOperationKind::Minus,
                            left: Box::new(AstNode::Identifier("b".to_string())),
                            right: Box::new(AstNode::Identifier("c".to_string())),
                        }),
                        right: Box::new(AstNode::UnaryOperation {
                            operation: UnaryOperationKind::Not,
                            expression: Box::new(AstNode::Identifier(
                                "d".to_string(),
                            )),
                        }),
                    },
                    AstNode::StringLiteral("hello".to_string()),
                ],
            }),
        }),
    };
    assert_eq!(AbstractSyntaxTree::from_node(expected_ast), actual_ast);
}

#[test]
fn tree_test_6() {
    let code = "a + b * c + a[5] * sdsf[10 * 32 / 2]";
    let actual_ast = process(code);
    let expected_ast = AstNode::BinaryOperation {
        operation: BinaryOperationKind::Plus,
        left: Box::new(AstNode::BinaryOperation {
            operation: BinaryOperationKind::Plus,
            left: Box::new(AstNode::Identifier("a".to_string())),
            right: Box::new(AstNode::BinaryOperation {
                operation: BinaryOperationKind::Multiply,
                left: Box::new(AstNode::Identifier("b".to_string())),
                right: Box::new(AstNode::Identifier("c".to_string())),
            }),
        }),
        right: Box::new(AstNode::BinaryOperation {
            operation: BinaryOperationKind::Multiply,
            left: Box::new(AstNode::ArrayAccess {
                identifier: "a".to_string(),
                indices: vec![AstNode::Number(5.0)],
            }),
            right: Box::new(AstNode::ArrayAccess {
                identifier: "sdsf".to_string(),
                indices: vec![AstNode::BinaryOperation {
                    operation: BinaryOperationKind::Divide,
                    left: Box::new(AstNode::BinaryOperation {
                        operation: BinaryOperationKind::Multiply,
                        left: Box::new(AstNode::Number(10.0)),
                        right: Box::new(AstNode::Number(32.0)),
                    }),
                    right: Box::new(AstNode::Number(2.0)),
                }],
            }),
        }),
    };
    assert_eq!(AbstractSyntaxTree::from_node(expected_ast), actual_ast);
}

#[test]
fn tree_test_7() {
    let code = "a + b * c + a[5] * sdsf[10 * 32 / 2][5 - 3 * c] * s";
    let actual_ast = process(code);
    let expected_ast = AstNode::BinaryOperation {
        operation: BinaryOperationKind::Plus,
        left: Box::new(AstNode::BinaryOperation {
            operation: BinaryOperationKind::Plus,
            left: Box::new(AstNode::Identifier("a".to_string())),
            right: Box::new(AstNode::BinaryOperation {
                operation: BinaryOperationKind::Multiply,
                left: Box::new(AstNode::Identifier("b".to_string())),
                right: Box::new(AstNode::Identifier("c".to_string())),
            }),
        }),
        right: Box::new(AstNode::BinaryOperation {
            operation: BinaryOperationKind::Multiply,
            left: Box::new(AstNode::BinaryOperation {
                operation: BinaryOperationKind::Multiply,
                left: Box::new(AstNode::ArrayAccess {
                    identifier: "a".to_string(),
                    indices: vec![AstNode::Number(5.0)],
                }),
                right: Box::new(AstNode::ArrayAccess {
                    identifier: "sdsf".to_string(),
                    indices: vec![
                        AstNode::BinaryOperation {
                            operation: BinaryOperationKind::Divide,
                            left: Box::new(AstNode::BinaryOperation {
                                operation: BinaryOperationKind::Multiply,
                                left: Box::new(AstNode::Number(10.0)),
                                right: Box::new(AstNode::Number(32.0)),
                            }),
                            right: Box::new(AstNode::Number(2.0)),
                        },
                        AstNode::BinaryOperation {
                            operation: BinaryOperationKind::Minus,
                            left: Box::new(AstNode::Number(5.0)),
                            right: Box::new(AstNode::BinaryOperation {
                                operation: BinaryOperationKind::Multiply,
                                left: Box::new(AstNode::Number(3.0)),
                                right: Box::new(AstNode::Identifier("c".to_string())),
                            }),
                        },
                    ],
                }),
            }),
            right: Box::new(AstNode::Identifier("s".to_string())),
        }),
    };
    assert_eq!(AbstractSyntaxTree::from_node(expected_ast), actual_ast);
}

#[test]
fn tree_reports_leftover_lexemes() {
    let lexemes = with_floats(Lexer::new(tokenize("a b")).run().unwrap());
    let result = AstParser::new(lexemes).parse();
    assert_eq!(result, Err(AstError::NotExpectedLexeme(Lexeme::Identifier("b".to_string()))));
}

#[test]
fn tree_reports_missing_right_parenthesis() {
    let lexemes = with_floats(Lexer::new(tokenize("(a + b")).run().unwrap());
    assert_eq!(AstParser::new(lexemes).parse(), Err(AstError::ExpectedRightParenthesis));
}

#[test]
fn tree_reports_bad_argument_separator() {
    let lexemes = with_floats(Lexer::new(tokenize("f(a b)")).run().unwrap());
    assert_eq!(
        AstParser::new(lexemes).parse(),
        Err(AstError::ExpectedCommaOrRightParenthesis(Lexeme::Identifier("b".to_string())))
    );
    let lexemes = with_floats(Lexer::new(tokenize("f(a, b")).run().unwrap());
    assert_eq!(AstParser::new(lexemes).parse(), Err(AstError::NotExpectedEndOfExpression));
}

#[test]
fn tree_reports_missing_right_bracket() {
    let lexemes = with_floats(Lexer::new(tokenize("a[1")).run().unwrap());
    assert_eq!(AstParser::new(lexemes).parse(), Err(AstError::ExpectedRightBracket));
}

#[test]
fn tree_reports_unexpected_lexeme_and_end() {
    let lexemes = with_floats(Lexer::new(tokenize("a + )")).run().unwrap());
    assert_eq!(AstParser::new(lexemes).parse(), Err(AstError::NotExpectedLexeme(Lexeme::RightParenthesis)));
    let lexemes = with_floats(Lexer::new(tokenize("a +")).run().unwrap());
    assert_eq!(AstParser::new(lexemes).parse(), Err(AstError::NotExpectedEndOfExpression));
}

#[test]
fn tree_parses_empty_call_and_logic() {
    let lexemes = with_floats(Lexer::new(tokenize("f() | !a & b")).run().unwrap());
    let tree = AstParser::new(lexemes).parse().unwrap();
    let expected = AstNode::BinaryOperation {
        operation: BinaryOperationKind::Or,
        left: Box::new(AstNode::FunctionCall { name: "f".to_string(), arguments: vec![] }),
        right: Box::new(AstNode::BinaryOperation {
            operation: BinaryOperationKind::And,
            left: Box::new(AstNode::UnaryOperation {
                operation: UnaryOperationKind::Not,
                expression: Box::new(AstNode::Identifier("a".to_string())),
            }),
            right: Box::new(AstNode::Identifier("b".to_string())),
        }),
    };
    assert_eq!(tree, AbstractSyntaxTree::from_node(expected));
}

#[test]
fn tree_error_messages() {
    let e: AstError<f64> = AstError::ExpectedCommaOrRightParenthesis(Lexeme::RightBracket);
    assert_eq!(e.message(), "Expected ',' or ')', but found \"Right Bracket\".");
    let e: AstError<f64> = AstError::StringOutsideFunction("hi".to_string());
    assert_eq!(e.message(), "String literal \"hi\" outside function call.");
    let e: AstError<f64> = AstError::NotExpectedEndOfExpression;
    assert_eq!(e.message(), "Not expected end of expression.");
}
