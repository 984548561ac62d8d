use expr_compiler::ast::{AbstractSyntaxTree, AstNode};
use expr_compiler::lexer::{Lexeme, Lexer};
use expr_compiler::operations::{BinaryOperationKind, UnaryOperationKind};
use expr_compiler::parser::AstParser;
use expr_compiler::tokenizer::tokenize;

fn parse(code: &str) -> AbstractSyntaxTree<String> {
    let lexemes: Vec<Lexeme<String>> = Lexer::new(tokenize(code)).run().unwrap();
    let lexemes: Vec<Lexeme<u32>> = lexemes
        .into_iter()
        .map(|l| match l {
            Lexeme::Number(n) => Lexeme::Number(n.parse::<u32>().unwrap()),
            Lexeme::Identifier(s) => Lexeme::Identifier(s),
            Lexeme::Plus => Lexeme::Plus,
            Lexeme::Minus => Lexeme::Minus,
            Lexeme::Multiply => Lexeme::Multiply,
            Lexeme::Divide => Lexeme::Divide,
            Lexeme::LeftParenthesis => Lexeme::LeftParenthesis,
            Lexeme::RightParenthesis => Lexeme::RightParenthesis,
            Lexeme::Comma => Lexeme::Comma,
            Lexeme::Not => Lexeme::Not,
            Lexeme::LeftBracket => Lexeme::LeftBracket,
            Lexeme::RightBracket => Lexeme::RightBracket,
            other => panic!("unexpected lexeme {:?}", other),
        })
        .collect();
    let tree = AstParser::new(lexemes).parse().unwrap();
    AbstractSyntaxTree::from_node(numbers_as_text(tree.peek))
}

fn numbers_as_text(n: AstNode<u32>) -> AstNode<String> {
    match n {
        AstNode::Number(v) => AstNode::Number(v.to_string()),
        AstNode::Identifier(s) => AstNode::Identifier(s),
        AstNode::StringLiteral(s) => AstNode::StringLiteral(s),
        AstNode::UnaryOperation { operation, expression } => {
            AstNode::UnaryOperation { operation, expression: Box::new(numbers_as_text(*expression)) }
        },
        AstNode::BinaryOperation { operation, left, right } => AstNode::BinaryOperation {
            operation,
            left: Box::new(numbers_as_text(*left)),
            right: Box::new(numbers_as_text(*right)),
        },
        AstNode::FunctionCall { name, arguments } => {
            AstNode::FunctionCall { name, arguments: arguments.into_iter().map(numbers_as_text).collect() }
        },
        AstNode::ArrayAccess { identifier, indices } => {
            AstNode::ArrayAccess { identifier, indices: indices.into_iter().map(numbers_as_text).collect() }
        },
    }
}

fn transformed(code: &str) -> AbstractSyntaxTree<String> {
    parse(code).transform().unwrap()
}

#[test]
fn transform_turns_subtraction_into_adding_a_negation() {
    assert_eq!(transformed("a - b"), parse("a + -b"));
    assert_eq!(transformed("a - b - c"), parse("a + -b + -c"));
}

#[test]
fn transform_cancels_double_negation() {
    assert_eq!(transformed("-(-a)"), parse("a"));
    assert_eq!(transformed("--a"), parse("a"));
}

#[test]
fn transform_pushes_negation_into_sums() {
    assert_eq!(transformed("-(a + b)"), parse("-a + -b"));
    assert_eq!(transformed("-(a - b)"), parse("-a + b"));
    assert_eq!(transformed("-(a + (b + c))"), parse("-a + (-b + -c)"));
}

#[test]
fn transform_groups_division_chains() {
    assert_eq!(transformed("a / b / c"), parse("a / (b * c)"));
    assert_eq!(transformed("a / b / c / d"), parse("a / (b * c * d)"));
    assert_eq!(transformed("a / b"), parse("a / b"));
    assert_eq!(transformed("(a - b) / c / (d - e)"), parse("(a + -b) / (c * (d + -e))"));
}

#[test]
fn transform_keeps_other_operations_and_rewrites_inside_calls() {
    assert_eq!(transformed("a * b + c"), parse("a * b + c"));
    assert_eq!(transformed("f(a - b, 2) * x[i - 1]"), parse("f(a + -b, 2) * x[i + -1]"));
    let tree = transformed("!(a - b)");
    let expected = AstNode::UnaryOperation {
        operation: UnaryOperationKind::Not,
        expression: Box::new(AstNode::BinaryOperation {
            operation: BinaryOperationKind::Plus,
            left: Box::new(AstNode::Identifier("a".to_string())),
            right: Box::new(AstNode::UnaryOperation {
                operation: UnaryOperationKind::Minus,
                expression: Box::new(AstNode::Identifier("b".to_string())),
            }),
        }),
    };
    assert_eq!(tree.peek, expected);
}
