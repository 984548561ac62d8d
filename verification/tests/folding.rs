use expr_compiler::ast::{AbstractSyntaxTree, AstNode};
use expr_compiler::lexer::{Lexeme, Lexer};
use expr_compiler::operations::BinaryOperationKind;
use expr_compiler::parser::AstParser;
use expr_compiler::tokenizer::tokenize;

fn parse(code: &str) -> AbstractSyntaxTree<String> {
    let lexemes: Vec<Lexeme<String>> = Lexer::new(tokenize(code)).run().unwrap();
    let lexemes: Vec<Lexeme<u64>> = lexemes
        .into_iter()
        .map(|l| match l {
            Lexeme::Number(n) => Lexeme::Number(n.parse::<u64>().unwrap()),
            Lexeme::Identifier(s) => Lexeme::Identifier(s),
            Lexeme::String(s) => Lexeme::String(s),
            Lexeme::Plus => Lexeme::Plus,
            Lexeme::Minus => Lexeme::Minus,
            Lexeme::Multiply => Lexeme::Multiply,
            Lexeme::Divide => Lexeme::Divide,
            Lexeme::Modulus => Lexeme::Modulus,
            Lexeme::LeftParenthesis => Lexeme::LeftParenthesis,
            Lexeme::RightParenthesis => Lexeme::RightParenthesis,
            Lexeme::LeftBracket => Lexeme::LeftBracket,
            Lexeme::RightBracket => Lexeme::RightBracket,
            Lexeme::Not => Lexeme::Not,
            Lexeme::And => Lexeme::And,
            Lexeme::Or => Lexeme::Or,
            Lexeme::Comma => Lexeme::Comma,
        })
        .collect();
    let tree = AstParser::new(lexemes).parse().unwrap();
    AbstractSyntaxTree::from_node(numbers_as_text(tree.peek))
}

fn numbers_as_text(n: AstNode<u64>) -> AstNode<String> {
    match n {
        AstNode::Number(v) => AstNode::Number(v.to_string()),
        AstNode::Identifier(s) => AstNode::Identifier(s),
        AstNode::StringLiteral(s) => AstNode::StringLiteral(s),
        AstNode::UnaryOperation { operation, expression } => {
            AstNode::UnaryOperation { operation, expression: Box::new(numbers_as_text(*expression)) }
        },
        AstNode::BinaryOperation { operation, left, right } => AstNode::BinaryOperation {
            operation,
            left: Box::new(numbers_as_text(*left)),
            right: Box::new(numbers_as_text(*right)),
        },
        AstNode::FunctionCall { name, arguments } => {
            AstNode::FunctionCall { name, arguments: arguments.into_iter().map(numbers_as_text).collect() }
        },
        AstNode::ArrayAccess { identifier, indices } => {
            AstNode::ArrayAccess { identifier, indices: indices.into_iter().map(numbers_as_text).collect() }
        },
    }
}

fn folded(code: &str) -> AbstractSyntaxTree<String> {
    parse(code).fold().unwrap()
}

fn number(text: &str) -> Box<AstNode<String>> {
    Box::new(AstNode::Number(text.to_string()))
}

fn name(text: &str) -> Box<AstNode<String>> {
    Box::new(AstNode::Identifier(text.to_string()))
}

fn operation(operation: BinaryOperationKind, left: Box<AstNode<String>>, right: Box<AstNode<String>>) -> AstNode<String> {
    AstNode::BinaryOperation { operation, left, right }
}

#[test]
fn folding_turns_an_added_negation_into_a_subtraction() {
    assert_eq!(folded("a + -b"), parse("a - b"));
    assert_eq!(folded("a + -(b * c)"), parse("a - b * c"));
    assert_eq!(folded("(a + -b) + -c"), parse("a - b - c"));
}

#[test]
fn folding_turns_an_added_negative_number_into_a_subtraction() {
    let tree = AbstractSyntaxTree::from_node(operation(BinaryOperationKind::Plus, name("a"), number("-2.5")));
    let expected = AbstractSyntaxTree::from_node(operation(BinaryOperationKind::Minus, name("a"), number("2.5")));
    assert_eq!(tree.fold().unwrap(), expected);
}

#[test]
fn folding_keeps_an_added_positive_number() {
    assert_eq!(folded("a + 2"), parse("a + 2"));
}

#[test]
fn folding_turns_a_product_with_a_unit_fraction_into_a_quotient() {
    assert_eq!(folded("a * (1 / b)"), parse("a / b"));
    let minus_one = operation(BinaryOperationKind::Divide, number("-1"), name("b"));
    let tree = AbstractSyntaxTree::from_node(operation(BinaryOperationKind::Multiply, name("a"), Box::new(minus_one)));
    assert_eq!(tree.fold().unwrap(), parse("-(a / b)"));
}

#[test]
fn folding_keeps_a_product_with_another_fraction() {
    assert_eq!(folded("a * (2 / b)"), parse("a * (2 / b)"));
    assert_eq!(folded("a * (c / b)"), parse("a * (c / b)"));
    assert_eq!(folded("a * (10 / b)"), parse("a * (10 / b)"));
}

#[test]
fn folding_reaches_inside_calls_and_indices() {
    assert_eq!(folded("f(a + -b, c * (1 / d))"), parse("f(a - b, c / d)"));
    assert_eq!(folded("m[i + -1]"), parse("m[i - 1]"));
    assert_eq!(folded("!(a + -b)"), parse("!(a - b)"));
}

#[test]
fn folding_undoes_the_rewriting_of_subtractions() {
    let rewritten = parse("a - b - c").transform().unwrap();
    assert_eq!(rewritten.fold().unwrap(), parse("a - b - c"));
}
