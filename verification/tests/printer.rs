use expr_compiler::ast::{AbstractSyntaxTree, AstNode};
use expr_compiler::lexer::{Lexeme, Lexer};
use expr_compiler::parser::AstParser;
use expr_compiler::tokenizer::tokenize;

fn parse(code: &str) -> AbstractSyntaxTree<String> {
    let lexemes: Vec<Lexeme<String>> = Lexer::new(tokenize(code)).run().unwrap();
    let lexemes: Vec<Lexeme<u64>> = lexemes
        .into_iter()
        .map(|l| match l {
            Lexeme::Number(n) => Lexeme::Number(n.parse::<u64>().unwrap()),
            Lexeme::Identifier(s) => Lexeme::Identifier(s),
            Lexeme::String(s) => Lexeme::String(s),
            Lexeme::Plus => Lexeme::Plus,
            Lexeme::Minus => Lexeme::Minus,
            Lexeme::Multiply => Lexeme::Multiply,
            Lexeme::Divide => Lexeme::Divide,
            Lexeme::Modulus => Lexeme::Modulus,
            Lexeme::LeftParenthesis => Lexeme::LeftParenthesis,
            Lexeme::RightParenthesis => Lexeme::RightParenthesis,
            Lexeme::LeftBracket => Lexeme::LeftBracket,
            Lexeme::RightBracket => Lexeme::RightBracket,
            Lexeme::Not => Lexeme::Not,
            Lexeme::And => Lexeme::And,
            Lexeme::Or => Lexeme::Or,
            Lexeme::Comma => Lexeme::Comma,
        })
        .collect();
    let tree = AstParser::new(lexemes).parse().unwrap();
    AbstractSyntaxTree::from_node(numbers_as_text(tree.peek))
}

fn numbers_as_text(n: AstNode<u64>) -> AstNode<String> {
    match n {
        AstNode::Number(v) => AstNode::Number(v.to_string()),
        AstNode::Identifier(s) => AstNode::Identifier(s),
        AstNode::StringLiteral(s) => AstNode::StringLiteral(s),
        AstNode::UnaryOperation { operation, expression } => {
            AstNode::UnaryOperation { operation, expression: Box::new(numbers_as_text(*expression)) }
        },
        AstNode::BinaryOperation { operation, left, right } => AstNode::BinaryOperation {
            operation,
            left: Box::new(numbers_as_text(*left)),
            right: Box::new(numbers_as_text(*right)),
        },
        AstNode::FunctionCall { name, arguments } => {
            AstNode::FunctionCall { name, arguments: arguments.into_iter().map(numbers_as_text).collect() }
        },
        AstNode::ArrayAccess { identifier, indices } => {
            AstNode::ArrayAccess { identifier, indices: indices.into_iter().map(numbers_as_text).collect() }
        },
    }
}

#[test]
fn printer_draws_the_tree() {
    let drawing = parse("a + b * c").pretty_print();
    let expected = "└── +\n    ├── a\n    └── *\n        ├── b\n        └── c\n";
    assert_eq!(drawing, expected);
}

#[test]
fn printer_draws_calls_strings_and_indices() {
    let drawing = parse("f(x, \"s\", -y[2][k])").pretty_print();
    let expected = "└── f(...)\n    ├── x\n    ├── \"s\"\n    └── -\n        └── y[...]\n            ├── 2\n            └── k\n";
    assert_eq!(drawing, expected);
}

#[test]
fn printer_canonical_form_sorts_commutative_operands() {
    assert_eq!(parse("b + a").to_canonical_string(), "(a + b)");
    assert_eq!(parse("a + b").to_canonical_string(), "(a + b)");
    assert_eq!(parse("b - a").to_canonical_string(), "(b - a)");
    assert_eq!(parse("z * (y + x)").to_canonical_string(), "((x + y) * z)");
    assert_eq!(parse("-x").to_canonical_string(), "(-x)");
    assert_eq!(parse("f(b + a, c)").to_canonical_string(), "f((a + b), c)");
    assert_eq!(parse("m[2][j]").to_canonical_string(), "m[2][j]");
}

#[test]
fn printer_canonical_form_is_the_same_for_swapped_operands() {
    assert_eq!(parse("c * (a + b)").to_canonical_string(), parse("(b + a) * c").to_canonical_string());
}

#[test]
fn printer_pretty_string_uses_only_needed_parentheses() {
    assert_eq!(parse("a + b * c").to_pretty_string(), "a + b * c");
    assert_eq!(parse("(a + b) * c").to_pretty_string(), "(a + b) * c");
    assert_eq!(parse("a - (b - c)").to_pretty_string(), "a - (b - c)");
    assert_eq!(parse("(a - b) - c").to_pretty_string(), "a - b - c");
    assert_eq!(parse("a / (b * c)").to_pretty_string(), "a / (b * c)");
    assert_eq!(parse("-(a + b)").to_pretty_string(), "-(a + b)");
    assert_eq!(parse("f(a, b[1])").to_pretty_string(), "f(a, b[1])");
}

#[test]
fn printer_pretty_string_reads_added_negations_as_subtractions() {
    assert_eq!(parse("a + -b").to_pretty_string(), "a - b");
    assert_eq!(parse("-a + b").to_pretty_string(), "b - a");
    assert_eq!(parse("a * (b + -c)").to_pretty_string(), "a * (b - c)");
    let transformed = parse("a - (b - c)").transform().unwrap();
    assert_eq!(transformed.to_pretty_string(), "a - (b - c)");
}

#[test]
fn printer_prints_numbers_as_given() {
    let tree = AbstractSyntaxTree::from_node(AstNode::Number("2.50".to_string()));
    assert_eq!(tree.to_pretty_string(), "2.50");
    assert_eq!(tree.pretty_print(), "└── 2.50\n");
}
