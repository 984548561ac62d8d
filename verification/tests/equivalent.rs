use expr_compiler::ast::{AbstractSyntaxTree, AstNode};
use expr_compiler::lexer::{Lexeme, Lexer};
use expr_compiler::parser::AstParser;
use expr_compiler::tokenizer::tokenize;

fn parse(code: &str) -> AbstractSyntaxTree<u64> {
    let lexemes: Vec<Lexeme<String>> = Lexer::new(tokenize(code)).run().unwrap();
    let lexemes: Vec<Lexeme<u64>> = lexemes
        .into_iter()
        .map(|l| match l {
            Lexeme::Number(n) => Lexeme::Number(n.parse::<u64>().unwrap()),
            Lexeme::Identifier(s) => Lexeme::Identifier(s),
            Lexeme::Plus => Lexeme::Plus,
            Lexeme::Minus => Lexeme::Minus,
            Lexeme::Multiply => Lexeme::Multiply,
            Lexeme::Divide => Lexeme::Divide,
            Lexeme::LeftParenthesis => Lexeme::LeftParenthesis,
            Lexeme::RightParenthesis => Lexeme::RightParenthesis,
            Lexeme::Comma => Lexeme::Comma,
            Lexeme::LeftBracket => Lexeme::LeftBracket,
            Lexeme::RightBracket => Lexeme::RightBracket,
            other => panic!("unexpected lexeme {:?}", other),
        })
        .collect();
    AstParser::new(lexemes).parse().unwrap()
}

fn texts(n: usize) -> Vec<String> {
    (0..n).map(|k| k.to_string()).collect()
}

#[test]
fn equivalent_forms_expand_then_factor_back() {
    let forms = parse("a*(b + c)").find_equivalent_forms(&texts(0));
    assert_eq!(forms, vec![parse("a*(b + c)"), parse("a*b + a*c")]);
}

#[test]
fn equivalent_forms_of_a_sum_are_the_sum_alone() {
    assert_eq!(parse("a + b").find_equivalent_forms(&texts(0)), vec![parse("a + b")]);
}

#[test]
fn equivalent_forms_write_numbers_by_their_texts() {
    let forms = parse("2*(x + 1)").find_equivalent_forms(&texts(3));
    assert_eq!(forms, vec![parse("2*(x + 1)"), parse("2*x + 2*1")]);
}

#[test]
fn equivalent_forms_are_found_once_each() {
    let forms = parse("(a + b)*(c + d)").find_equivalent_forms(&texts(0));
    assert_eq!(forms[0], parse("(a + b)*(c + d)"));
    assert!(forms.contains(&parse("a*c + b*c + (a*d + b*d)")));
    let keys: Vec<String> = forms.iter().map(|f| to_text(f).to_canonical_string()).collect();
    for (i, k) in keys.iter().enumerate() {
        assert!(!keys[..i].contains(k));
    }
}

fn walk(n: &AstNode<u64>) -> AstNode<String> {
    match n {
        AstNode::Number(v) => AstNode::Number(v.to_string()),
        AstNode::Identifier(s) => AstNode::Identifier(s.clone()),
        AstNode::StringLiteral(s) => AstNode::StringLiteral(s.clone()),
        AstNode::UnaryOperation { operation, expression } => {
            AstNode::UnaryOperation { operation: *operation, expression: Box::new(walk(expression)) }
        },
        AstNode::BinaryOperation { operation, left, right } => AstNode::BinaryOperation {
            operation: *operation,
            left: Box::new(walk(left)),
            right: Box::new(walk(right)),
        },
        AstNode::FunctionCall { name, arguments } => {
            AstNode::FunctionCall { name: name.clone(), arguments: arguments.iter().map(walk).collect() }
        },
        AstNode::ArrayAccess { identifier, indices } => {
            AstNode::ArrayAccess { identifier: identifier.clone(), indices: indices.iter().map(walk).collect() }
        },
    }
}

fn to_text(tree: &AbstractSyntaxTree<u64>) -> AbstractSyntaxTree<String> {
    AbstractSyntaxTree::from_node(walk(&tree.peek))
}
