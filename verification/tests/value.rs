use expr_compiler::ast::{AbstractSyntaxTree, AstNode};
use expr_compiler::lexer::{Lexeme, Lexer};
use expr_compiler::operations::{BinaryOperationKind, UnaryOperationKind};
use expr_compiler::parser::AstParser;
use expr_compiler::tokenizer::tokenize;

fn parse(code: &str) -> AbstractSyntaxTree<u64> {
    let lexemes: Vec<Lexeme<String>> = Lexer::new(tokenize(code)).run().unwrap();
    let lexemes: Vec<Lexeme<u64>> = lexemes
        .into_iter()
        .map(|l| match l {
            Lexeme::Number(n) => Lexeme::Number(n.parse::<u64>().unwrap()),
            Lexeme::Identifier(s) => Lexeme::Identifier(s),
            Lexeme::Plus => Lexeme::Plus,
            Lexeme::Minus => Lexeme::Minus,
            Lexeme::Multiply => Lexeme::Multiply,
            Lexeme::Divide => Lexeme::Divide,
            Lexeme::LeftParenthesis => Lexeme::LeftParenthesis,
            Lexeme::RightParenthesis => Lexeme::RightParenthesis,
            Lexeme::Comma => Lexeme::Comma,
            other => panic!("unexpected lexeme {:?}", other),
        })
        .collect();
    AstParser::new(lexemes).parse().unwrap()
}

fn as_text(n: AstNode<u64>) -> AstNode<String> {
    match n {
        AstNode::Number(v) => AstNode::Number(v.to_string()),
        AstNode::Identifier(s) => AstNode::Identifier(s),
        AstNode::StringLiteral(s) => AstNode::StringLiteral(s),
        AstNode::UnaryOperation { operation, expression } => {
            AstNode::UnaryOperation { operation, expression: Box::new(as_text(*expression)) }
        }
        AstNode::BinaryOperation { operation, left, right } => AstNode::BinaryOperation {
            operation,
            left: Box::new(as_text(*left)),
            right: Box::new(as_text(*right)),
        },
        AstNode::FunctionCall { name, arguments } => {
            AstNode::FunctionCall { name, arguments: arguments.into_iter().map(as_text).collect() }
        }
        AstNode::ArrayAccess { identifier, indices } => {
            AstNode::ArrayAccess { identifier, indices: indices.into_iter().map(as_text).collect() }
        }
    }
}

fn parse_text(code: &str) -> AbstractSyntaxTree<String> {
    AbstractSyntaxTree::from_node(as_text(parse(code).peek))
}

fn variable(name: &str) -> f64 {
    match name {
        "a" => 3.0,
        "b" => 5.0,
        "c" => 7.0,
        "d" => 11.0,
        "e" => 13.0,
        "f" => 17.0,
        "g" => 19.0,
        "h" => 23.0,
        _ => panic!("no value for {}", name),
    }
}

fn eval<N>(n: &AstNode<N>, num: &dyn Fn(&N) -> f64) -> f64 {
    match n {
        AstNode::Number(v) => num(v),
        AstNode::Identifier(s) => variable(s),
        AstNode::UnaryOperation { operation: UnaryOperationKind::Minus, expression } => -eval(expression, num),
        AstNode::BinaryOperation { operation, left, right } => {
            let (a, b) = (eval(left, num), eval(right, num));
            match operation {
                BinaryOperationKind::Plus => a + b,
                BinaryOperationKind::Minus => a - b,
                BinaryOperationKind::Multiply => a * b,
                BinaryOperationKind::Divide => a / b,
                _ => panic!("no arithmetic for {:?}", operation),
            }
        }
        _ => panic!("no arithmetic for this node"),
    }
}

fn key(v: &u64) -> f64 {
    *v as f64
}

fn text(t: &String) -> f64 {
    t.parse::<f64>().unwrap()
}

fn close(x: f64, y: f64) -> bool {
    (x - y).abs() <= 1e-9 * (1.0 + x.abs().max(y.abs()))
}

#[test]
fn value_is_kept_by_every_factoring() {
    for code in ["a*b - a*c", "a*b - (c*a + d)", "a*b + (c - a*d)", "a*b - c - a*d + e*a", "(a*b + a*c)*d"] {
        let tree = parse(code);
        let before = eval(&tree.peek, &key);
        let found = tree.get_all_single_step_factorings();
        assert!(!found.is_empty(), "{}", code);
        for f in found {
            assert!(close(eval(&f.peek, &key), before), "{}", code);
        }
    }
}

#[test]
fn value_is_kept_by_every_expansion() {
    for code in ["a*(b - c)", "(a - b)*(c + d)", "a*(b + c*(d - e))"] {
        let tree = parse(code);
        let before = eval(&tree.peek, &key);
        for f in tree.get_all_single_step_expansions() {
            assert!(close(eval(&f.peek, &key), before), "{}", code);
        }
    }
}

#[test]
fn value_is_kept_by_every_equivalent_form() {
    for code in ["a*(b + c) - d*(e - f)", "(a - b)*(c - d)", "a*(b - c) + a*d"] {
        let tree = parse(code);
        let before = eval(&tree.peek, &key);
        let forms = tree.find_equivalent_forms(&Vec::new());
        assert!(forms.len() > 1, "{}", code);
        for f in forms {
            assert!(close(eval(&f.peek, &key), before), "{}", code);
        }
    }
}

#[test]
fn value_is_kept_by_rewriting_and_folding() {
    for code in ["a - b / c / d - (e + f)", "-(a - b) - -(c + d)", "a / b / (c - d) / e", "a - 2 - (b - 3) * c"] {
        let tree = parse_text(code);
        let before = eval(&tree.peek, &text);
        let rewritten = tree.transform().unwrap();
        assert!(close(eval(&rewritten.peek, &text), before), "{}", code);
        let folded = rewritten.fold().unwrap();
        assert!(close(eval(&folded.peek, &text), before), "{}", code);
    }
}

#[test]
fn value_is_kept_by_folding_a_reciprocal() {
    for code in ["a * (1 / b)", "a * (0 - 1) / b + c", "a + (0 - 2)"] {
        let tree = parse_text(code).transform().unwrap();
        let before = eval(&tree.peek, &text);
        assert!(close(eval(&tree.fold().unwrap().peek, &text), before), "{}", code);
    }
}

#[test]
fn value_is_kept_by_balancing() {
    for code in ["a + b + c + d + e", "a * b * c * d * e * f * g", "a + (b + c*d*e + (f + g)) + h", "a - (b + c + d)"] {
        let tree = parse(code);
        let before = eval(&tree.peek, &key);
        let balanced = tree.balance().unwrap();
        assert!(close(eval(&balanced.peek, &key), before), "{}", code);
    }
}
