use expr_compiler::ast::{AbstractSyntaxTree, AstNode};
use expr_compiler::lexer::{Lexeme, Lexer};
use expr_compiler::parser::AstParser;
use expr_compiler::tokenizer::tokenize;

fn parse(code: &str) -> AbstractSyntaxTree<u64> {
    let lexemes: Vec<Lexeme<String>> = Lexer::new(tokenize(code)).run().unwrap();
    let lexemes: Vec<Lexeme<u64>> = lexemes
        .into_iter()
        .map(|l| match l {
            Lexeme::Number(n) => Lexeme::Number(n.parse::<u64>().unwrap()),
            Lexeme::Identifier(s) => Lexeme::Identifier(s),
            Lexeme::Plus => Lexeme::Plus,
            Lexeme::Minus => Lexeme::Minus,
            Lexeme::Multiply => Lexeme::Multiply,
            Lexeme::Divide => Lexeme::Divide,
            Lexeme::LeftParenthesis => Lexeme::LeftParenthesis,
            Lexeme::RightParenthesis => Lexeme::RightParenthesis,
            Lexeme::Comma => Lexeme::Comma,
            other => panic!("unexpected lexeme {:?}", other),
        })
        .collect();
    AstParser::new(lexemes).parse().unwrap()
}

#[test]
fn laws_expand_a_product_over_a_sum() {
    let forms = parse("a * (b + c)").get_all_single_step_expansions();
    assert_eq!(forms, vec![parse("a * b + a * c")]);
    let forms = parse("(a - b) * c").get_all_single_step_expansions();
    assert_eq!(forms, vec![parse("a * c - b * c")]);
}

#[test]
fn laws_list_a_product_of_two_sums_twice() {
    let forms = parse("(a + b) * (c - d)").get_all_single_step_expansions();
    let expected = parse("(a + b) * c - (a + b) * d");
    assert_eq!(forms, vec![AbstractSyntaxTree::from_node(expected.peek.copy_tree()), expected]);
}

#[test]
fn laws_expand_inside_the_tree_one_place_at_a_time() {
    let forms = parse("x * (y + z) + a * (b + c)").get_all_single_step_expansions();
    assert_eq!(forms, vec![parse("(x * y + x * z) + a * (b + c)"), parse("x * (y + z) + (a * b + a * c)")]);
    let forms = parse("-(a * (b + 1))").get_all_single_step_expansions();
    assert_eq!(forms, vec![parse("-(a * b + a * 1)")]);
}

#[test]
fn laws_find_nothing_to_expand() {
    assert!(parse("a * b + c").get_all_single_step_expansions().is_empty());
    assert!(parse("f(a * (b + c))").get_all_single_step_expansions().is_empty());
}

#[test]
fn laws_reach_nodes_by_path() {
    let mut tree = parse("a + b * c");
    let node = AbstractSyntaxTree::get_node_mut_by_path(&mut tree.peek, &[1, 0]).unwrap();
    assert_eq!(*node, AstNode::Identifier("b".to_string()));
    *node = AstNode::Number(7);
    assert_eq!(tree, parse("a + 7 * c"));
    assert!(AbstractSyntaxTree::get_node_mut_by_path(&mut tree.peek, &[0, 0]).is_none());
    assert_eq!(tree, parse("a + 7 * c"));
}
