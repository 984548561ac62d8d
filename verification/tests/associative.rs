use expr_compiler::ast::AbstractSyntaxTree;
use expr_compiler::associative::same_tree;
use expr_compiler::lexer::{Lexeme, Lexer};
use expr_compiler::parser::AstParser;
use expr_compiler::tokenizer::tokenize;

fn parse(code: &str) -> AbstractSyntaxTree<u64> {
    let lexemes: Vec<Lexeme<String>> = Lexer::new(tokenize(code)).run().unwrap();
    let lexemes: Vec<Lexeme<u64>> = lexemes
        .into_iter()
        .map(|l| match l {
            Lexeme::Number(n) => Lexeme::Number(n.parse::<u64>().unwrap()),
            Lexeme::Identifier(s) => Lexeme::Identifier(s),
            Lexeme::Plus => Lexeme::Plus,
            Lexeme::Minus => Lexeme::Minus,
            Lexeme::Multiply => Lexeme::Multiply,
            Lexeme::Divide => Lexeme::Divide,
            Lexeme::LeftParenthesis => Lexeme::LeftParenthesis,
            Lexeme::RightParenthesis => Lexeme::RightParenthesis,
            Lexeme::Comma => Lexeme::Comma,
            Lexeme::LeftBracket => Lexeme::LeftBracket,
            Lexeme::RightBracket => Lexeme::RightBracket,
            other => panic!("unexpected lexeme {:?}", other),
        })
        .collect();
    AstParser::new(lexemes).parse().unwrap()
}

#[test]
fn associative_gathers_a_shared_left_factor() {
    assert_eq!(parse("a*b + a*c").get_all_single_step_factorings(), vec![parse("a*(b + c)")]);
}

#[test]
fn associative_finds_the_factor_on_either_side() {
    assert_eq!(parse("a*b + c*a").get_all_single_step_factorings(), vec![parse("a*(b + c)")]);
    assert_eq!(parse("b*a + c*a").get_all_single_step_factorings(), vec![parse("a*(b + c)")]);
}

#[test]
fn associative_gathers_numbers_by_value() {
    assert_eq!(parse("2*x + 2*y").get_all_single_step_factorings(), vec![parse("2*(x + y)")]);
    assert_eq!(parse("2*x + 3*y").get_all_single_step_factorings(), vec![]);
}

#[test]
fn associative_keeps_the_sign_of_a_subtracted_term() {
    assert_eq!(parse("a*b - a*c").get_all_single_step_factorings(), vec![parse("a*(b - c)")]);
    assert_eq!(parse("a*b - (c*a + d)").get_all_single_step_factorings(), vec![parse("a*(b - c) - d")]);
}

#[test]
fn associative_finds_nothing_without_a_shared_factor() {
    assert_eq!(parse("a + b").get_all_single_step_factorings(), vec![]);
    assert_eq!(parse("a*b + c*d").get_all_single_step_factorings(), vec![]);
    assert_eq!(parse("a*b").get_all_single_step_factorings(), vec![]);
}

#[test]
fn associative_tries_each_sum_of_the_tree() {
    let forms = parse("a*b + a*c + d").get_all_single_step_factorings();
    assert_eq!(forms, vec![parse("a*(b + c) + d"), parse("a*(b + c) + d")]);
}

#[test]
fn associative_keeps_ungrouped_terms_in_order_after_the_groups() {
    let forms = parse("d + a*b + e + a*c").get_all_single_step_factorings();
    assert_eq!(forms, vec![parse("(d + a*(b + c)) + e")]);
}

#[test]
fn associative_gathers_a_subtracted_term_inside_a_sum() {
    let forms = parse("a*b + (c - a*d)").get_all_single_step_factorings();
    assert_eq!(forms, vec![parse("a*(b - d) + c")]);
}

#[test]
fn associative_leaves_a_difference_without_a_shared_factor() {
    assert_eq!(parse("a - b").get_all_single_step_factorings(), vec![]);
    assert_eq!(parse("a - (b + c)").get_all_single_step_factorings(), vec![parse("(a - b) - c")]);
}

#[test]
fn associative_compares_trees_by_shape_and_content() {
    assert!(same_tree(&parse("f(a, 2) * x[1]").peek, &parse("f(a, 2) * x[1]").peek));
    assert!(!same_tree(&parse("f(a, 2)").peek, &parse("f(a, 3)").peek));
    assert!(!same_tree(&parse("a + b").peek, &parse("a - b").peek));
}

#[test]
fn associative_undoes_an_expansion() {
    let expanded = parse("(x + 1) * (y + z)").get_all_single_step_expansions();
    assert_eq!(expanded[0], parse("(x + 1)*y + (x + 1)*z"));
    assert_eq!(expanded[0].get_all_single_step_factorings(), vec![parse("(x + 1) * (y + z)")]);
}
