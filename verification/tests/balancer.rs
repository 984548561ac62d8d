use expr_compiler::ast::{AbstractSyntaxTree, AstError, AstNode};
use expr_compiler::lexer::{Lexeme, Lexer};
use expr_compiler::operations::BinaryOperationKind;
use expr_compiler::parser::AstParser;
use expr_compiler::tokenizer::tokenize;

fn parse(code: &str) -> AbstractSyntaxTree<u32> {
    let lexemes: Vec<Lexeme<String>> = Lexer::new(tokenize(code)).run().unwrap();
    let lexemes: Vec<Lexeme<u32>> = lexemes
        .into_iter()
        .map(|l| match l {
            Lexeme::Number(n) => Lexeme::Number(n.parse::<u32>().unwrap()),
            Lexeme::Identifier(s) => Lexeme::Identifier(s),
            Lexeme::Plus => Lexeme::Plus,
            Lexeme::Minus => Lexeme::Minus,
            Lexeme::Multiply => Lexeme::Multiply,
            Lexeme::Divide => Lexeme::Divide,
            Lexeme::LeftParenthesis => Lexeme::LeftParenthesis,
            Lexeme::RightParenthesis => Lexeme::RightParenthesis,
            Lexeme::Comma => Lexeme::Comma,
            other => panic!("unexpected lexeme {:?}", other),
        })
        .collect();
    AstParser::new(lexemes).parse().unwrap()
}

fn balanced(code: &str) -> AbstractSyntaxTree<u32> {
    parse(code).balance().unwrap()
}

#[test]
fn balancer_joins_eight_operands_into_three_levels() {
    assert_eq!(balanced("a+b+c+d+e+f+g+h"), parse("((a+b)+(c+d))+((e+f)+(g+h))"));
}

#[test]
fn balancer_moves_the_odd_operand_to_the_back_of_each_level() {
    // [a b c d e] -> [a+b, c+d, e] -> [(a+b)+(c+d), e] -> ((a+b)+(c+d))+e
    assert_eq!(balanced("a+b+c+d+e"), parse("((a+b)+(c+d))+e"));
    // [a b c] -> [a+b, c] -> (a+b)+c
    assert_eq!(balanced("a+(b+c)"), parse("(a+b)+c"));
    // nine operands: [ab cd ef gh i] -> [abcd efgh i] -> [abcdefgh i] -> (abcdefgh)+i
    assert_eq!(balanced("a+b+c+d+e+f+g+h+i"), parse("(((a+b)+(c+d))+((e+f)+(g+h)))+i"));
}

#[test]
fn balancer_keeps_other_operations_and_balances_inside_them() {
    assert_eq!(balanced("a-b-c-d"), parse("a-b-c-d"));
    assert_eq!(balanced("a*b*c*d - (e+f+g+h)"), parse("(a*b)*(c*d) - ((e+f)+(g+h))"));
    assert_eq!(balanced("f(a+b+c+d, x*y*z)"), parse("f((a+b)+(c+d), (x*y)*z)"));
    assert_eq!(balanced("a+b*c*d+e"), parse("(a+(b*c)*d)+e"));
}

#[test]
fn balancer_collects_operands_left_to_right() {
    let tree = parse("(a + (b + c)) + d * e");
    let mut operands = Vec::new();
    AbstractSyntaxTree::collect_operands(tree.peek, BinaryOperationKind::Plus, &mut operands);
    assert_eq!(operands.len(), 4);
    assert_eq!(operands[0], AstNode::Identifier("a".to_string()));
    assert_eq!(operands[2], AstNode::Identifier("c".to_string()));
    assert_eq!(operands[3], parse("d * e").peek);
}

#[test]
fn balancer_refuses_to_build_from_nothing() {
    let result = AbstractSyntaxTree::<u32>::build_balanced_tree(Vec::new(), BinaryOperationKind::Plus);
    assert_eq!(result, Err(AstError::CannotBuildEmptyTree));
    let single = AbstractSyntaxTree::<u32>::build_balanced_tree(vec![AstNode::Number(7)], BinaryOperationKind::Plus);
    assert_eq!(single, Ok(AstNode::Number(7)));
}

fn rewritten_and_balanced(code: &str) -> AbstractSyntaxTree<u32> {
    parse(code).transform().unwrap().balance().unwrap()
}

#[test]
fn balancer_test_01() {
    assert_eq!(rewritten_and_balanced("a+b+c+d+e+f+g+h"), parse("((a+b)+(c+d))+((e+f)+(g+h))"));
}

#[test]
fn balancer_test_01_2() {
    assert_eq!(rewritten_and_balanced("a+b+c+d+e+f+g+h+i"), parse("(((a+b)+(c+d))+((e+f)+(g+h)))+i"));
}

#[test]
fn balancer_test_05() {
    assert_eq!(rewritten_and_balanced("a+(b+c+d+(e+f)+g)+h"), parse("((a+b)+(c+d))+((e+f)+(g+h))"));
}
