use expr_compiler::simplifier::{Simplifier, SimplifierError};
use expr_compiler::tokenizer::{tokenize, Token, TokenType};

fn tok(kind: TokenType, start: usize, end: usize) -> Token {
    Token { kind, position: start..end, value: None }
}

fn tok_v(kind: TokenType, value: String, start: usize, end: usize) -> Token {
    Token { kind, position: start..end, value: Some(value) }
}

#[test]
fn simplifier_test_1() {
    let code = "a + b + c - 4.5";
    let tokens = tokenize(code);
    let simplifier = Simplifier::new(tokens).simplify();
    assert!(simplifier.is_ok());
    let simplified_tokens = simplifier.unwrap();
    let expected_tokens = vec![
        tok_v(TokenType::Identifier, "a".to_string(), 0, 1),
        tok(TokenType::Plus, 2, 3),
        tok_v(TokenType::Identifier, "b".to_string(), 4, 5),
        tok(TokenType::Plus, 6, 7),
        tok_v(TokenType::Identifier, "c".to_string(), 8, 9),
        tok(TokenType::Minus, 10, 11),
        tok_v(TokenType::Number, "4.5".to_string(), 12, 15),
    ];
    assert_eq!(expected_tokens, simplified_tokens);
}

#[test]
fn simplifier_reports_number_without_text() {
    let tokens = vec![tok(TokenType::Number, 0, 1)];
    let result = Simplifier::new(tokens).simplify();
    assert_eq!(result, Err(SimplifierError::NumberTokenWithoutValue));
}

#[test]
fn simplifier_leaves_lone_dot() {
    let tokens = tokenize("3. + .5");
    let result = Simplifier::new(tokens).simplify().unwrap();
    assert_eq!(result.len(), 5);
    assert_eq!(result[0], tok_v(TokenType::Number, "3".to_string(), 0, 1));
    assert_eq!(result[4], tok_v(TokenType::Number, "5".to_string(), 6, 7));
}

#[test]
fn simplifier_joins_several_decimals() {
    let tokens = tokenize("12.34*0.5");
    let result = Simplifier::new(tokens).simplify().unwrap();
    assert_eq!(
        result,
        vec![
            tok_v(TokenType::Number, "12.34".to_string(), 0, 5),
            tok(TokenType::Asterisk, 5, 6),
            tok_v(TokenType::Number, "0.5".to_string(), 6, 9),
        ]
    );
}
