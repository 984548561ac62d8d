use expr_compiler::checker::{SyntaxAnalyzer, SyntaxError, SyntaxErrorKind};
use expr_compiler::tokenizer::{tokenize, Token, TokenType};

fn error(kind: SyntaxErrorKind, token_kind: TokenType, start: usize, end: usize) -> SyntaxError {
    SyntaxError { token: Token { kind: token_kind, position: start..end, value: None }, kind }
}

fn error_v(
    kind: SyntaxErrorKind,
    token_kind: TokenType,
    start: usize,
    end: usize,
    value: String,
) -> SyntaxError {
    SyntaxError { token: Token { kind: token_kind, position: start..end, value: Some(value) }, kind }
}

#[test]
fn checker_syntax_01() {
    let code = "-a ++ b - 2v*func((t+2 -, sin(x/*2.01.2), )/8(-)**";

    let errors_actual: Vec<SyntaxError> =
        SyntaxAnalyzer::new(tokenize(code)).analyze();
    let errors_expected: Vec<SyntaxError> = vec![
        error(SyntaxErrorKind::UnexpectedOperator, TokenType::Plus, 4, 5),
        error_v(SyntaxErrorKind::IncorrectVariableName, TokenType::Number, 10, 11, "2".to_string()),
        error(SyntaxErrorKind::UnmatchedParenthesis, TokenType::LeftParenthesis, 17, 18),
        error(SyntaxErrorKind::UnexpectedComma, TokenType::Comma, 24, 25),
        error(SyntaxErrorKind::UnexpectedOperator, TokenType::Asterisk, 32, 33),
        error(SyntaxErrorKind::UnexpectedDot, TokenType::Dot, 37, 38),
        error_v(SyntaxErrorKind::UnexpectedOperand, TokenType::Number, 38, 39, "2".to_string()),
        error(SyntaxErrorKind::MissingArgument, TokenType::Comma, 40, 41),
        error_v(SyntaxErrorKind::UnexpectedFunctionName, TokenType::Number, 44, 45, "8".to_string()),
        error(SyntaxErrorKind::UnexpectedOperator, TokenType::Minus, 46, 47),
        error(SyntaxErrorKind::UnexpectedOperator, TokenType::Asterisk, 49, 50),
        error(SyntaxErrorKind::UnexpectedEndOfExpression, TokenType::Asterisk, 49, 50),
    ];
    assert_eq!(errors_actual, errors_expected);
}

#[test]
fn checker_syntax_02() {
    let code = "*a + nb -";

    let errors_actual: Vec<SyntaxError> =
        SyntaxAnalyzer::new(tokenize(code)).analyze();
    let errors_expected: Vec<SyntaxError> = vec![
        error(SyntaxErrorKind::UnexpectedOperator, TokenType::Asterisk, 0, 1),
        error(SyntaxErrorKind::UnexpectedEndOfExpression, TokenType::Minus, 8, 9),
    ];
    assert_eq!(errors_actual, errors_expected);
}

#[test]
fn checker_syntax_03() {
    let code = "a ++ nb /* k -+/ g";

    let errors_actual: Vec<SyntaxError> =
        SyntaxAnalyzer::new(tokenize(code)).analyze();
    let errors_expected: Vec<SyntaxError> = vec![
        error(SyntaxErrorKind::UnexpectedOperator, TokenType::Plus, 3, 4),
        error(SyntaxErrorKind::UnexpectedOperator, TokenType::Asterisk, 9, 10),
        error(SyntaxErrorKind::UnexpectedOperator, TokenType::Plus, 14, 15),
        error(SyntaxErrorKind::UnexpectedOperator, TokenType::Slash, 15, 16),
    ];
    assert_eq!(errors_actual, errors_expected);
}

#[test]
fn checker_syntax_04() {
    let code = "a^b$c - d#h + q%t + !b&(z|t)";

    let errors_actual: Vec<SyntaxError> =
        SyntaxAnalyzer::new(tokenize(code)).analyze();
    let errors_expected: Vec<SyntaxError> = vec![
        error_v(SyntaxErrorKind::UnknownToken, TokenType::Unknown, 1, 2, "^".to_string()),
        error_v(SyntaxErrorKind::UnexpectedOperand, TokenType::Identifier, 2, 3, "b".to_string()),
        error_v(SyntaxErrorKind::UnknownToken, TokenType::Unknown, 3, 4, "$".to_string()),
        error_v(SyntaxErrorKind::UnexpectedOperand, TokenType::Identifier, 4, 5, "c".to_string()),
        error_v(SyntaxErrorKind::UnknownToken, TokenType::Unknown, 9, 10, "#".to_string()),
        error_v(SyntaxErrorKind::UnexpectedOperand, TokenType::Identifier, 10, 11, "h".to_string()),
        error(SyntaxErrorKind::UnexpectedOperator, TokenType::Ampersand, 22, 23),
        error(SyntaxErrorKind::UnexpectedParenthesis, TokenType::LeftParenthesis, 23, 24),
        error_v(SyntaxErrorKind::UnexpectedOperand, TokenType::Identifier, 24, 25, "z".to_string()),
        error(SyntaxErrorKind::UnexpectedOperator, TokenType::Pipe, 25, 26),
        error_v(SyntaxErrorKind::UnexpectedOperand, TokenType::Identifier, 26, 27, "t".to_string()),
        error(SyntaxErrorKind::UnmatchedParenthesis, TokenType::RightParenthesis, 27, 28),
    ];
    assert_eq!(errors_actual, errors_expected);
}

#[test]
fn checker_syntax_05() {
    let code = "x + var1 + var_2 + _var_3 + var#4 + var!5
    + 6var_ + $7 + ?8";

    let errors_actual: Vec<SyntaxError> =
        SyntaxAnalyzer::new(tokenize(code)).analyze();
    let errors_expected: Vec<SyntaxError> = vec![
        error_v(SyntaxErrorKind::UnknownToken, TokenType::Unknown, 31, 32, "#".to_string()),
        error_v(SyntaxErrorKind::UnexpectedOperand, TokenType::Number, 32, 33, "4".to_string()),
        error(SyntaxErrorKind::UnexpectedOperator, TokenType::ExclamationMark, 39, 40),
        error_v(SyntaxErrorKind::UnexpectedOperand, TokenType::Number, 40, 41, "5".to_string()),
        error(SyntaxErrorKind::UnexpectedNewLine, TokenType::NewLine, 41, 42),
        error_v(SyntaxErrorKind::IncorrectVariableName, TokenType::Number, 48, 49, "6".to_string()),
        error_v(SyntaxErrorKind::UnknownToken, TokenType::Unknown, 56, 57, "$".to_string()),
        error_v(SyntaxErrorKind::UnknownToken, TokenType::Unknown, 61, 62, "?".to_string()),
    ];
    assert_eq!(errors_actual, errors_expected);
}

#[test]
fn checker_syntax_06() {
    let code = "125 + 2nb - 0xAB * 0x0R + 0b010 * 0b20+ ABh * 0Rh + 010b*20b";

    let errors_actual: Vec<SyntaxError> =
        SyntaxAnalyzer::new(tokenize(code)).analyze();
    let errors_expected: Vec<SyntaxError> = vec![
        error_v(SyntaxErrorKind::IncorrectVariableName, TokenType::Number, 6, 7, "2".to_string()),
        error_v(SyntaxErrorKind::IncorrectHexLiteral, TokenType::Identifier, 20, 23, "x0R".to_string()),
        error_v(SyntaxErrorKind::IncorrectBinaryLiteral, TokenType::Identifier, 35, 38, "b20".to_string()),
        error_v(SyntaxErrorKind::IncorrectVariableName, TokenType::Number, 46, 47, "0".to_string()),
        error_v(SyntaxErrorKind::IncorrectVariableName, TokenType::Number, 52, 55, "010".to_string()),
        error_v(SyntaxErrorKind::IncorrectVariableName, TokenType::Number, 57, 59, "20".to_string()),
    ];
    assert_eq!(errors_actual, errors_expected);
}

#[test]
fn checker_syntax_07() {
    let code = "0.71/0.72.3 + .3 + 127.0.0.1*8. + 6.07ab - 9f.89hgt";

    let errors_actual: Vec<SyntaxError> =
        SyntaxAnalyzer::new(tokenize(code)).analyze();
    let errors_expected: Vec<SyntaxError> = vec![
        error(SyntaxErrorKind::UnexpectedDot, TokenType::Dot, 9, 10),
        error_v(SyntaxErrorKind::UnexpectedOperand, TokenType::Number, 10, 11, "3".to_string()),
        error(SyntaxErrorKind::UnexpectedDot, TokenType::Dot, 14, 15),
        error(SyntaxErrorKind::UnexpectedDot, TokenType::Dot, 24, 25),
        error_v(SyntaxErrorKind::UnexpectedOperand, TokenType::Number, 25, 26, "0".to_string()),
        error(SyntaxErrorKind::UnexpectedDot, TokenType::Dot, 26, 27),
        error_v(SyntaxErrorKind::UnexpectedOperand, TokenType::Number, 27, 28, "1".to_string()),
        error(SyntaxErrorKind::IncorrectFloat, TokenType::Dot, 30, 31),
        error_v(SyntaxErrorKind::UnexpectedOperand, TokenType::Identifier, 38, 40, "ab".to_string()),
        error_v(SyntaxErrorKind::IncorrectVariableName, TokenType::Number, 43, 44, "9".to_string()),
        error(SyntaxErrorKind::UnexpectedDot, TokenType::Dot, 45, 46),
        error_v(SyntaxErrorKind::UnexpectedOperand, TokenType::Number, 46, 48, "89".to_string()),
        error_v(SyntaxErrorKind::UnexpectedOperand, TokenType::Identifier, 48, 51, "hgt".to_string()),
    ];
    assert_eq!(errors_actual, errors_expected);
}

#[test]
fn checker_syntax_08() {
    let code = ")a+b( -(g+h)(g-k))*()) + (-b(t-2*x*(5) + A[7][2-x]";

    let errors_actual: Vec<SyntaxError> =
        SyntaxAnalyzer::new(tokenize(code)).analyze();
    let errors_expected: Vec<SyntaxError> = vec![
        error(SyntaxErrorKind::UnmatchedParenthesis, TokenType::RightParenthesis, 0, 1),
        error(SyntaxErrorKind::UnexpectedParenthesis, TokenType::LeftParenthesis, 12, 13),
        error(SyntaxErrorKind::EmptyParentheses, TokenType::RightParenthesis, 20, 21),
        error(SyntaxErrorKind::UnmatchedParenthesis, TokenType::RightParenthesis, 21, 22),
        error(SyntaxErrorKind::UnmatchedParenthesis, TokenType::LeftParenthesis, 25, 26),
        error(SyntaxErrorKind::UnmatchedParenthesis, TokenType::LeftParenthesis, 28, 29),
    ];
    assert_eq!(errors_actual, errors_expected);
}

#[test]
fn checker_syntax_09() {
    let code = "2(t) - f2(t) + g()/h(2, )*func(-t/q, f(4-t), - (x+2)*(y-2))";

    let errors_actual: Vec<SyntaxError> =
        SyntaxAnalyzer::new(tokenize(code)).analyze();
    let errors_expected: Vec<SyntaxError> = vec![
        error_v(SyntaxErrorKind::UnexpectedFunctionName, TokenType::Number, 0, 1, "2".to_string()),
        error(SyntaxErrorKind::EmptyParentheses, TokenType::RightParenthesis, 17, 18),
        error(SyntaxErrorKind::MissingArgument, TokenType::Comma, 22, 23),
    ];
    assert_eq!(errors_actual, errors_expected);
}
