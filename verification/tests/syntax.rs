use expr_compiler::syntax::{SyntaxAnalyzer, SyntaxError, SyntaxErrorKind};
use expr_compiler::tokenizer::{tokenize, Token, TokenType};

fn error(kind: SyntaxErrorKind, token_kind: TokenType, start: usize, end: usize) -> SyntaxError {
    SyntaxError { token: Token { kind: token_kind, position: start..end, value: None }, kind }
}

fn error_v(
    kind: SyntaxErrorKind,
    token_kind: TokenType,
    start: usize,
    end: usize,
    value: String,
) -> SyntaxError {
    SyntaxError { token: Token { kind: token_kind, position: start..end, value: Some(value) }, kind }
}

#[test]
fn syntax_test_syntax_01() {
    let code = "-a ++ b - 2v*func((t+2 -, sin(x/*2.01.2), )/8(-)**";

    let errors_actual: Vec<SyntaxError> =
        SyntaxAnalyzer::new(&tokenize(code)).analyze();
    let errors_expected: Vec<SyntaxError> = vec![
        error(SyntaxErrorKind::UnexpectedOperator, TokenType::Plus, 4, 5),
        error_v(SyntaxErrorKind::InvalidVariableName, TokenType::Number, 10, 11, "2".to_string()),
        error(SyntaxErrorKind::UnmatchedParenthesis, TokenType::LeftParenthesis, 17, 18),
        error(SyntaxErrorKind::UnexpectedComma, TokenType::Comma, 24, 25),
        error(SyntaxErrorKind::UnexpectedOperator, TokenType::Asterisk, 32, 33),
        error(SyntaxErrorKind::UnexpectedDot, TokenType::Dot, 37, 38),
        error_v(SyntaxErrorKind::UnexpectedOperand, TokenType::Number, 38, 39, "2".to_string()),
        error(SyntaxErrorKind::MissingArgument, TokenType::Comma, 40, 41),
        error_v(SyntaxErrorKind::InvalidFunctionName, TokenType::Number, 44, 45, "8".to_string()),
        error(SyntaxErrorKind::UnexpectedOperator, TokenType::Minus, 46, 47),
        error(SyntaxErrorKind::UnexpectedParenthesis, TokenType::RightParenthesis, 47, 48),
        error(SyntaxErrorKind::UnexpectedOperator, TokenType::Asterisk, 49, 50),
        error(SyntaxErrorKind::UnexpectedEndOfExpression, TokenType::Asterisk, 49, 50),
    ];
    assert_eq!(errors_actual, errors_expected);
}

#[test]
fn syntax_test_syntax_02() {
    let code = "*a + nb -";

    let errors_actual: Vec<SyntaxError> =
        SyntaxAnalyzer::new(&tokenize(code)).analyze();
    let errors_expected: Vec<SyntaxError> = vec![
        error(SyntaxErrorKind::UnexpectedOperator, TokenType::Asterisk, 0, 1),
        error(SyntaxErrorKind::UnexpectedEndOfExpression, TokenType::Minus, 8, 9),
    ];
    assert_eq!(errors_actual, errors_expected);
}

#[test]
fn syntax_test_syntax_03() {
    let code = "a ++ nb /* k -+/ g";

    let errors_actual: Vec<SyntaxError> =
        SyntaxAnalyzer::new(&tokenize(code)).analyze();
    let errors_expected: Vec<SyntaxError> = vec![
        error(SyntaxErrorKind::UnexpectedOperator, TokenType::Plus, 3, 4),
        error(SyntaxErrorKind::UnexpectedOperator, TokenType::Asterisk, 9, 10),
        error(SyntaxErrorKind::UnexpectedOperator, TokenType::Plus, 14, 15),
        error(SyntaxErrorKind::UnexpectedOperator, TokenType::Slash, 15, 16),
    ];
    assert_eq!(errors_actual, errors_expected);
}

#[test]
fn syntax_test_syntax_04() {
    let code = "a^b$c - d#h + q%t + !b&(z|t)";

    let errors_actual: Vec<SyntaxError> =
        SyntaxAnalyzer::new(&tokenize(code)).analyze();
    let errors_expected: Vec<SyntaxError> = vec![
        error_v(SyntaxErrorKind::UnknownToken, TokenType::Unknown, 1, 2, "^".to_string()),
        error_v(SyntaxErrorKind::UnexpectedOperand, TokenType::Identifier, 2, 3, "b".to_string()),
        error_v(SyntaxErrorKind::UnknownToken, TokenType::Unknown, 3, 4, "$".to_string()),
        error_v(SyntaxErrorKind::UnexpectedOperand, TokenType::Identifier, 4, 5, "c".to_string()),
        error_v(SyntaxErrorKind::UnknownToken, TokenType::Unknown, 9, 10, "#".to_string()),
        error_v(SyntaxErrorKind::UnexpectedOperand, TokenType::Identifier, 10, 11, "h".to_string()),
    ];
    assert_eq!(errors_actual, errors_expected);
}

#[test]
fn syntax_test_syntax_05() {
    let code = "x + var1 + var_2 + _var_3 + var#4 + var!5
    + 6var_ + $7 + ?8";

    let errors_actual: Vec<SyntaxError> =
        SyntaxAnalyzer::new(&tokenize(code)).analyze();
    let errors_expected: Vec<SyntaxError> = vec![
        error_v(SyntaxErrorKind::UnknownToken, TokenType::Unknown, 31, 32, "#".to_string()),
        error_v(SyntaxErrorKind::UnexpectedOperand, TokenType::Number, 32, 33, "4".to_string()),
        error(SyntaxErrorKind::UnexpectedOperator, TokenType::ExclamationMark, 39, 40),
        error_v(SyntaxErrorKind::UnexpectedOperand, TokenType::Number, 40, 41, "5".to_string()),
        error(SyntaxErrorKind::UnexpectedNewLine, TokenType::NewLine, 41, 42),
        error_v(SyntaxErrorKind::InvalidVariableName, TokenType::Number, 48, 49, "6".to_string()),
        error_v(SyntaxErrorKind::UnknownToken, TokenType::Unknown, 56, 57, "$".to_string()),
        error_v(SyntaxErrorKind::UnknownToken, TokenType::Unknown, 61, 62, "?".to_string()),
    ];
    assert_eq!(errors_actual, errors_expected);
}

#[test]
fn syntax_test_syntax_06() {
    let code = "125 + 2nb - 0xAB * 0x0R + 0b010 * 0b20+ ABh * 0Rh + 010b*20b";

    let errors_actual: Vec<SyntaxError> =
        SyntaxAnalyzer::new(&tokenize(code)).analyze();
    let errors_expected: Vec<SyntaxError> = vec![
        error_v(SyntaxErrorKind::InvalidVariableName, TokenType::Number, 6, 7, "2".to_string()),
        error_v(SyntaxErrorKind::InvalidHexLiteral, TokenType::Identifier, 20, 23, "x0R".to_string()),
        error_v(SyntaxErrorKind::InvalidBinaryLiteral, TokenType::Identifier, 35, 38, "b20".to_string()),
        error_v(SyntaxErrorKind::InvalidVariableName, TokenType::Number, 46, 47, "0".to_string()),
        error_v(SyntaxErrorKind::InvalidVariableName, TokenType::Number, 52, 55, "010".to_string()),
        error_v(SyntaxErrorKind::InvalidVariableName, TokenType::Number, 57, 59, "20".to_string()),
    ];
    assert_eq!(errors_actual, errors_expected);
}

#[test]
fn syntax_test_syntax_07() {
    let code = "0.71/0.72.3 + .3 + 127.0.0.1*8. + 6.07ab - 9f.89hgt";

    let errors_actual: Vec<SyntaxError> =
        SyntaxAnalyzer::new(&tokenize(code)).analyze();
    let errors_expected: Vec<SyntaxError> = vec![
        error(SyntaxErrorKind::UnexpectedDot, TokenType::Dot, 9, 10),
        error_v(SyntaxErrorKind::UnexpectedOperand, TokenType::Number, 10, 11, "3".to_string()),
        error(SyntaxErrorKind::UnexpectedDot, TokenType::Dot, 14, 15),
        error(SyntaxErrorKind::UnexpectedDot, TokenType::Dot, 24, 25),
        error_v(SyntaxErrorKind::UnexpectedOperand, TokenType::Number, 25, 26, "0".to_string()),
        error(SyntaxErrorKind::UnexpectedDot, TokenType::Dot, 26, 27),
        error_v(SyntaxErrorKind::UnexpectedOperand, TokenType::Number, 27, 28, "1".to_string()),
        error(SyntaxErrorKind::InvalidFloat, TokenType::Dot, 30, 31),
        error_v(SyntaxErrorKind::UnexpectedOperand, TokenType::Identifier, 38, 40, "ab".to_string()),
        error_v(SyntaxErrorKind::InvalidVariableName, TokenType::Number, 43, 44, "9".to_string()),
        error(SyntaxErrorKind::UnexpectedDot, TokenType::Dot, 45, 46),
        error_v(SyntaxErrorKind::UnexpectedOperand, TokenType::Number, 46, 48, "89".to_string()),
        error_v(SyntaxErrorKind::UnexpectedOperand, TokenType::Identifier, 48, 51, "hgt".to_string()),
    ];
    assert_eq!(errors_actual, errors_expected);
}

#[test]
fn syntax_test_syntax_08() {
    let code = ")a+b( -(g+h)(g-k))*()) + (-b(t-2*x*(5) + A[7][2-x]";

    let errors_actual: Vec<SyntaxError> =
        SyntaxAnalyzer::new(&tokenize(code)).analyze();
    let errors_expected: Vec<SyntaxError> = vec![
        error(SyntaxErrorKind::UnexpectedParenthesis, TokenType::RightParenthesis, 0, 1),
        error(SyntaxErrorKind::UnmatchedParenthesis, TokenType::RightParenthesis, 0, 1),
        error(SyntaxErrorKind::UnexpectedParenthesis, TokenType::LeftParenthesis, 12, 13),
        error(SyntaxErrorKind::EmptyParentheses, TokenType::RightParenthesis, 20, 21),
        error(SyntaxErrorKind::UnmatchedParenthesis, TokenType::RightParenthesis, 21, 22),
        error(SyntaxErrorKind::UnmatchedParenthesis, TokenType::LeftParenthesis, 25, 26),
        error(SyntaxErrorKind::UnmatchedParenthesis, TokenType::LeftParenthesis, 28, 29),
    ];
    assert_eq!(errors_actual, errors_expected);
}

#[test]
fn syntax_test_syntax_09() {
    let code = "2(t) - f2(t) + g()/h(2, )*func(-t/q, f(4-t), - (x+2)*(y-2))";

    let errors_actual: Vec<SyntaxError> =
        SyntaxAnalyzer::new(&tokenize(code)).analyze();
    let errors_expected: Vec<SyntaxError> = vec![
        error_v(SyntaxErrorKind::InvalidFunctionName, TokenType::Number, 0, 1, "2".to_string()),
        error(SyntaxErrorKind::MissingArgument, TokenType::Comma, 22, 23),
    ];
    assert_eq!(errors_actual, errors_expected);
}

#[test]
fn test_syntax_10() {
    let code = "/a*b**c + m)*a*b + a*c - a*smn(j*k/m + m";

    let errors_actual: Vec<SyntaxError> =
        SyntaxAnalyzer::new(&tokenize(code)).analyze();
    let errors_expected: Vec<SyntaxError> = vec![
        error(SyntaxErrorKind::UnexpectedOperator, TokenType::Slash, 0, 1),
        error(SyntaxErrorKind::UnexpectedOperator, TokenType::Asterisk, 5, 6),
        error(SyntaxErrorKind::UnmatchedParenthesis, TokenType::RightParenthesis, 11, 12),
        error(SyntaxErrorKind::UnmatchedParenthesis, TokenType::LeftParenthesis, 30, 31),
    ];
    assert_eq!(errors_actual, errors_expected);
}

#[test]
fn test_syntax_11() {
    let code =
        "-cos(-&t))/(*(*f)(127.0.0.1, \"/dev/null\", (t==0)?4more_errors:b^2) - .5";

    let errors_actual: Vec<SyntaxError> =
        SyntaxAnalyzer::new(&tokenize(code)).analyze();
    let errors_expected: Vec<SyntaxError> = vec![
        error(SyntaxErrorKind::UnexpectedOperator, TokenType::Minus, 5, 6),
        error(SyntaxErrorKind::UnexpectedOperator, TokenType::Ampersand, 6, 7),
        error(SyntaxErrorKind::UnmatchedParenthesis, TokenType::RightParenthesis, 9, 10),
        error(SyntaxErrorKind::UnmatchedParenthesis, TokenType::LeftParenthesis, 11, 12),
        error(SyntaxErrorKind::UnexpectedOperator, TokenType::Asterisk, 12, 13),
        error(SyntaxErrorKind::UnexpectedOperator, TokenType::Asterisk, 14, 15),
        error(SyntaxErrorKind::UnexpectedParenthesis, TokenType::LeftParenthesis, 17, 18),
        error(SyntaxErrorKind::UnexpectedDot, TokenType::Dot, 23, 24),
        error_v(SyntaxErrorKind::UnexpectedOperand, TokenType::Number, 24, 25, "0".to_string()),
        error(SyntaxErrorKind::UnexpectedDot, TokenType::Dot, 25, 26),
        error_v(SyntaxErrorKind::UnexpectedOperand, TokenType::Number, 26, 27, "1".to_string()),
        error_v(SyntaxErrorKind::UnknownToken, TokenType::Unknown, 44, 45, "=".to_string()),
        error_v(SyntaxErrorKind::UnknownToken, TokenType::Unknown, 45, 46, "=".to_string()),
        error_v(SyntaxErrorKind::UnexpectedOperand, TokenType::Number, 46, 47, "0".to_string()),
        error_v(SyntaxErrorKind::UnknownToken, TokenType::Unknown, 48, 49, "?".to_string()),
        error_v(SyntaxErrorKind::UnexpectedOperand, TokenType::Number, 49, 50, "4".to_string()),
        error_v(SyntaxErrorKind::UnexpectedOperand, TokenType::Identifier, 50, 61, "more_errors".to_string()),
        error_v(SyntaxErrorKind::UnknownToken, TokenType::Unknown, 61, 62, ":".to_string()),
        error_v(SyntaxErrorKind::UnexpectedOperand, TokenType::Identifier, 62, 63, "b".to_string()),
        error_v(SyntaxErrorKind::UnknownToken, TokenType::Unknown, 63, 64, "^".to_string()),
        error_v(SyntaxErrorKind::UnexpectedOperand, TokenType::Number, 64, 65, "2".to_string()),
        error(SyntaxErrorKind::UnexpectedDot, TokenType::Dot, 69, 70),
    ];
    assert_eq!(errors_actual, errors_expected);
}

#[test]
fn test_syntax_12() {
    let code = "//(*0)- an*0p(a+b)-1.000.5//6(*f(-b, 1.8-0*(2-6) %1 + (++a)/(6x^2+4x-1) + d/dt*(smn(at+q)/(4cos(at)-ht^2)";

    let errors_actual: Vec<SyntaxError> =
        SyntaxAnalyzer::new(&tokenize(code)).analyze();
    let errors_expected: Vec<SyntaxError> = vec![
        error(SyntaxErrorKind::UnexpectedOperator, TokenType::Slash, 0, 1),
        error(SyntaxErrorKind::UnexpectedOperator, TokenType::Slash, 1, 2),
        error(SyntaxErrorKind::UnexpectedOperator, TokenType::Asterisk, 3, 4),
        error_v(SyntaxErrorKind::InvalidFunctionName, TokenType::Number, 11, 12, "0".to_string()),
        error(SyntaxErrorKind::UnexpectedDot, TokenType::Dot, 24, 25),
        error_v(SyntaxErrorKind::UnexpectedOperand, TokenType::Number, 25, 26, "5".to_string()),
        error(SyntaxErrorKind::UnexpectedOperator, TokenType::Slash, 27, 28),
        error_v(SyntaxErrorKind::InvalidFunctionName, TokenType::Number, 28, 29, "6".to_string()),
        error(SyntaxErrorKind::UnmatchedParenthesis, TokenType::LeftParenthesis, 29, 30),
        error(SyntaxErrorKind::UnexpectedOperator, TokenType::Asterisk, 30, 31),
        error(SyntaxErrorKind::UnmatchedParenthesis, TokenType::LeftParenthesis, 32, 33),
        error(SyntaxErrorKind::UnexpectedOperator, TokenType::Plus, 55, 56),
        error(SyntaxErrorKind::UnexpectedOperator, TokenType::Plus, 56, 57),
        error_v(SyntaxErrorKind::InvalidVariableName, TokenType::Number, 61, 62, "6".to_string()),
        error_v(SyntaxErrorKind::UnknownToken, TokenType::Unknown, 63, 64, "^".to_string()),
        error_v(SyntaxErrorKind::UnexpectedOperand, TokenType::Number, 64, 65, "2".to_string()),
        error_v(SyntaxErrorKind::InvalidVariableName, TokenType::Number, 66, 67, "4".to_string()),
        error(SyntaxErrorKind::UnmatchedParenthesis, TokenType::LeftParenthesis, 79, 80),
        error_v(SyntaxErrorKind::InvalidFunctionName, TokenType::Number, 91, 92, "4".to_string()),
        error_v(SyntaxErrorKind::UnknownToken, TokenType::Unknown, 102, 103, "^".to_string()),
        error_v(SyntaxErrorKind::UnexpectedOperand, TokenType::Number, 103, 104, "2".to_string()),
    ];
    assert_eq!(errors_actual, errors_expected);
}

#[test]
fn test_syntax_13() {
    let code = "-(-5x((int*)exp())/t - 3.14.15k/(2x^2-5x-1)*y - A[N*(i++)+j]";

    let errors_actual: Vec<SyntaxError> =
        SyntaxAnalyzer::new(&tokenize(code)).analyze();
    let errors_expected: Vec<SyntaxError> = vec![
        error(SyntaxErrorKind::UnmatchedParenthesis, TokenType::LeftParenthesis, 1, 2),
        error_v(SyntaxErrorKind::InvalidFunctionName, TokenType::Number, 3, 4, "5".to_string()),
        error(SyntaxErrorKind::UnexpectedParenthesis, TokenType::RightParenthesis, 11, 12),
        error_v(SyntaxErrorKind::UnexpectedOperand, TokenType::Identifier, 12, 15, "exp".to_string()),
        error(SyntaxErrorKind::UnexpectedDot, TokenType::Dot, 27, 28),
        error_v(SyntaxErrorKind::UnexpectedOperand, TokenType::Number, 28, 30, "15".to_string()),
        error_v(SyntaxErrorKind::UnexpectedOperand, TokenType::Identifier, 30, 31, "k".to_string()),
        error_v(SyntaxErrorKind::InvalidVariableName, TokenType::Number, 33, 34, "2".to_string()),
        error_v(SyntaxErrorKind::UnknownToken, TokenType::Unknown, 35, 36, "^".to_string()),
        error_v(SyntaxErrorKind::UnexpectedOperand, TokenType::Number, 36, 37, "2".to_string()),
        error_v(SyntaxErrorKind::InvalidVariableName, TokenType::Number, 38, 39, "5".to_string()),
        error(SyntaxErrorKind::UnexpectedOperator, TokenType::Plus, 55, 56),
        error(SyntaxErrorKind::UnexpectedParenthesis, TokenType::RightParenthesis, 56, 57),
    ];
    assert_eq!(errors_actual, errors_expected);
}

#[test]
fn test_syntax_14() {
    let code = "-(-exp(3et/4.0.2, 2i-1)/L + )((void*)*f()) + ((i++) + (++i/(i--))/k//) + 6.000.500.5";

    let errors_actual: Vec<SyntaxError> =
        SyntaxAnalyzer::new(&tokenize(code)).analyze();
    let errors_expected: Vec<SyntaxError> = vec![
        error_v(SyntaxErrorKind::InvalidVariableName, TokenType::Number, 7, 8, "3".to_string()),
        error(SyntaxErrorKind::UnexpectedDot, TokenType::Dot, 14, 15),
        error_v(SyntaxErrorKind::UnexpectedOperand, TokenType::Number, 15, 16, "2".to_string()),
        error_v(SyntaxErrorKind::InvalidVariableName, TokenType::Number, 18, 19, "2".to_string()),
        error(SyntaxErrorKind::UnexpectedParenthesis, TokenType::RightParenthesis, 28, 29),
        error(SyntaxErrorKind::UnexpectedParenthesis, TokenType::LeftParenthesis, 29, 30),
        error(SyntaxErrorKind::UnexpectedParenthesis, TokenType::RightParenthesis, 36, 37),
        error(SyntaxErrorKind::UnexpectedOperator, TokenType::Plus, 49, 50),
        error(SyntaxErrorKind::UnexpectedParenthesis, TokenType::RightParenthesis, 50, 51),
        error(SyntaxErrorKind::UnexpectedOperator, TokenType::Plus, 55, 56),
        error(SyntaxErrorKind::UnexpectedOperator, TokenType::Plus, 56, 57),
        error(SyntaxErrorKind::UnexpectedOperator, TokenType::Minus, 62, 63),
        error(SyntaxErrorKind::UnexpectedParenthesis, TokenType::RightParenthesis, 63, 64),
        error(SyntaxErrorKind::UnexpectedOperator, TokenType::Slash, 68, 69),
        error(SyntaxErrorKind::UnexpectedParenthesis, TokenType::RightParenthesis, 69, 70),
        error(SyntaxErrorKind::UnexpectedDot, TokenType::Dot, 78, 79),
        error_v(SyntaxErrorKind::UnexpectedOperand, TokenType::Number, 79, 82, "500".to_string()),
        error(SyntaxErrorKind::UnexpectedDot, TokenType::Dot, 82, 83),
        error_v(SyntaxErrorKind::UnexpectedOperand, TokenType::Number, 83, 84, "5".to_string()),
    ];
    assert_eq!(errors_actual, errors_expected);
}

#[test]
fn test_syntax_15() {
    let code = "**f(*k, -p+1, ))2.1.1 + 1.8q((-5x ++ i)";

    let errors_actual: Vec<SyntaxError> =
        SyntaxAnalyzer::new(&tokenize(code)).analyze();
    let errors_expected: Vec<SyntaxError> = vec![
        error(SyntaxErrorKind::UnexpectedOperator, TokenType::Asterisk, 0, 1),
        error(SyntaxErrorKind::UnexpectedOperator, TokenType::Asterisk, 1, 2),
        error(SyntaxErrorKind::UnexpectedOperator, TokenType::Asterisk, 4, 5),
        error(SyntaxErrorKind::MissingArgument, TokenType::Comma, 12, 13),
        error(SyntaxErrorKind::UnmatchedParenthesis, TokenType::RightParenthesis, 15, 16),
        error_v(SyntaxErrorKind::UnexpectedOperand, TokenType::Number, 16, 17, "2".to_string()),
        error(SyntaxErrorKind::UnexpectedDot, TokenType::Dot, 17, 18),
        error_v(SyntaxErrorKind::UnexpectedOperand, TokenType::Number, 18, 19, "1".to_string()),
        error(SyntaxErrorKind::UnexpectedDot, TokenType::Dot, 19, 20),
        error_v(SyntaxErrorKind::UnexpectedOperand, TokenType::Number, 20, 21, "1".to_string()),
        error_v(SyntaxErrorKind::UnexpectedOperand, TokenType::Identifier, 27, 28, "q".to_string()),
        error(SyntaxErrorKind::UnmatchedParenthesis, TokenType::LeftParenthesis, 28, 29),
        error_v(SyntaxErrorKind::InvalidVariableName, TokenType::Number, 31, 32, "5".to_string()),
        error(SyntaxErrorKind::UnexpectedOperator, TokenType::Plus, 35, 36),
    ];
    assert_eq!(errors_actual, errors_expected);
}

#[test]
fn test_syntax_16() {
    let code = "/.1(2x^2-5x+7)-(-i)+ (j++)/0 - )(*f)(2, 7-x, )/q + send(-(2x+7)/A[j, i], 127.0.0.1 ) + )/";

    let errors_actual: Vec<SyntaxError> =
        SyntaxAnalyzer::new(&tokenize(code)).analyze();
    let errors_expected: Vec<SyntaxError> = vec![
        error(SyntaxErrorKind::UnexpectedOperator, TokenType::Slash, 0, 1),
        error(SyntaxErrorKind::UnexpectedDot, TokenType::Dot, 1, 2),
        error_v(SyntaxErrorKind::InvalidFunctionName, TokenType::Number, 2, 3, "1".to_string()),
        error_v(SyntaxErrorKind::InvalidVariableName, TokenType::Number, 4, 5, "2".to_string()),
        error_v(SyntaxErrorKind::UnknownToken, TokenType::Unknown, 6, 7, "^".to_string()),
        error_v(SyntaxErrorKind::UnexpectedOperand, TokenType::Number, 7, 8, "2".to_string()),
        error_v(SyntaxErrorKind::InvalidVariableName, TokenType::Number, 9, 10, "5".to_string()),
        error(SyntaxErrorKind::UnexpectedOperator, TokenType::Plus, 24, 25),
        error(SyntaxErrorKind::UnexpectedParenthesis, TokenType::RightParenthesis, 25, 26),
        error(SyntaxErrorKind::UnexpectedParenthesis, TokenType::RightParenthesis, 31, 32),
        error(SyntaxErrorKind::UnmatchedParenthesis, TokenType::RightParenthesis, 31, 32),
        error(SyntaxErrorKind::UnexpectedParenthesis, TokenType::LeftParenthesis, 32, 33),
        error(SyntaxErrorKind::UnexpectedOperator, TokenType::Asterisk, 33, 34),
        error(SyntaxErrorKind::UnexpectedParenthesis, TokenType::LeftParenthesis, 36, 37),
        error(SyntaxErrorKind::MissingArgument, TokenType::Comma, 43, 44),
        error_v(SyntaxErrorKind::InvalidVariableName, TokenType::Number, 58, 59, "2".to_string()),
        error(SyntaxErrorKind::UnexpectedDot, TokenType::Dot, 78, 79),
        error_v(SyntaxErrorKind::UnexpectedOperand, TokenType::Number, 79, 80, "0".to_string()),
        error(SyntaxErrorKind::UnexpectedDot, TokenType::Dot, 80, 81),
        error_v(SyntaxErrorKind::UnexpectedOperand, TokenType::Number, 81, 82, "1".to_string()),
        error(SyntaxErrorKind::UnexpectedParenthesis, TokenType::RightParenthesis, 87, 88),
        error(SyntaxErrorKind::UnmatchedParenthesis, TokenType::RightParenthesis, 87, 88),
        error(SyntaxErrorKind::UnexpectedOperator, TokenType::Slash, 88, 89),
        error(SyntaxErrorKind::UnexpectedEndOfExpression, TokenType::Slash, 88, 89),
    ];
    assert_eq!(errors_actual, errors_expected);
}

#[test]
fn test_syntax_17() {
    let code =
        "*101*1#(t-q)(t+q)//dt - (int*)f(8t, -(k/h)A[i+6.]), exp(), ))(t-k*8.00.1/.0";

    let errors_actual: Vec<SyntaxError> =
        SyntaxAnalyzer::new(&tokenize(code)).analyze();
    let errors_expected: Vec<SyntaxError> = vec![
        error(SyntaxErrorKind::UnexpectedOperator, TokenType::Asterisk, 0, 1),
        error_v(SyntaxErrorKind::UnknownToken, TokenType::Unknown, 6, 7, "#".to_string()),
        error(SyntaxErrorKind::UnexpectedParenthesis, TokenType::LeftParenthesis, 7, 8),
        error(SyntaxErrorKind::UnexpectedParenthesis, TokenType::LeftParenthesis, 12, 13),
        error(SyntaxErrorKind::UnexpectedOperator, TokenType::Slash, 18, 19),
        error(SyntaxErrorKind::UnexpectedParenthesis, TokenType::RightParenthesis, 29, 30),
        error_v(SyntaxErrorKind::UnexpectedOperand, TokenType::Identifier, 30, 31, "f".to_string()),
        error_v(SyntaxErrorKind::InvalidVariableName, TokenType::Number, 32, 33, "8".to_string()),
        error_v(SyntaxErrorKind::UnexpectedOperand, TokenType::Identifier, 42, 43, "A".to_string()),
        error(SyntaxErrorKind::InvalidFloat, TokenType::Dot, 47, 48),
        error(SyntaxErrorKind::UnexpectedComma, TokenType::Comma, 50, 51),
        error(SyntaxErrorKind::UnexpectedComma, TokenType::Comma, 57, 58),
        error(SyntaxErrorKind::UnexpectedParenthesis, TokenType::RightParenthesis, 59, 60),
        error(SyntaxErrorKind::UnmatchedParenthesis, TokenType::RightParenthesis, 59, 60),
        error(SyntaxErrorKind::UnexpectedParenthesis, TokenType::RightParenthesis, 60, 61),
        error(SyntaxErrorKind::UnmatchedParenthesis, TokenType::RightParenthesis, 60, 61),
        error(SyntaxErrorKind::UnexpectedParenthesis, TokenType::LeftParenthesis, 61, 62),
        error(SyntaxErrorKind::UnmatchedParenthesis, TokenType::LeftParenthesis, 61, 62),
        error(SyntaxErrorKind::UnexpectedDot, TokenType::Dot, 70, 71),
        error_v(SyntaxErrorKind::UnexpectedOperand, TokenType::Number, 71, 72, "1".to_string()),
        error(SyntaxErrorKind::UnexpectedDot, TokenType::Dot, 73, 74),
    ];
    assert_eq!(errors_actual, errors_expected);
}

#[test]
fn test_syntax_18() {
    let code = "-(-5x((int*)exp())/t - \"sdds + 4.5+3";
    let errors_actual: Vec<SyntaxError> =
        SyntaxAnalyzer::new(&tokenize(code)).analyze();
    let errors_expected: Vec<SyntaxError> = vec![
        error(SyntaxErrorKind::UnmatchedParenthesis, TokenType::LeftParenthesis, 1, 2),
        error_v(SyntaxErrorKind::InvalidFunctionName, TokenType::Number, 3, 4, "5".to_string()),
        error(SyntaxErrorKind::UnexpectedParenthesis, TokenType::RightParenthesis, 11, 12),
        error_v(SyntaxErrorKind::UnexpectedOperand, TokenType::Identifier, 12, 15, "exp".to_string()),
        error(SyntaxErrorKind::UnmatchedQuotationMark, TokenType::QuotationMark, 23, 24),
    ];
    assert_eq!(errors_actual, errors_expected);
}
