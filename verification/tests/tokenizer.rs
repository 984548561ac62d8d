use expr_compiler::tokenizer::{tokenize, Token, TokenType};

fn tok(kind: TokenType, start: usize, end: usize) -> Token {
    Token { kind, position: start..end, value: None }
}

fn tok_v(kind: TokenType, value: String, start: usize, end: usize) -> Token {
    Token { kind, position: start..end, value: Some(value) }
}

#[test]
fn test_tokenize_01() {
    let code = "-a ++ b - 2v*func((t+2 -, sin(x/*2.01.2), )/8(-)**";

    let tokens_actual = tokenize(code);
    let tokens_expected = vec![
        tok(TokenType::Minus, 0, 1),
        tok_v(TokenType::Identifier, "a".to_string(), 1, 2),
        tok(TokenType::Plus, 3, 4),
        tok(TokenType::Plus, 4, 5),
        tok_v(TokenType::Identifier, "b".to_string(), 6, 7),
        tok(TokenType::Minus, 8, 9),
        tok_v(TokenType::Number, "2".to_string(), 10, 11),
        tok_v(TokenType::Identifier, "v".to_string(), 11, 12),
        tok(TokenType::Asterisk, 12, 13),
        tok_v(TokenType::Identifier, "func".to_string(), 13, 17),
        tok(TokenType::LeftParenthesis, 17, 18),
        tok(TokenType::LeftParenthesis, 18, 19),
        tok_v(TokenType::Identifier, "t".to_string(), 19, 20),
        tok(TokenType::Plus, 20, 21),
        tok_v(TokenType::Number, "2".to_string(), 21, 22),
        tok(TokenType::Minus, 23, 24),
        tok(TokenType::Comma, 24, 25),
        tok_v(TokenType::Identifier, "sin".to_string(), 26, 29),
        tok(TokenType::LeftParenthesis, 29, 30),
        tok_v(TokenType::Identifier, "x".to_string(), 30, 31),
        tok(TokenType::Slash, 31, 32),
        tok(TokenType::Asterisk, 32, 33),
        tok_v(TokenType::Number, "2".to_string(), 33, 34),
        tok(TokenType::Dot, 34, 35),
        tok_v(TokenType::Number, "01".to_string(), 35, 37),
        tok(TokenType::Dot, 37, 38),
        tok_v(TokenType::Number, "2".to_string(), 38, 39),
        tok(TokenType::RightParenthesis, 39, 40),
        tok(TokenType::Comma, 40, 41),
        tok(TokenType::RightParenthesis, 42, 43),
        tok(TokenType::Slash, 43, 44),
        tok_v(TokenType::Number, "8".to_string(), 44, 45),
        tok(TokenType::LeftParenthesis, 45, 46),
        tok(TokenType::Minus, 46, 47),
        tok(TokenType::RightParenthesis, 47, 48),
        tok(TokenType::Asterisk, 48, 49),
        tok(TokenType::Asterisk, 49, 50),
    ];

    assert_eq!(tokens_actual, tokens_expected);
}

#[test]
fn test_tokenize_02() {
    let code = "*a + nb -";

    let tokens_actual = tokenize(code);
    let tokens_expected = vec![
        tok(TokenType::Asterisk, 0, 1),
        tok_v(TokenType::Identifier, "a".to_string(), 1, 2),
        tok(TokenType::Plus, 3, 4),
        tok_v(TokenType::Identifier, "nb".to_string(), 5, 7),
        tok(TokenType::Minus, 8, 9),
    ];

    assert_eq!(tokens_actual, tokens_expected);
}

#[test]
fn test_tokenize_03() {
    let code = "a ++ nb /* k -+/ g";

    let tokens_actual = tokenize(code);
    let tokens_expected = vec![
        tok_v(TokenType::Identifier, "a".to_string(), 0, 1),
        tok(TokenType::Plus, 2, 3),
        tok(TokenType::Plus, 3, 4),
        tok_v(TokenType::Identifier, "nb".to_string(), 5, 7),
        tok(TokenType::Slash, 8, 9),
        tok(TokenType::Asterisk, 9, 10),
        tok_v(TokenType::Identifier, "k".to_string(), 11, 12),
        tok(TokenType::Minus, 13, 14),
        tok(TokenType::Plus, 14, 15),
        tok(TokenType::Slash, 15, 16),
        tok_v(TokenType::Identifier, "g".to_string(), 17, 18),
    ];

    assert_eq!(tokens_actual, tokens_expected);
}

#[test]
fn test_tokenize_04() {
    let code = "a^b$c - d#h + q%t + !b&(z|t)";

    let tokens_actual = tokenize(code);
    let tokens_expected = vec![
        tok_v(TokenType::Identifier, "a".to_string(), 0, 1),
        tok_v(TokenType::Unknown, '^'.to_string(), 1, 2),
        tok_v(TokenType::Identifier, "b".to_string(), 2, 3),
        tok_v(TokenType::Unknown, '$'.to_string(), 3, 4),
        tok_v(TokenType::Identifier, "c".to_string(), 4, 5),
        tok(TokenType::Minus, 6, 7),
        tok_v(TokenType::Identifier, "d".to_string(), 8, 9),
        tok_v(TokenType::Unknown, '#'.to_string(), 9, 10),
        tok_v(TokenType::Identifier, "h".to_string(), 10, 11),
        tok(TokenType::Plus, 12, 13),
        tok_v(TokenType::Identifier, "q".to_string(), 14, 15),
        tok(TokenType::Percent, 15, 16),
        tok_v(TokenType::Identifier, "t".to_string(), 16, 17),
        tok(TokenType::Plus, 18, 19),
        tok(TokenType::ExclamationMark, 20, 21),
        tok_v(TokenType::Identifier, "b".to_string(), 21, 22),
        tok(TokenType::Ampersand, 22, 23),
        tok(TokenType::LeftParenthesis, 23, 24),
        tok_v(TokenType::Identifier, "z".to_string(), 24, 25),
        tok(TokenType::Pipe, 25, 26),
        tok_v(TokenType::Identifier, "t".to_string(), 26, 27),
        tok(TokenType::RightParenthesis, 27, 28),
    ];

    assert_eq!(tokens_actual, tokens_expected);
}

#[test]
fn test_tokenize_05() {
    let code = "x + var1 + var_2 + _var_3 + var#4 + var!5 + 6var_ + $7 + ?8";

    let tokens_actual = tokenize(code);
    let tokens_expected = vec![
        tok_v(TokenType::Identifier, "x".to_string(), 0, 1),
        tok(TokenType::Plus, 2, 3),
        tok_v(TokenType::Identifier, "var1".to_string(), 4, 8),
        tok(TokenType::Plus, 9, 10),
        tok_v(TokenType::Identifier, "var_2".to_string(), 11, 16),
        tok(TokenType::Plus, 17, 18),
        tok_v(TokenType::Identifier, "_var_3".to_string(), 19, 25),
        tok(TokenType::Plus, 26, 27),
        tok_v(TokenType::Identifier, "var".to_string(), 28, 31),
        tok_v(TokenType::Unknown, '#'.to_string(), 31, 32),
        tok_v(TokenType::Number, "4".to_string(), 32, 33),
        tok(TokenType::Plus, 34, 35),
        tok_v(TokenType::Identifier, "var".to_string(), 36, 39),
        tok(TokenType::ExclamationMark, 39, 40),
        tok_v(TokenType::Number, "5".to_string(), 40, 41),
        tok(TokenType::Plus, 42, 43),
        tok_v(TokenType::Number, "6".to_string(), 44, 45),
        tok_v(TokenType::Identifier, "var_".to_string(), 45, 49),
        tok(TokenType::Plus, 50, 51),
        tok_v(TokenType::Unknown, '$'.to_string(), 52, 53),
        tok_v(TokenType::Number, "7".to_string(), 53, 54),
        tok(TokenType::Plus, 55, 56),
        tok_v(TokenType::Unknown, '?'.to_string(), 57, 58),
        tok_v(TokenType::Number, "8".to_string(), 58, 59),
    ];

    assert_eq!(tokens_actual, tokens_expected);
}

#[test]
fn test_tokenize_06() {
    let code = "125 + 2nb - 0xAB * 0x0R + 0b010 * 0b20 + ABh * 0Rh + 010b*20b";

    let tokens_actual = tokenize(code);
    let tokens_expected = vec![
        tok_v(TokenType::Number, "125".to_string(), 0, 3),
        tok(TokenType::Plus, 4, 5),
        tok_v(TokenType::Number, "2".to_string(), 6, 7),
        tok_v(TokenType::Identifier, "nb".to_string(), 7, 9),
        tok(TokenType::Minus, 10, 11),
        tok_v(TokenType::Number, "0".to_string(), 12, 13),
        tok_v(TokenType::Identifier, "xAB".to_string(), 13, 16),
        tok(TokenType::Asterisk, 17, 18),
        tok_v(TokenType::Number, "0".to_string(), 19, 20),
        tok_v(TokenType::Identifier, "x0R".to_string(), 20, 23),
        tok(TokenType::Plus, 24, 25),
        tok_v(TokenType::Number, "0".to_string(), 26, 27),
        tok_v(TokenType::Identifier, "b010".to_string(), 27, 31),
        tok(TokenType::Asterisk, 32, 33),
        tok_v(TokenType::Number, "0".to_string(), 34, 35),
        tok_v(TokenType::Identifier, "b20".to_string(), 35, 38),
        tok(TokenType::Plus, 39, 40),
        tok_v(TokenType::Identifier, "ABh".to_string(), 41, 44),
        tok(TokenType::Asterisk, 45, 46),
        tok_v(TokenType::Number, "0".to_string(), 47, 48),
        tok_v(TokenType::Identifier, "Rh".to_string(), 48, 50),
        tok(TokenType::Plus, 51, 52),
        tok_v(TokenType::Number, "010".to_string(), 53, 56),
        tok_v(TokenType::Identifier, "b".to_string(), 56, 57),
        tok(TokenType::Asterisk, 57, 58),
        tok_v(TokenType::Number, "20".to_string(), 58, 60),
        tok_v(TokenType::Identifier, "b".to_string(), 60, 61),
    ];

    assert_eq!(tokens_actual, tokens_expected);
}

#[test]
fn test_tokenize_07() {
    let code = "0.71/0.72.3 + .3 + 127.0.0.1*8. + 6.07ab - 9f.89hgt";

    let tokens_actual = tokenize(code);
    let tokens_expected = vec![
        tok_v(TokenType::Number, "0".to_string(), 0, 1),
        tok(TokenType::Dot, 1, 2),
        tok_v(TokenType::Number, "71".to_string(), 2, 4),
        tok(TokenType::Slash, 4, 5),
        tok_v(TokenType::Number, "0".to_string(), 5, 6),
        tok(TokenType::Dot, 6, 7),
        tok_v(TokenType::Number, "72".to_string(), 7, 9),
        tok(TokenType::Dot, 9, 10),
        tok_v(TokenType::Number, "3".to_string(), 10, 11),
        tok(TokenType::Plus, 12, 13),
        tok(TokenType::Dot, 14, 15),
        tok_v(TokenType::Number, "3".to_string(), 15, 16),
        tok(TokenType::Plus, 17, 18),
        tok_v(TokenType::Number, "127".to_string(), 19, 22),
        tok(TokenType::Dot, 22, 23),
        tok_v(TokenType::Number, "0".to_string(), 23, 24),
        tok(TokenType::Dot, 24, 25),
        tok_v(TokenType::Number, "0".to_string(), 25, 26),
        tok(TokenType::Dot, 26, 27),
        tok_v(TokenType::Number, "1".to_string(), 27, 28),
        tok(TokenType::Asterisk, 28, 29),
        tok_v(TokenType::Number, "8".to_string(), 29, 30),
        tok(TokenType::Dot, 30, 31),
        tok(TokenType::Plus, 32, 33),
        tok_v(TokenType::Number, "6".to_string(), 34, 35),
        tok(TokenType::Dot, 35, 36),
        tok_v(TokenType::Number, "07".to_string(), 36, 38),
        tok_v(TokenType::Identifier, "ab".to_string(), 38, 40),
        tok(TokenType::Minus, 41, 42),
        tok_v(TokenType::Number, "9".to_string(), 43, 44),
        tok_v(TokenType::Identifier, "f".to_string(), 44, 45),
        tok(TokenType::Dot, 45, 46),
        tok_v(TokenType::Number, "89".to_string(), 46, 48),
        tok_v(TokenType::Identifier, "hgt".to_string(), 48, 51),
    ];

    assert_eq!(tokens_actual, tokens_expected);
}

#[test]
fn test_tokenize_08() {
    let code = ")a+b( -(g+h)(g-k))*()) + (-b(t-2*x*(5) + A[7][2-x]";

    let tokens_actual = tokenize(code);
    let tokens_expected = vec![
        tok(TokenType::RightParenthesis, 0, 1),
        tok_v(TokenType::Identifier, "a".to_string(), 1, 2),
        tok(TokenType::Plus, 2, 3),
        tok_v(TokenType::Identifier, "b".to_string(), 3, 4),
        tok(TokenType::LeftParenthesis, 4, 5),
        tok(TokenType::Minus, 6, 7),
        tok(TokenType::LeftParenthesis, 7, 8),
        tok_v(TokenType::Identifier, "g".to_string(), 8, 9),
        tok(TokenType::Plus, 9, 10),
        tok_v(TokenType::Identifier, "h".to_string(), 10, 11),
        tok(TokenType::RightParenthesis, 11, 12),
        tok(TokenType::LeftParenthesis, 12, 13),
        tok_v(TokenType::Identifier, "g".to_string(), 13, 14),
        tok(TokenType::Minus, 14, 15),
        tok_v(TokenType::Identifier, "k".to_string(), 15, 16),
        tok(TokenType::RightParenthesis, 16, 17),
        tok(TokenType::RightParenthesis, 17, 18),
        tok(TokenType::Asterisk, 18, 19),
        tok(TokenType::LeftParenthesis, 19, 20),
        tok(TokenType::RightParenthesis, 20, 21),
        tok(TokenType::RightParenthesis, 21, 22),
        tok(TokenType::Plus, 23, 24),
        tok(TokenType::LeftParenthesis, 25, 26),
        tok(TokenType::Minus, 26, 27),
        tok_v(TokenType::Identifier, "b".to_string(), 27, 28),
        tok(TokenType::LeftParenthesis, 28, 29),
        tok_v(TokenType::Identifier, "t".to_string(), 29, 30),
        tok(TokenType::Minus, 30, 31),
        tok_v(TokenType::Number, "2".to_string(), 31, 32),
        tok(TokenType::Asterisk, 32, 33),
        tok_v(TokenType::Identifier, "x".to_string(), 33, 34),
        tok(TokenType::Asterisk, 34, 35),
        tok(TokenType::LeftParenthesis, 35, 36),
        tok_v(TokenType::Number, "5".to_string(), 36, 37),
        tok(TokenType::RightParenthesis, 37, 38),
        tok(TokenType::Plus, 39, 40),
        tok_v(TokenType::Identifier, "A".to_string(), 41, 42),
        tok(TokenType::LeftBracket, 42, 43),
        tok_v(TokenType::Number, "7".to_string(), 43, 44),
        tok(TokenType::RightBracket, 44, 45),
        tok(TokenType::LeftBracket, 45, 46),
        tok_v(TokenType::Number, "2".to_string(), 46, 47),
        tok(TokenType::Minus, 47, 48),
        tok_v(TokenType::Identifier, "x".to_string(), 48, 49),
        tok(TokenType::RightBracket, 49, 50),
    ];

    assert_eq!(tokens_actual, tokens_expected);
}

#[test]
fn test_tokenize_09() {
    let code = "2(t) - f2(t) + g()/h(2, )*func(-t/q, f(4-t), -(x+2)*(y-2))";

    let tokens_actual = tokenize(code);
    let tokens_expected = vec![
        tok_v(TokenType::Number, "2".to_string(), 0, 1),
        tok(TokenType::LeftParenthesis, 1, 2),
        tok_v(TokenType::Identifier, "t".to_string(), 2, 3),
        tok(TokenType::RightParenthesis, 3, 4),
        tok(TokenType::Minus, 5, 6),
        tok_v(TokenType::Identifier, "f2".to_string(), 7, 9),
        tok(TokenType::LeftParenthesis, 9, 10),
        tok_v(TokenType::Identifier, "t".to_string(), 10, 11),
        tok(TokenType::RightParenthesis, 11, 12),
        tok(TokenType::Plus, 13, 14),
        tok_v(TokenType::Identifier, "g".to_string(), 15, 16),
        tok(TokenType::LeftParenthesis, 16, 17),
        tok(TokenType::RightParenthesis, 17, 18),
        tok(TokenType::Slash, 18, 19),
        tok_v(TokenType::Identifier, "h".to_string(), 19, 20),
        tok(TokenType::LeftParenthesis, 20, 21),
        tok_v(TokenType::Number, "2".to_string(), 21, 22),
        tok(TokenType::Comma, 22, 23),
        tok(TokenType::RightParenthesis, 24, 25),
        tok(TokenType::Asterisk, 25, 26),
        tok_v(TokenType::Identifier, "func".to_string(), 26, 30),
        tok(TokenType::LeftParenthesis, 30, 31),
        tok(TokenType::Minus, 31, 32),
        tok_v(TokenType::Identifier, "t".to_string(), 32, 33),
        tok(TokenType::Slash, 33, 34),
        tok_v(TokenType::Identifier, "q".to_string(), 34, 35),
        tok(TokenType::Comma, 35, 36),
        tok_v(TokenType::Identifier, "f".to_string(), 37, 38),
        tok(TokenType::LeftParenthesis, 38, 39),
        tok_v(TokenType::Number, "4".to_string(), 39, 40),
        tok(TokenType::Minus, 40, 41),
        tok_v(TokenType::Identifier, "t".to_string(), 41, 42),
        tok(TokenType::RightParenthesis, 42, 43),
        tok(TokenType::Comma, 43, 44),
        tok(TokenType::Minus, 45, 46),
        tok(TokenType::LeftParenthesis, 46, 47),
        tok_v(TokenType::Identifier, "x".to_string(), 47, 48),
        tok(TokenType::Plus, 48, 49),
        tok_v(TokenType::Number, "2".to_string(), 49, 50),
        tok(TokenType::RightParenthesis, 50, 51),
        tok(TokenType::Asterisk, 51, 52),
        tok(TokenType::LeftParenthesis, 52, 53),
        tok_v(TokenType::Identifier, "y".to_string(), 53, 54),
        tok(TokenType::Minus, 54, 55),
        tok_v(TokenType::Number, "2".to_string(), 55, 56),
        tok(TokenType::RightParenthesis, 56, 57),
        tok(TokenType::RightParenthesis, 57, 58),
    ];

    assert_eq!(tokens_actual, tokens_expected);
}

#[test]
fn test_tokenize_10() {
    let code = "/a*b**c + m)*a*b + a*c - a*smn(j*k/m + m";

    let tokens_actual = tokenize(code);
    let tokens_expected = vec![
        tok(TokenType::Slash, 0, 1),
        tok_v(TokenType::Identifier, "a".to_string(), 1, 2),
        tok(TokenType::Asterisk, 2, 3),
        tok_v(TokenType::Identifier, "b".to_string(), 3, 4),
        tok(TokenType::Asterisk, 4, 5),
        tok(TokenType::Asterisk, 5, 6),
        tok_v(TokenType::Identifier, "c".to_string(), 6, 7),
        tok(TokenType::Plus, 8, 9),
        tok_v(TokenType::Identifier, "m".to_string(), 10, 11),
        tok(TokenType::RightParenthesis, 11, 12),
        tok(TokenType::Asterisk, 12, 13),
        tok_v(TokenType::Identifier, "a".to_string(), 13, 14),
        tok(TokenType::Asterisk, 14, 15),
        tok_v(TokenType::Identifier, "b".to_string(), 15, 16),
        tok(TokenType::Plus, 17, 18),
        tok_v(TokenType::Identifier, "a".to_string(), 19, 20),
        tok(TokenType::Asterisk, 20, 21),
        tok_v(TokenType::Identifier, "c".to_string(), 21, 22),
        tok(TokenType::Minus, 23, 24),
        tok_v(TokenType::Identifier, "a".to_string(), 25, 26),
        tok(TokenType::Asterisk, 26, 27),
        tok_v(TokenType::Identifier, "smn".to_string(), 27, 30),
        tok(TokenType::LeftParenthesis, 30, 31),
        tok_v(TokenType::Identifier, "j".to_string(), 31, 32),
        tok(TokenType::Asterisk, 32, 33),
        tok_v(TokenType::Identifier, "k".to_string(), 33, 34),
        tok(TokenType::Slash, 34, 35),
        tok_v(TokenType::Identifier, "m".to_string(), 35, 36),
        tok(TokenType::Plus, 37, 38),
        tok_v(TokenType::Identifier, "m".to_string(), 39, 40),
    ];

    assert_eq!(tokens_actual, tokens_expected);
}

#[test]
fn test_tokenize_11() {
    let code =
        "-cos(-&t))/(*(*f)(127.0.0.1, \"/dev/null\", (t==0)?4more_errors:b^2) - .5";

    let tokens_actual = tokenize(code);
    let tokens_expected = vec![
        tok(TokenType::Minus, 0, 1),
        tok_v(TokenType::Identifier, "cos".to_string(), 1, 4),
        tok(TokenType::LeftParenthesis, 4, 5),
        tok(TokenType::Minus, 5, 6),
        tok(TokenType::Ampersand, 6, 7),
        tok_v(TokenType::Identifier, "t".to_string(), 7, 8),
        tok(TokenType::RightParenthesis, 8, 9),
        tok(TokenType::RightParenthesis, 9, 10),
        tok(TokenType::Slash, 10, 11),
        tok(TokenType::LeftParenthesis, 11, 12),
        tok(TokenType::Asterisk, 12, 13),
        tok(TokenType::LeftParenthesis, 13, 14),
        tok(TokenType::Asterisk, 14, 15),
        tok_v(TokenType::Identifier, "f".to_string(), 15, 16),
        tok(TokenType::RightParenthesis, 16, 17),
        tok(TokenType::LeftParenthesis, 17, 18),
        tok_v(TokenType::Number, "127".to_string(), 18, 21),
        tok(TokenType::Dot, 21, 22),
        tok_v(TokenType::Number, "0".to_string(), 22, 23),
        tok(TokenType::Dot, 23, 24),
        tok_v(TokenType::Number, "0".to_string(), 24, 25),
        tok(TokenType::Dot, 25, 26),
        tok_v(TokenType::Number, "1".to_string(), 26, 27),
        tok(TokenType::Comma, 27, 28),
        tok(TokenType::QuotationMark, 29, 30),
        tok(TokenType::Slash, 30, 31),
        tok_v(TokenType::Identifier, "dev".to_string(), 31, 34),
        tok(TokenType::Slash, 34, 35),
        tok_v(TokenType::Identifier, "null".to_string(), 35, 39),
        tok(TokenType::QuotationMark, 39, 40),
        tok(TokenType::Comma, 40, 41),
        tok(TokenType::LeftParenthesis, 42, 43),
        tok_v(TokenType::Identifier, "t".to_string(), 43, 44),
        tok_v(TokenType::Unknown, '='.to_string(), 44, 45),
        tok_v(TokenType::Unknown, '='.to_string(), 45, 46),
        tok_v(TokenType::Number, "0".to_string(), 46, 47),
        tok(TokenType::RightParenthesis, 47, 48),
        tok_v(TokenType::Unknown, '?'.to_string(), 48, 49),
        tok_v(TokenType::Number, "4".to_string(), 49, 50),
        tok_v(TokenType::Identifier, "more_errors".to_string(), 50, 61),
        tok_v(TokenType::Unknown, ':'.to_string(), 61, 62),
        tok_v(TokenType::Identifier, "b".to_string(), 62, 63),
        tok_v(TokenType::Unknown, '^'.to_string(), 63, 64),
        tok_v(TokenType::Number, "2".to_string(), 64, 65),
        tok(TokenType::RightParenthesis, 65, 66),
        tok(TokenType::Minus, 67, 68),
        tok(TokenType::Dot, 69, 70),
        tok_v(TokenType::Number, "5".to_string(), 70, 71),
    ];

    assert_eq!(tokens_actual, tokens_expected);
}

#[test]
fn test_tokenize_12() {
    let code = "//(*0)- an*0p(a+b)-1.000.5//6(*f(-b, 1.8-0*(2-6) %1 + (++a)/(6x^2+4x-1) + d/dt*(smn(at+q)/(4cos(at)-ht^2)";

    let tokens_actual = tokenize(code);
    let tokens_expected = vec![
        tok(TokenType::Slash, 0, 1),
        tok(TokenType::Slash, 1, 2),
        tok(TokenType::LeftParenthesis, 2, 3),
        tok(TokenType::Asterisk, 3, 4),
        tok_v(TokenType::Number, "0".to_string(), 4, 5),
        tok(TokenType::RightParenthesis, 5, 6),
        tok(TokenType::Minus, 6, 7),
        tok_v(TokenType::Identifier, "an".to_string(), 8, 10),
        tok(TokenType::Asterisk, 10, 11),
        tok_v(TokenType::Number, "0".to_string(), 11, 12),
        tok_v(TokenType::Identifier, "p".to_string(), 12, 13),
        tok(TokenType::LeftParenthesis, 13, 14),
        tok_v(TokenType::Identifier, "a".to_string(), 14, 15),
        tok(TokenType::Plus, 15, 16),
        tok_v(TokenType::Identifier, "b".to_string(), 16, 17),
        tok(TokenType::RightParenthesis, 17, 18),
        tok(TokenType::Minus, 18, 19),
        tok_v(TokenType::Number, "1".to_string(), 19, 20),
        tok(TokenType::Dot, 20, 21),
        tok_v(TokenType::Number, "000".to_string(), 21, 24),
        tok(TokenType::Dot, 24, 25),
        tok_v(TokenType::Number, "5".to_string(), 25, 26),
        tok(TokenType::Slash, 26, 27),
        tok(TokenType::Slash, 27, 28),
        tok_v(TokenType::Number, "6".to_string(), 28, 29),
        tok(TokenType::LeftParenthesis, 29, 30),
        tok(TokenType::Asterisk, 30, 31),
        tok_v(TokenType::Identifier, "f".to_string(), 31, 32),
        tok(TokenType::LeftParenthesis, 32, 33),
        tok(TokenType::Minus, 33, 34),
        tok_v(TokenType::Identifier, "b".to_string(), 34, 35),
        tok(TokenType::Comma, 35, 36),
        tok_v(TokenType::Number, "1".to_string(), 37, 38),
        tok(TokenType::Dot, 38, 39),
        tok_v(TokenType::Number, "8".to_string(), 39, 40),
        tok(TokenType::Minus, 40, 41),
        tok_v(TokenType::Number, "0".to_string(), 41, 42),
        tok(TokenType::Asterisk, 42, 43),
        tok(TokenType::LeftParenthesis, 43, 44),
        tok_v(TokenType::Number, "2".to_string(), 44, 45),
        tok(TokenType::Minus, 45, 46),
        tok_v(TokenType::Number, "6".to_string(), 46, 47),
        tok(TokenType::RightParenthesis, 47, 48),
        tok(TokenType::Percent, 49, 50),
        tok_v(TokenType::Number, "1".to_string(), 50, 51),
        tok(TokenType::Plus, 52, 53),
        tok(TokenType::LeftParenthesis, 54, 55),
        tok(TokenType::Plus, 55, 56),
        tok(TokenType::Plus, 56, 57),
        tok_v(TokenType::Identifier, "a".to_string(), 57, 58),
        tok(TokenType::RightParenthesis, 58, 59),
        tok(TokenType::Slash, 59, 60),
        tok(TokenType::LeftParenthesis, 60, 61),
        tok_v(TokenType::Number, "6".to_string(), 61, 62),
        tok_v(TokenType::Identifier, "x".to_string(), 62, 63),
        tok_v(TokenType::Unknown, '^'.to_string(), 63, 64),
        tok_v(TokenType::Number, "2".to_string(), 64, 65),
        tok(TokenType::Plus, 65, 66),
        tok_v(TokenType::Number, "4".to_string(), 66, 67),
        tok_v(TokenType::Identifier, "x".to_string(), 67, 68),
        tok(TokenType::Minus, 68, 69),
        tok_v(TokenType::Number, "1".to_string(), 69, 70),
        tok(TokenType::RightParenthesis, 70, 71),
        tok(TokenType::Plus, 72, 73),
        tok_v(TokenType::Identifier, "d".to_string(), 74, 75),
        tok(TokenType::Slash, 75, 76),
        tok_v(TokenType::Identifier, "dt".to_string(), 76, 78),
        tok(TokenType::Asterisk, 78, 79),
        tok(TokenType::LeftParenthesis, 79, 80),
        tok_v(TokenType::Identifier, "smn".to_string(), 80, 83),
        tok(TokenType::LeftParenthesis, 83, 84),
        tok_v(TokenType::Identifier, "at".to_string(), 84, 86),
        tok(TokenType::Plus, 86, 87),
        tok_v(TokenType::Identifier, "q".to_string(), 87, 88),
        tok(TokenType::RightParenthesis, 88, 89),
        tok(TokenType::Slash, 89, 90),
        tok(TokenType::LeftParenthesis, 90, 91),
        tok_v(TokenType::Number, "4".to_string(), 91, 92),
        tok_v(TokenType::Identifier, "cos".to_string(), 92, 95),
        tok(TokenType::LeftParenthesis, 95, 96),
        tok_v(TokenType::Identifier, "at".to_string(), 96, 98),
        tok(TokenType::RightParenthesis, 98, 99),
        tok(TokenType::Minus, 99, 100),
        tok_v(TokenType::Identifier, "ht".to_string(), 100, 102),
        tok_v(TokenType::Unknown, '^'.to_string(), 102, 103),
        tok_v(TokenType::Number, "2".to_string(), 103, 104),
        tok(TokenType::RightParenthesis, 104, 105),
    ];

    assert_eq!(tokens_actual, tokens_expected);
}

#[test]
fn test_tokenize_13() {
    let code = "-(-5x((int*)exp())/t - 3.14.15k/(2x^2-5x-1)*y - A[N*(i++)+j]";

    let tokens_actual = tokenize(code);
    let tokens_expected = vec![
        tok(TokenType::Minus, 0, 1),
        tok(TokenType::LeftParenthesis, 1, 2),
        tok(TokenType::Minus, 2, 3),
        tok_v(TokenType::Number, "5".to_string(), 3, 4),
        tok_v(TokenType::Identifier, "x".to_string(), 4, 5),
        tok(TokenType::LeftParenthesis, 5, 6),
        tok(TokenType::LeftParenthesis, 6, 7),
        tok_v(TokenType::Identifier, "int".to_string(), 7, 10),
        tok(TokenType::Asterisk, 10, 11),
        tok(TokenType::RightParenthesis, 11, 12),
        tok_v(TokenType::Identifier, "exp".to_string(), 12, 15),
        tok(TokenType::LeftParenthesis, 15, 16),
        tok(TokenType::RightParenthesis, 16, 17),
        tok(TokenType::RightParenthesis, 17, 18),
        tok(TokenType::Slash, 18, 19),
        tok_v(TokenType::Identifier, "t".to_string(), 19, 20),
        tok(TokenType::Minus, 21, 22),
        tok_v(TokenType::Number, "3".to_string(), 23, 24),
        tok(TokenType::Dot, 24, 25),
        tok_v(TokenType::Number, "14".to_string(), 25, 27),
        tok(TokenType::Dot, 27, 28),
        tok_v(TokenType::Number, "15".to_string(), 28, 30),
        tok_v(TokenType::Identifier, "k".to_string(), 30, 31),
        tok(TokenType::Slash, 31, 32),
        tok(TokenType::LeftParenthesis, 32, 33),
        tok_v(TokenType::Number, "2".to_string(), 33, 34),
        tok_v(TokenType::Identifier, "x".to_string(), 34, 35),
        tok_v(TokenType::Unknown, '^'.to_string(), 35, 36),
        tok_v(TokenType::Number, "2".to_string(), 36, 37),
        tok(TokenType::Minus, 37, 38),
        tok_v(TokenType::Number, "5".to_string(), 38, 39),
        tok_v(TokenType::Identifier, "x".to_string(), 39, 40),
        tok(TokenType::Minus, 40, 41),
        tok_v(TokenType::Number, "1".to_string(), 41, 42),
        tok(TokenType::RightParenthesis, 42, 43),
        tok(TokenType::Asterisk, 43, 44),
        tok_v(TokenType::Identifier, "y".to_string(), 44, 45),
        tok(TokenType::Minus, 46, 47),
        tok_v(TokenType::Identifier, "A".to_string(), 48, 49),
        tok(TokenType::LeftBracket, 49, 50),
        tok_v(TokenType::Identifier, "N".to_string(), 50, 51),
        tok(TokenType::Asterisk, 51, 52),
        tok(TokenType::LeftParenthesis, 52, 53),
        tok_v(TokenType::Identifier, "i".to_string(), 53, 54),
        tok(TokenType::Plus, 54, 55),
        tok(TokenType::Plus, 55, 56),
        tok(TokenType::RightParenthesis, 56, 57),
        tok(TokenType::Plus, 57, 58),
        tok_v(TokenType::Identifier, "j".to_string(), 58, 59),
        tok(TokenType::RightBracket, 59, 60),
    ];

    assert_eq!(tokens_actual, tokens_expected);
}

#[test]
fn test_tokenize_14() {
    let code = "-(-exp(3et/4.0.2, 2i-1)/L + )((void*)*f()) + ((i++) + (++i/(i--))/k//) + 6.000.500.5";

    let tokens_actual = tokenize(code);
    let tokens_expected = vec![
        tok(TokenType::Minus, 0, 1),
        tok(TokenType::LeftParenthesis, 1, 2),
        tok(TokenType::Minus, 2, 3),
        tok_v(TokenType::Identifier, "exp".to_string(), 3, 6),
        tok(TokenType::LeftParenthesis, 6, 7),
        tok_v(TokenType::Number, "3".to_string(), 7, 8),
        tok_v(TokenType::Identifier, "et".to_string(), 8, 10),
        tok(TokenType::Slash, 10, 11),
        tok_v(TokenType::Number, "4".to_string(), 11, 12),
        tok(TokenType::Dot, 12, 13),
        tok_v(TokenType::Number, "0".to_string(), 13, 14),
        tok(TokenType::Dot, 14, 15),
        tok_v(TokenType::Number, "2".to_string(), 15, 16),
        tok(TokenType::Comma, 16, 17),
        tok_v(TokenType::Number, "2".to_string(), 18, 19),
        tok_v(TokenType::Identifier, "i".to_string(), 19, 20),
        tok(TokenType::Minus, 20, 21),
        tok_v(TokenType::Number, "1".to_string(), 21, 22),
        tok(TokenType::RightParenthesis, 22, 23),
        tok(TokenType::Slash, 23, 24),
        tok_v(TokenType::Identifier, "L".to_string(), 24, 25),
        tok(TokenType::Plus, 26, 27),
        tok(TokenType::RightParenthesis, 28, 29),
        tok(TokenType::LeftParenthesis, 29, 30),
        tok(TokenType::LeftParenthesis, 30, 31),
        tok_v(TokenType::Identifier, "void".to_string(), 31, 35),
        tok(TokenType::Asterisk, 35, 36),
        tok(TokenType::RightParenthesis, 36, 37),
        tok(TokenType::Asterisk, 37, 38),
        tok_v(TokenType::Identifier, "f".to_string(), 38, 39),
        tok(TokenType::LeftParenthesis, 39, 40),
        tok(TokenType::RightParenthesis, 40, 41),
        tok(TokenType::RightParenthesis, 41, 42),
        tok(TokenType::Plus, 43, 44),
        tok(TokenType::LeftParenthesis, 45, 46),
        tok(TokenType::LeftParenthesis, 46, 47),
        tok_v(TokenType::Identifier, "i".to_string(), 47, 48),
        tok(TokenType::Plus, 48, 49),
        tok(TokenType::Plus, 49, 50),
        tok(TokenType::RightParenthesis, 50, 51),
        tok(TokenType::Plus, 52, 53),
        tok(TokenType::LeftParenthesis, 54, 55),
        tok(TokenType::Plus, 55, 56),
        tok(TokenType::Plus, 56, 57),
        tok_v(TokenType::Identifier, "i".to_string(), 57, 58),
        tok(TokenType::Slash, 58, 59),
        tok(TokenType::LeftParenthesis, 59, 60),
        tok_v(TokenType::Identifier, "i".to_string(), 60, 61),
        tok(TokenType::Minus, 61, 62),
        tok(TokenType::Minus, 62, 63),
        tok(TokenType::RightParenthesis, 63, 64),
        tok(TokenType::RightParenthesis, 64, 65),
        tok(TokenType::Slash, 65, 66),
        tok_v(TokenType::Identifier, "k".to_string(), 66, 67),
        tok(TokenType::Slash, 67, 68),
        tok(TokenType::Slash, 68, 69),
        tok(TokenType::RightParenthesis, 69, 70),
        tok(TokenType::Plus, 71, 72),
        tok_v(TokenType::Number, "6".to_string(), 73, 74),
        tok(TokenType::Dot, 74, 75),
        tok_v(TokenType::Number, "000".to_string(), 75, 78),
        tok(TokenType::Dot, 78, 79),
        tok_v(TokenType::Number, "500".to_string(), 79, 82),
        tok(TokenType::Dot, 82, 83),
        tok_v(TokenType::Number, "5".to_string(), 83, 84),
    ];

    assert_eq!(tokens_actual, tokens_expected);
}

#[test]
fn test_tokenize_15() {
    let code = "**f(*k, -p+1, ))2.1.1 + 1.8q((-5x ++ i)";

    let tokens_actual = tokenize(code);
    let tokens_expected = vec![
        tok(TokenType::Asterisk, 0, 1),
        tok(TokenType::Asterisk, 1, 2),
        tok_v(TokenType::Identifier, "f".to_string(), 2, 3),
        tok(TokenType::LeftParenthesis, 3, 4),
        tok(TokenType::Asterisk, 4, 5),
        tok_v(TokenType::Identifier, "k".to_string(), 5, 6),
        tok(TokenType::Comma, 6, 7),
        tok(TokenType::Minus, 8, 9),
        tok_v(TokenType::Identifier, "p".to_string(), 9, 10),
        tok(TokenType::Plus, 10, 11),
        tok_v(TokenType::Number, "1".to_string(), 11, 12),
        tok(TokenType::Comma, 12, 13),
        tok(TokenType::RightParenthesis, 14, 15),
        tok(TokenType::RightParenthesis, 15, 16),
        tok_v(TokenType::Number, "2".to_string(), 16, 17),
        tok(TokenType::Dot, 17, 18),
        tok_v(TokenType::Number, "1".to_string(), 18, 19),
        tok(TokenType::Dot, 19, 20),
        tok_v(TokenType::Number, "1".to_string(), 20, 21),
        tok(TokenType::Plus, 22, 23),
        tok_v(TokenType::Number, "1".to_string(), 24, 25),
        tok(TokenType::Dot, 25, 26),
        tok_v(TokenType::Number, "8".to_string(), 26, 27),
        tok_v(TokenType::Identifier, "q".to_string(), 27, 28),
        tok(TokenType::LeftParenthesis, 28, 29),
        tok(TokenType::LeftParenthesis, 29, 30),
        tok(TokenType::Minus, 30, 31),
        tok_v(TokenType::Number, "5".to_string(), 31, 32),
        tok_v(TokenType::Identifier, "x".to_string(), 32, 33),
        tok(TokenType::Plus, 34, 35),
        tok(TokenType::Plus, 35, 36),
        tok_v(TokenType::Identifier, "i".to_string(), 37, 38),
        tok(TokenType::RightParenthesis, 38, 39),
    ];

    assert_eq!(tokens_actual, tokens_expected);
}

#[test]
fn test_tokenize_16() {
    let code = "/.1(2x^2-5x+7)-(-i)+ (j++)/0 - )(*f)(2, 7-x, )/q + send(-(2x+7)/A[j, i], 127.0.0.1 ) + )/";

    let tokens_actual = tokenize(code);
    let tokens_expected = vec![
        tok(TokenType::Slash, 0, 1),
        tok(TokenType::Dot, 1, 2),
        tok_v(TokenType::Number, "1".to_string(), 2, 3),
        tok(TokenType::LeftParenthesis, 3, 4),
        tok_v(TokenType::Number, "2".to_string(), 4, 5),
        tok_v(TokenType::Identifier, "x".to_string(), 5, 6),
        tok_v(TokenType::Unknown, '^'.to_string(), 6, 7),
        tok_v(TokenType::Number, "2".to_string(), 7, 8),
        tok(TokenType::Minus, 8, 9),
        tok_v(TokenType::Number, "5".to_string(), 9, 10),
        tok_v(TokenType::Identifier, "x".to_string(), 10, 11),
        tok(TokenType::Plus, 11, 12),
        tok_v(TokenType::Number, "7".to_string(), 12, 13),
        tok(TokenType::RightParenthesis, 13, 14),
        tok(TokenType::Minus, 14, 15),
        tok(TokenType::LeftParenthesis, 15, 16),
        tok(TokenType::Minus, 16, 17),
        tok_v(TokenType::Identifier, "i".to_string(), 17, 18),
        tok(TokenType::RightParenthesis, 18, 19),
        tok(TokenType::Plus, 19, 20),
        tok(TokenType::LeftParenthesis, 21, 22),
        tok_v(TokenType::Identifier, "j".to_string(), 22, 23),
        tok(TokenType::Plus, 23, 24),
        tok(TokenType::Plus, 24, 25),
        tok(TokenType::RightParenthesis, 25, 26),
        tok(TokenType::Slash, 26, 27),
        tok_v(TokenType::Number, "0".to_string(), 27, 28),
        tok(TokenType::Minus, 29, 30),
        tok(TokenType::RightParenthesis, 31, 32),
        tok(TokenType::LeftParenthesis, 32, 33),
        tok(TokenType::Asterisk, 33, 34),
        tok_v(TokenType::Identifier, "f".to_string(), 34, 35),
        tok(TokenType::RightParenthesis, 35, 36),
        tok(TokenType::LeftParenthesis, 36, 37),
        tok_v(TokenType::Number, "2".to_string(), 37, 38),
        tok(TokenType::Comma, 38, 39),
        tok_v(TokenType::Number, "7".to_string(), 40, 41),
        tok(TokenType::Minus, 41, 42),
        tok_v(TokenType::Identifier, "x".to_string(), 42, 43),
        tok(TokenType::Comma, 43, 44),
        tok(TokenType::RightParenthesis, 45, 46),
        tok(TokenType::Slash, 46, 47),
        tok_v(TokenType::Identifier, "q".to_string(), 47, 48),
        tok(TokenType::Plus, 49, 50),
        tok_v(TokenType::Identifier, "send".to_string(), 51, 55),
        tok(TokenType::LeftParenthesis, 55, 56),
        tok(TokenType::Minus, 56, 57),
        tok(TokenType::LeftParenthesis, 57, 58),
        tok_v(TokenType::Number, "2".to_string(), 58, 59),
        tok_v(TokenType::Identifier, "x".to_string(), 59, 60),
        tok(TokenType::Plus, 60, 61),
        tok_v(TokenType::Number, "7".to_string(), 61, 62),
        tok(TokenType::RightParenthesis, 62, 63),
        tok(TokenType::Slash, 63, 64),
        tok_v(TokenType::Identifier, "A".to_string(), 64, 65),
        tok(TokenType::LeftBracket, 65, 66),
        tok_v(TokenType::Identifier, "j".to_string(), 66, 67),
        tok(TokenType::Comma, 67, 68),
        tok_v(TokenType::Identifier, "i".to_string(), 69, 70),
        tok(TokenType::RightBracket, 70, 71),
        tok(TokenType::Comma, 71, 72),
        tok_v(TokenType::Number, "127".to_string(), 73, 76),
        tok(TokenType::Dot, 76, 77),
        tok_v(TokenType::Number, "0".to_string(), 77, 78),
        tok(TokenType::Dot, 78, 79),
        tok_v(TokenType::Number, "0".to_string(), 79, 80),
        tok(TokenType::Dot, 80, 81),
        tok_v(TokenType::Number, "1".to_string(), 81, 82),
        tok(TokenType::RightParenthesis, 83, 84),
        tok(TokenType::Plus, 85, 86),
        tok(TokenType::RightParenthesis, 87, 88),
        tok(TokenType::Slash, 88, 89),
    ];

    assert_eq!(tokens_actual, tokens_expected);
}

#[test]
fn test_tokenize_17() {
    let code =
        "*101*1#(t-q)(t+q)//dt - (int*)f(8t, -(k/h)A[i+6.]), exp(), ))(t-k*8.00.1/.0";

    let tokens_actual = tokenize(code);
    let tokens_expected = vec![
        tok(TokenType::Asterisk, 0, 1),
        tok_v(TokenType::Number, "101".to_string(), 1, 4),
        tok(TokenType::Asterisk, 4, 5),
        tok_v(TokenType::Number, "1".to_string(), 5, 6),
        tok_v(TokenType::Unknown, '#'.to_string(), 6, 7),
        tok(TokenType::LeftParenthesis, 7, 8),
        tok_v(TokenType::Identifier, "t".to_string(), 8, 9),
        tok(TokenType::Minus, 9, 10),
        tok_v(TokenType::Identifier, "q".to_string(), 10, 11),
        tok(TokenType::RightParenthesis, 11, 12),
        tok(TokenType::LeftParenthesis, 12, 13),
        tok_v(TokenType::Identifier, "t".to_string(), 13, 14),
        tok(TokenType::Plus, 14, 15),
        tok_v(TokenType::Identifier, "q".to_string(), 15, 16),
        tok(TokenType::RightParenthesis, 16, 17),
        tok(TokenType::Slash, 17, 18),
        tok(TokenType::Slash, 18, 19),
        tok_v(TokenType::Identifier, "dt".to_string(), 19, 21),
        tok(TokenType::Minus, 22, 23),
        tok(TokenType::LeftParenthesis, 24, 25),
        tok_v(TokenType::Identifier, "int".to_string(), 25, 28),
        tok(TokenType::Asterisk, 28, 29),
        tok(TokenType::RightParenthesis, 29, 30),
        tok_v(TokenType::Identifier, "f".to_string(), 30, 31),
        tok(TokenType::LeftParenthesis, 31, 32),
        tok_v(TokenType::Number, "8".to_string(), 32, 33),
        tok_v(TokenType::Identifier, "t".to_string(), 33, 34),
        tok(TokenType::Comma, 34, 35),
        tok(TokenType::Minus, 36, 37),
        tok(TokenType::LeftParenthesis, 37, 38),
        tok_v(TokenType::Identifier, "k".to_string(), 38, 39),
        tok(TokenType::Slash, 39, 40),
        tok_v(TokenType::Identifier, "h".to_string(), 40, 41),
        tok(TokenType::RightParenthesis, 41, 42),
        tok_v(TokenType::Identifier, "A".to_string(), 42, 43),
        tok(TokenType::LeftBracket, 43, 44),
        tok_v(TokenType::Identifier, "i".to_string(), 44, 45),
        tok(TokenType::Plus, 45, 46),
        tok_v(TokenType::Number, "6".to_string(), 46, 47),
        tok(TokenType::Dot, 47, 48),
        tok(TokenType::RightBracket, 48, 49),
        tok(TokenType::RightParenthesis, 49, 50),
        tok(TokenType::Comma, 50, 51),
        tok_v(TokenType::Identifier, "exp".to_string(), 52, 55),
        tok(TokenType::LeftParenthesis, 55, 56),
        tok(TokenType::RightParenthesis, 56, 57),
        tok(TokenType::Comma, 57, 58),
        tok(TokenType::RightParenthesis, 59, 60),
        tok(TokenType::RightParenthesis, 60, 61),
        tok(TokenType::LeftParenthesis, 61, 62),
        tok_v(TokenType::Identifier, "t".to_string(), 62, 63),
        tok(TokenType::Minus, 63, 64),
        tok_v(TokenType::Identifier, "k".to_string(), 64, 65),
        tok(TokenType::Asterisk, 65, 66),
        tok_v(TokenType::Number, "8".to_string(), 66, 67),
        tok(TokenType::Dot, 67, 68),
        tok_v(TokenType::Number, "00".to_string(), 68, 70),
        tok(TokenType::Dot, 70, 71),
        tok_v(TokenType::Number, "1".to_string(), 71, 72),
        tok(TokenType::Slash, 72, 73),
        tok(TokenType::Dot, 73, 74),
        tok_v(TokenType::Number, "0".to_string(), 74, 75),
    ];

    assert_eq!(tokens_actual, tokens_expected);
}
