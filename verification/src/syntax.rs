//! Syntax analysis of a token stream: finds operator/operand misplacements,
//! bad literals, unbalanced parentheses, brackets and quotation marks.
use vstd::prelude::*;
use crate::chars::{collect_chars, push_str};
use crate::tokenizer::{Token, TokenType, TokenView, lemma_token_views_push, token_views};
use crate::sorting::{insert_by, lemma_insert_at, lemma_sort_by_sorted, sort_by, sorted_by};

verus! {

/// Kinds of syntax errors.
#[derive(Debug, Clone, Copy, PartialEq, Eq, Structural)]
pub enum SyntaxErrorKind {
    EmptyBrackets,
    EmptyParentheses,
    InvalidBinaryLiteral,
    InvalidFloat,
    InvalidFunctionName,
    InvalidHexLiteral,
    InvalidVariableName,
    MissingArgument,
    UnexpectedBrackets,
    UnexpectedComma,
    UnexpectedDot,
    UnexpectedEndOfExpression,
    UnexpectedNewLine,
    UnexpectedOperand,
    UnexpectedOperator,
    UnexpectedParenthesis,
    UnknownToken,
    UnmatchedBrackets,
    UnmatchedParenthesis,
    UnmatchedQuotationMark,
}

/// A syntax error: its kind and the token it points at.
#[derive(Debug, PartialEq, Eq)]
pub struct SyntaxError {
    pub token: Token,
    pub kind: SyntaxErrorKind,
}

pub struct ErrorView {
    pub kind: SyntaxErrorKind,
    pub token: TokenView,
}

impl View for SyntaxError {
    type V = ErrorView;

    open spec fn view(&self) -> ErrorView {
        ErrorView { kind: self.kind, token: self.token@ }
    }
}

pub open spec fn error_views(errors: Seq<SyntaxError>) -> Seq<ErrorView> {
    errors.map_values(|e: SyntaxError| e@)
}

pub proof fn lemma_error_views_push(s: Seq<SyntaxError>, e: SyntaxError)
    ensures
        error_views(s.push(e)) == error_views(s).push(e@),
{
    assert(error_views(s.push(e)) =~= error_views(s).push(e@));
}

pub proof fn lemma_error_views_subrange(s: Seq<SyntaxError>, a: int, b: int)
    requires
        0 <= a <= b <= s.len(),
    ensures
        error_views(s.subrange(a, b)) == error_views(s).subrange(a, b),
{
    assert(error_views(s.subrange(a, b)) =~= error_views(s).subrange(a, b));
}

/// The text of a message that may quote the token's text: `plain` when the
/// token has none, otherwise `before`, the text, then `after`.
pub open spec fn quoting(t: TokenView, plain: Seq<char>, before: Seq<char>, after: Seq<char>) -> Seq<char> {
    match t.value {
        Some(v) => before + v + after,
        None => plain,
    }
}

/// The message of each error.
pub open spec fn message_text(e: ErrorView) -> Seq<char> {
    match e.kind {
        SyntaxErrorKind::EmptyBrackets => "Empty array access."@,
        SyntaxErrorKind::EmptyParentheses => "Empty function or grouping."@,
        SyntaxErrorKind::InvalidBinaryLiteral => quoting(e.token, "Invalid binary literal."@, "Invalid binary literal '0"@, "'."@),
        SyntaxErrorKind::InvalidFloat => "Invalid float."@,
        SyntaxErrorKind::InvalidFunctionName => quoting(e.token, "Unexpected function name."@, "Unexpected function name '"@, "'."@),
        SyntaxErrorKind::InvalidHexLiteral => quoting(e.token, "Invalid hexadecimal literal."@, "Invalid hexadecimal literal '0"@, "'."@),
        SyntaxErrorKind::InvalidVariableName => "Invalid variable name."@,
        SyntaxErrorKind::MissingArgument => "Missing function argument."@,
        SyntaxErrorKind::UnexpectedBrackets => "Unexpected brackets."@,
        SyntaxErrorKind::UnexpectedComma => "Unexpected comma."@,
        SyntaxErrorKind::UnexpectedDot => "Unexpected dot."@,
        SyntaxErrorKind::UnexpectedEndOfExpression => "Unexpected end of expression."@,
        SyntaxErrorKind::UnexpectedNewLine => "Unexpected newline."@,
        SyntaxErrorKind::UnexpectedOperand => quoting(e.token, "Unexpected operand."@, "Unexpected operand '"@, "'."@),
        SyntaxErrorKind::UnexpectedOperator => "Unexpected operator."@,
        SyntaxErrorKind::UnexpectedParenthesis => "Unexpected parenthesis."@,
        SyntaxErrorKind::UnknownToken => "Unknown token."@,
        SyntaxErrorKind::UnmatchedBrackets => "Unmatched brackets."@,
        SyntaxErrorKind::UnmatchedParenthesis => "Unmatched parenthesis."@,
        SyntaxErrorKind::UnmatchedQuotationMark => "Unmatched quotation mark."@,
    }
}

/// Writes `plain`, or `before`, the token's text and `after` when it has one.
pub(crate) fn quote_token(t: &Token, plain: &str, before: &str, after: &str) -> (r: String)
    ensures
        r@ == quoting(t@, plain@, before@, after@),
{
    let mut s = String::new();
    match &t.value {
        Some(v) => {
            push_str(&mut s, before);
            push_str(&mut s, v.as_str());
            push_str(&mut s, after);
        },
        None => {
            push_str(&mut s, plain);
        },
    }
    proof {
        assert(s@ =~= quoting(t@, plain@, before@, after@));
    }
    s
}

pub(crate) fn text(t: &str) -> (r: String)
    ensures
        r@ == t@,
{
    let mut s = String::new();
    push_str(&mut s, t);
    proof {
        assert(s@ =~= t@);
    }
    s
}

impl SyntaxError {
    /// The error's message, such as `Unexpected operand 'b'.`.
    pub fn message(&self) -> (r: String)
        ensures
            r@ == message_text(self@),
    {
        match self.kind {
            SyntaxErrorKind::EmptyBrackets => text("Empty array access."),
            SyntaxErrorKind::EmptyParentheses => text("Empty function or grouping."),
            SyntaxErrorKind::InvalidBinaryLiteral => quote_token(&self.token, "Invalid binary literal.", "Invalid binary literal '0", "'."),
            SyntaxErrorKind::InvalidFloat => text("Invalid float."),
            SyntaxErrorKind::InvalidFunctionName => quote_token(&self.token, "Unexpected function name.", "Unexpected function name '", "'."),
            SyntaxErrorKind::InvalidHexLiteral => quote_token(&self.token, "Invalid hexadecimal literal.", "Invalid hexadecimal literal '0", "'."),
            SyntaxErrorKind::InvalidVariableName => text("Invalid variable name."),
            SyntaxErrorKind::MissingArgument => text("Missing function argument."),
            SyntaxErrorKind::UnexpectedBrackets => text("Unexpected brackets."),
            SyntaxErrorKind::UnexpectedComma => text("Unexpected comma."),
            SyntaxErrorKind::UnexpectedDot => text("Unexpected dot."),
            SyntaxErrorKind::UnexpectedEndOfExpression => text("Unexpected end of expression."),
            SyntaxErrorKind::UnexpectedNewLine => text("Unexpected newline."),
            SyntaxErrorKind::UnexpectedOperand => quote_token(&self.token, "Unexpected operand.", "Unexpected operand '", "'."),
            SyntaxErrorKind::UnexpectedOperator => text("Unexpected operator."),
            SyntaxErrorKind::UnexpectedParenthesis => text("Unexpected parenthesis."),
            SyntaxErrorKind::UnknownToken => text("Unknown token."),
            SyntaxErrorKind::UnmatchedBrackets => text("Unmatched brackets."),
            SyntaxErrorKind::UnmatchedParenthesis => text("Unmatched parenthesis."),
            SyntaxErrorKind::UnmatchedQuotationMark => text("Unmatched quotation mark."),
        }
    }
}

/// What the analyzer expects next.
#[derive(Debug, Default, Clone, Copy)]
pub struct Status {
    pub expect_operand: bool,
    pub expect_operator: bool,
    pub in_string: bool,
}

/// The state of the analysis after some tokens have been read.
pub struct AnalysisState {
    pub index: int,
    pub expect_operand: bool,
    pub expect_operator: bool,
    pub in_string: bool,
    pub brackets: Seq<TokenView>,
    pub parens: Seq<TokenView>,
    pub quotes: Seq<TokenView>,
    pub errors: Seq<ErrorView>,
}

pub open spec fn initial_state() -> AnalysisState {
    AnalysisState {
        index: 0,
        expect_operand: true,
        expect_operator: false,
        in_string: false,
        brackets: Seq::empty(),
        parens: Seq::empty(),
        quotes: Seq::empty(),
        errors: Seq::empty(),
    }
}

pub open spec fn kind_at(ts: Seq<TokenView>, i: int, k: TokenType) -> bool {
    0 <= i < ts.len() && ts[i].kind == k
}

pub open spec fn err(kind: SyntaxErrorKind, t: TokenView) -> ErrorView {
    ErrorView { kind, token: t }
}

pub open spec fn with_error(s: AnalysisState, e: ErrorView) -> AnalysisState {
    AnalysisState { errors: s.errors.push(e), ..s }
}

/// Moves past `n` tokens, leaving the analyzer after an operand.
pub open spec fn after_operand(s: AnalysisState, n: int) -> AnalysisState {
    AnalysisState { index: s.index + n, expect_operand: false, expect_operator: true, ..s }
}

/// Moves past one token, leaving the analyzer waiting for an operand.
pub open spec fn await_operand(s: AnalysisState) -> AnalysisState {
    AnalysisState { index: s.index + 1, expect_operand: true, expect_operator: false, ..s }
}

pub open spec fn skip(s: AnalysisState) -> AnalysisState {
    AnalysisState { index: s.index + 1, ..s }
}

pub open spec fn is_radix_mark(c: char) -> bool {
    c == 'x' || c == 'X' || c == 'b' || c == 'B'
}

pub open spec fn is_hex_digit(c: char) -> bool {
    ('0' <= c && c <= '9') || ('a' <= c && c <= 'f') || ('A' <= c && c <= 'F')
}

pub open spec fn is_binary_digit(c: char) -> bool {
    c == '0' || c == '1'
}

/// `0` followed by an identifier such as `x1F` or `b101` forms a prefixed
/// literal.
pub open spec fn radix_literal(number: TokenView, next: TokenView) -> bool {
    &&& number.value == Some(seq!['0'])
    &&& next.kind == TokenType::Identifier
    &&& next.value is Some
    &&& next.value->0.len() > 1
    &&& is_radix_mark(next.value->0[0])
}

pub open spec fn hex_ok(v: Seq<char>) -> bool {
    forall|k: int| 1 <= k < v.len() ==> is_hex_digit(#[trigger] v[k])
}

pub open spec fn binary_ok(v: Seq<char>) -> bool {
    forall|k: int| 1 <= k < v.len() ==> is_binary_digit(#[trigger] v[k])
}

pub open spec fn is_operator_kind(k: TokenType) -> bool {
    k == TokenType::Plus || k == TokenType::Minus || k == TokenType::Asterisk || k == TokenType::Slash
        || k == TokenType::Percent || k == TokenType::Ampersand || k == TokenType::Pipe
}

/// Reads a number token.
pub open spec fn step_number(ts: Seq<TokenView>, s: AnalysisState) -> AnalysisState {
    let i = s.index;
    let t = ts[i];
    if !s.expect_operand {
        skip(with_error(s, err(SyntaxErrorKind::UnexpectedOperand, t)))
    } else if i + 1 < ts.len() && radix_literal(t, ts[i + 1]) {
        let next = ts[i + 1];
        let v = next.value->0;
        let s1 = if (v[0] == 'x' || v[0] == 'X') && !hex_ok(v) {
            with_error(s, err(SyntaxErrorKind::InvalidHexLiteral, next))
        } else if (v[0] == 'b' || v[0] == 'B') && !binary_ok(v) {
            with_error(s, err(SyntaxErrorKind::InvalidBinaryLiteral, next))
        } else {
            s
        };
        after_operand(s1, 2)
    } else if kind_at(ts, i + 1, TokenType::Dot) {
        if i + 2 < ts.len() {
            if ts[i + 2].kind == TokenType::Number {
                after_operand(s, 3)
            } else {
                after_operand(with_error(s, err(SyntaxErrorKind::InvalidFloat, ts[i + 1])), 2)
            }
        } else {
            after_operand(with_error(s, err(SyntaxErrorKind::UnexpectedOperator, ts[i + 1])), 2)
        }
    } else if kind_at(ts, i + 1, TokenType::Identifier) {
        if kind_at(ts, i + 2, TokenType::LeftParenthesis) {
            after_operand(with_error(s, err(SyntaxErrorKind::InvalidFunctionName, t)), 2)
        } else {
            after_operand(with_error(s, err(SyntaxErrorKind::InvalidVariableName, t)), 2)
        }
    } else {
        after_operand(s, 1)
    }
}

/// Reads a right parenthesis.
pub open spec fn step_right_parenthesis(ts: Seq<TokenView>, s: AnalysisState) -> AnalysisState {
    let i = s.index;
    let t = ts[i];
    let s1 = if kind_at(ts, i - 1, TokenType::LeftParenthesis) {
        if kind_at(ts, i - 2, TokenType::Identifier) {
            AnalysisState { expect_operand: false, expect_operator: true, ..s }
        } else {
            with_error(s, err(SyntaxErrorKind::EmptyParentheses, t))
        }
    } else if s.expect_operand {
        with_error(s, err(SyntaxErrorKind::UnexpectedParenthesis, t))
    } else {
        s
    };
    if s1.parens.len() > 0 {
        skip(AnalysisState { parens: s1.parens.drop_last(), expect_operand: false, expect_operator: true, ..s1 })
    } else {
        skip(with_error(s1, err(SyntaxErrorKind::UnmatchedParenthesis, t)))
    }
}

/// Reads a left parenthesis.
pub open spec fn step_left_parenthesis(ts: Seq<TokenView>, s: AnalysisState) -> AnalysisState {
    let i = s.index;
    let t = ts[i];
    let allow = s.expect_operand || kind_at(ts, i - 1, TokenType::Identifier)
        || kind_at(ts, i - 1, TokenType::RightParenthesis) || kind_at(ts, i - 1, TokenType::Number);
    let s1 = if !allow { with_error(s, err(SyntaxErrorKind::UnexpectedParenthesis, t)) } else { s };
    let s2 = if kind_at(ts, i - 1, TokenType::Number) {
        with_error(s1, err(SyntaxErrorKind::InvalidFunctionName, ts[i - 1]))
    } else {
        s1
    };
    let s3 = if kind_at(ts, i - 1, TokenType::RightParenthesis) {
        with_error(s2, err(SyntaxErrorKind::UnexpectedParenthesis, t))
    } else {
        s2
    };
    await_operand(AnalysisState { parens: s3.parens.push(t), ..s3 })
}

/// Reads the token at `s.index`.
pub open spec fn step(ts: Seq<TokenView>, s: AnalysisState) -> AnalysisState {
    let i = s.index;
    let t = ts[i];
    if t.kind == TokenType::QuotationMark {
        let s1 = if !s.in_string {
            let s0 = if !s.expect_operand {
                with_error(s, err(SyntaxErrorKind::UnexpectedOperator, t))
            } else {
                s
            };
            AnalysisState { in_string: true, expect_operator: false, ..s0 }
        } else {
            AnalysisState { in_string: false, expect_operator: true, ..s }
        };
        let quotes = if s1.quotes.len() == 0 { s1.quotes.push(t) } else { s1.quotes.drop_last() };
        skip(AnalysisState { quotes, expect_operand: false, ..s1 })
    } else if s.in_string {
        skip(s)
    } else if t.kind == TokenType::ExclamationMark {
        if s.expect_operand {
            await_operand(s)
        } else {
            skip(with_error(s, err(SyntaxErrorKind::UnexpectedOperator, t)))
        }
    } else if t.kind == TokenType::Identifier {
        let s1 = if !s.expect_operand {
            with_error(s, err(SyntaxErrorKind::UnexpectedOperand, t))
        } else {
            s
        };
        after_operand(s1, 1)
    } else if t.kind == TokenType::Number {
        step_number(ts, s)
    } else if t.kind == TokenType::Dot {
        skip(with_error(s, err(SyntaxErrorKind::UnexpectedDot, t)))
    } else if is_operator_kind(t.kind) {
        let unary = t.kind == TokenType::Minus && i + 1 < ts.len() && (ts[i + 1].kind
            == TokenType::Identifier || ts[i + 1].kind == TokenType::Number || ts[i + 1].kind
            == TokenType::LeftParenthesis);
        if s.expect_operator || unary {
            await_operand(s)
        } else {
            skip(with_error(s, err(SyntaxErrorKind::UnexpectedOperator, t)))
        }
    } else if t.kind == TokenType::LeftBracket {
        if kind_at(ts, i - 1, TokenType::Identifier) || kind_at(ts, i - 1, TokenType::RightBracket) {
            await_operand(AnalysisState { brackets: s.brackets.push(t), ..s })
        } else {
            skip(with_error(s, err(SyntaxErrorKind::UnexpectedBrackets, t)))
        }
    } else if t.kind == TokenType::RightBracket {
        let s1 = if s.brackets.len() > 0 {
            AnalysisState { brackets: s.brackets.drop_last(), expect_operand: false, expect_operator: true, ..s }
        } else {
            with_error(s, err(SyntaxErrorKind::UnmatchedBrackets, t))
        };
        let s2 = if kind_at(ts, i - 1, TokenType::LeftBracket) {
            with_error(s1, err(SyntaxErrorKind::EmptyBrackets, t))
        } else {
            s1
        };
        skip(s2)
    } else if t.kind == TokenType::LeftParenthesis {
        step_left_parenthesis(ts, s)
    } else if t.kind == TokenType::RightParenthesis {
        step_right_parenthesis(ts, s)
    } else if t.kind == TokenType::Comma {
        if s.parens.len() == 0 {
            await_operand(with_error(s, err(SyntaxErrorKind::UnexpectedComma, t)))
        } else if s.expect_operand {
            skip(with_error(s, err(SyntaxErrorKind::UnexpectedComma, t)))
        } else if kind_at(ts, i + 1, TokenType::RightParenthesis) {
            skip(with_error(s, err(SyntaxErrorKind::MissingArgument, t)))
        } else {
            await_operand(s)
        }
    } else if t.kind == TokenType::Unknown {
        skip(with_error(s, err(SyntaxErrorKind::UnknownToken, t)))
    } else if t.kind == TokenType::NewLine {
        skip(with_error(s, err(SyntaxErrorKind::UnexpectedNewLine, t)))
    } else {
        skip(s)
    }
}

pub open spec fn step_advances(ts: Seq<TokenView>, s: AnalysisState) -> bool {
    s.index < step(ts, s).index <= ts.len()
}

pub proof fn lemma_step_advances(ts: Seq<TokenView>, s: AnalysisState)
    requires
        0 <= s.index < ts.len(),
    ensures
        step_advances(ts, s),
{
}

/// The state after reading every token from `s.index` on.
pub open spec fn run(ts: Seq<TokenView>, s: AnalysisState) -> AnalysisState
    decreases ts.len() - s.index,
{
    if 0 <= s.index < ts.len() {
        proof {
            lemma_step_advances(ts, s);
        }
        run(ts, step(ts, s))
    } else {
        s
    }
}

pub open spec fn unmatched_parentheses(parens: Seq<TokenView>) -> Seq<ErrorView> {
    parens.map_values(|t: TokenView| err(SyntaxErrorKind::UnmatchedParenthesis, t))
}

/// The errors found when the end of the tokens is reached, in the order they
/// are detected: the unread tokens, then the checks made at the end.
pub open spec fn final_errors(ts: Seq<TokenView>, s: AnalysisState) -> Seq<ErrorView> {
    let e1 = s.errors + unmatched_parentheses(s.parens);
    let e2 = if ts.len() > 0 && s.expect_operand {
        e1.push(err(SyntaxErrorKind::UnexpectedEndOfExpression, ts.last()))
    } else {
        e1
    };
    if s.quotes.len() > 0 && s.in_string {
        e2.push(err(SyntaxErrorKind::UnmatchedQuotationMark, s.quotes.last()))
    } else {
        e2
    }
}

/// The errors the analysis reports for `ts`, ordered by start position, with
/// errors at the same position in the order they were found.
pub open spec fn spec_analyze(ts: Seq<TokenView>) -> Seq<ErrorView> {
    sort_by(final_errors(ts, run(ts, initial_state())), by_start())
}

/// Errors are ordered by the start position of their token.
pub open spec fn by_start() -> spec_fn(ErrorView) -> int {
    |e: ErrorView| e.token.start
}

/// Every token the state refers to is one of the input tokens.
pub open spec fn refers_to_input(ts: Seq<TokenView>, s: AnalysisState) -> bool {
    &&& forall|k: int| 0 <= k < s.errors.len() ==> ts.contains(#[trigger] s.errors[k].token)
    &&& forall|k: int| 0 <= k < s.parens.len() ==> ts.contains(#[trigger] s.parens[k])
    &&& forall|k: int| 0 <= k < s.quotes.len() ==> ts.contains(#[trigger] s.quotes[k])
}

proof fn lemma_step_refers_to_input(ts: Seq<TokenView>, s: AnalysisState)
    requires
        0 <= s.index < ts.len(),
        refers_to_input(ts, s),
    ensures
        refers_to_input(ts, step(ts, s)),
{
    let i = s.index;
    assert(ts.contains(ts[i]));
    if i + 1 < ts.len() {
        assert(ts.contains(ts[i + 1]));
    }
    if i >= 1 {
        assert(ts.contains(ts[i - 1]));
    }
    let r = step(ts, s);
    assert forall|k: int| 0 <= k < r.errors.len() implies ts.contains(#[trigger] r.errors[k].token) by {
        if k < s.errors.len() {
            assert(r.errors[k] == s.errors[k]);
        }
    }
}

proof fn lemma_run_refers_to_input(ts: Seq<TokenView>, s: AnalysisState)
    requires
        0 <= s.index,
        refers_to_input(ts, s),
    ensures
        refers_to_input(ts, run(ts, s)),
    decreases ts.len() - s.index,
{
    if s.index < ts.len() {
        lemma_step_refers_to_input(ts, s);
        lemma_step_advances(ts, s);
        lemma_run_refers_to_input(ts, step(ts, s));
    }
}

/// How many quotation marks come before token `k`.
pub open spec fn quotes_before(ts: Seq<TokenView>, k: int) -> nat
    decreases k,
{
    if k <= 0 {
        0
    } else {
        quotes_before(ts, k - 1) + if ts[k - 1].kind == TokenType::QuotationMark {
            1nat
        } else {
            0nat
        }
    }
}

/// Reading a token keeps every error already found, in place.
proof fn lemma_step_keeps_errors(ts: Seq<TokenView>, s: AnalysisState)
    requires
        0 <= s.index < ts.len(),
    ensures
        step(ts, s).errors.len() >= s.errors.len(),
        forall|k: int| 0 <= k < s.errors.len() ==> #[trigger] step(ts, s).errors[k] == s.errors[k],
{
}

proof fn lemma_run_keeps_errors(ts: Seq<TokenView>, s: AnalysisState)
    requires
        0 <= s.index,
    ensures
        run(ts, s).errors.len() >= s.errors.len(),
        forall|k: int| 0 <= k < s.errors.len() ==> #[trigger] run(ts, s).errors[k] == s.errors[k],
    decreases ts.len() - s.index,
{
    if s.index < ts.len() {
        lemma_step_keeps_errors(ts, s);
        lemma_step_advances(ts, s);
        lemma_run_keeps_errors(ts, step(ts, s));
        let s1 = step(ts, s);
        assert forall|k: int| 0 <= k < s.errors.len() implies #[trigger] run(ts, s).errors[k] == s.errors[k] by {
            assert(run(ts, s1).errors[k] == s1.errors[k]);
        }
    }
}

/// Reading from `s` reaches the right bracket at `i`, outside any string,
/// and reports it when the left bracket comes just before it.
proof fn lemma_run_reaches_bracket(ts: Seq<TokenView>, s: AnalysisState, i: int)
    requires
        0 <= s.index <= i < ts.len(),
        ts[i].kind == TokenType::RightBracket,
        s.in_string == (quotes_before(ts, s.index) % 2 == 1),
        quotes_before(ts, i) % 2 == 0,
        kind_at(ts, i - 1, TokenType::LeftBracket),
    ensures
        run(ts, s).errors.contains(err(SyntaxErrorKind::EmptyBrackets, ts[i])),
    decreases ts.len() - s.index,
{
    let s1 = step(ts, s);
    lemma_step_advances(ts, s);
    if s.index == i {
        let e = err(SyntaxErrorKind::EmptyBrackets, ts[i]);
        assert(s1.errors.last() == e);
        lemma_run_keeps_errors(ts, s1);
        assert(run(ts, s1).errors[s1.errors.len() - 1] == e);
    } else {
        let j = s.index;
        assert(quotes_before(ts, j + 1) == quotes_before(ts, j) + if ts[j].kind == TokenType::QuotationMark {
            1nat
        } else {
            0nat
        });
        if s1.index >= j + 2 {
            assert(ts[j].kind == TokenType::Number && !s.in_string);
            assert(ts[j + 1].kind != TokenType::QuotationMark && ts[j + 1].kind != TokenType::RightBracket);
            assert(quotes_before(ts, j + 2) == quotes_before(ts, j + 1));
            if s1.index == j + 3 {
                assert(ts[j + 2].kind == TokenType::Number);
                assert(quotes_before(ts, j + 3) == quotes_before(ts, j + 2));
            }
        }
        lemma_run_reaches_bracket(ts, s1, i);
    }
}

/// An empty index is always reported: wherever a right bracket follows a
/// left bracket outside a string, the analysis reports that bracket as an
/// empty array access.
pub proof fn law_empty_brackets_reported(ts: Seq<TokenView>, i: int)
    requires
        1 <= i < ts.len(),
        ts[i - 1].kind == TokenType::LeftBracket,
        ts[i].kind == TokenType::RightBracket,
        quotes_before(ts, i) % 2 == 0,
    ensures
        spec_analyze(ts).contains(err(SyntaxErrorKind::EmptyBrackets, ts[i])),
{
    broadcast use vstd::seq_lib::group_to_multiset_ensures;
    let e = err(SyntaxErrorKind::EmptyBrackets, ts[i]);
    lemma_run_reaches_bracket(ts, initial_state(), i);
    let end = run(ts, initial_state());
    let found = final_errors(ts, end);
    let w = choose|w: int| 0 <= w < end.errors.len() && end.errors[w] == e;
    let e1 = end.errors + unmatched_parentheses(end.parens);
    assert(e1[w] == e);
    assert(found.contains(e)) by {
        assert(found[w] == e);
    }
    law_errors_sorted_and_from_input(ts);
    assert(found.to_multiset().count(e) > 0);
    assert(spec_analyze(ts).to_multiset().count(e) > 0);
}

/// Analysis laws: the errors come ordered by the start of their token; they
/// are exactly the errors found while reading, rearranged; and each of them
/// points at one of the analyzed tokens.
pub proof fn law_errors_sorted_and_from_input(ts: Seq<TokenView>)
    ensures
        sorted_by(spec_analyze(ts), by_start()),
        spec_analyze(ts).to_multiset() == final_errors(ts, run(ts, initial_state())).to_multiset(),
        forall|k: int| 0 <= k < spec_analyze(ts).len() ==> ts.contains(#[trigger] spec_analyze(ts)[k].token),
{
    broadcast use vstd::seq_lib::group_to_multiset_ensures;
    let found = final_errors(ts, run(ts, initial_state()));
    lemma_sort_by_sorted(found, by_start());
    lemma_run_refers_to_input(ts, initial_state());
    let end = run(ts, initial_state());
    assert forall|k: int| 0 <= k < found.len() implies ts.contains(#[trigger] found[k].token) by {
        let e1 = end.errors + unmatched_parentheses(end.parens);
        if k < end.errors.len() {
            assert(found[k] == end.errors[k]);
        } else if k < e1.len() {
            assert(found[k] == e1[k]);
            assert(e1[k].token == end.parens[k - end.errors.len()]);
        } else {
            if ts.len() > 0 {
                assert(ts.contains(ts[ts.len() - 1]));
            }
            if end.quotes.len() > 0 {
                assert(ts.contains(end.quotes[end.quotes.len() - 1]));
            }
        }
    }
    let sorted = spec_analyze(ts);
    assert forall|k: int| 0 <= k < sorted.len() implies ts.contains(#[trigger] sorted[k].token) by {
        assert(sorted.contains(sorted[k]));
        assert(sorted.to_multiset().count(sorted[k]) > 0);
        assert(found.to_multiset().count(sorted[k]) > 0);
        assert(found.contains(sorted[k]));
        let j = choose|j: int| 0 <= j < found.len() && found[j] == sorted[k];
        assert(ts.contains(found[j].token));
    }
}

/// Sorts errors by the start position of their token, keeping the order of
/// errors at the same position.
fn sort_errors(errors: Vec<SyntaxError>) -> (r: Vec<SyntaxError>)
    ensures
        error_views(r@) == sort_by(error_views(errors@), by_start()),
{
    let ghost all = error_views(errors@);
    let mut rest = errors;
    let mut out: Vec<SyntaxError> = Vec::new();
    let n = rest.len();
    let mut k: usize = 0;
    while k < n
        invariant
            k <= n == all.len(),
            rest.len() == n - k,
            error_views(rest@) == all.skip(k as int),
            error_views(out@) == sort_by(all.take(k as int), by_start()),
        decreases n - k,
    {
        let ghost old_rest = rest@;
        let e = rest.remove(0);
        proof {
            assert(e == old_rest[0]);
            assert(error_views(old_rest)[0] == all.skip(k as int)[0]);
            assert(e@ == all[k as int]);
            assert(rest@ =~= old_rest.subrange(1, old_rest.len() as int));
            lemma_error_views_subrange(old_rest, 1, old_rest.len() as int);
            assert(error_views(rest@) =~= all.skip(k + 1));
        }
        let ghost before = error_views(out@);
        let mut p = out.len();
        while p > 0 && out[p - 1].token.position.start > e.token.position.start
            invariant
                p <= out.len(),
                before == error_views(out@),
                forall|j: int| p <= j < out.len() ==> (by_start())(#[trigger] before[j]) > (by_start())(e@),
            decreases p,
        {
            p -= 1;
        }
        proof {
            lemma_insert_at(before, e@, by_start(), p as int);
        }
        out.insert(p, e);
        proof {
            assert(all.take(k + 1).drop_last() =~= all.take(k as int));
            assert(all.take(k + 1).last() == all[k as int]);
            assert(error_views(out@) =~= before.take(p as int).push(all[k as int]) + before.skip(p as int));
        }
        k += 1;
    }
    proof {
        assert(all.take(n as int) =~= all);
    }
    out
}

/// Reads the characters of a token's text.
pub(crate) fn text_chars(value: &Option<String>) -> (r: Option<Vec<char>>)
    ensures
        match value {
            Some(v) => r matches Some(c) && c@ == v@,
            None => r is None,
        },
{
    match value {
        Some(v) => Some(collect_chars(v.as_str())),
        None => None,
    }
}

pub(crate) fn is_zero_text(t: &Token) -> (r: bool)
    ensures
        r == (t@.value == Some(seq!['0'])),
{
    match text_chars(&t.value) {
        Some(c) => {
            if c.len() == 1 && c[0] == '0' {
                assert(c@ =~= seq!['0']);
                true
            } else {
                assert(c@ != seq!['0']);
                false
            }
        },
        None => false,
    }
}

pub(crate) fn is_radix_literal(number: &Token, next: &Token) -> (r: bool)
    ensures
        r == radix_literal(number@, next@),
{
    if !is_zero_text(number) || next.kind != TokenType::Identifier {
        return false;
    }
    match text_chars(&next.value) {
        Some(c) => c.len() > 1 && (c[0] == 'x' || c[0] == 'X' || c[0] == 'b' || c[0] == 'B'),
        None => false,
    }
}

pub(crate) fn digits_ok(v: &Vec<char>, hex: bool) -> (r: bool)
    ensures
        hex ==> r == hex_ok(v@),
        !hex ==> r == binary_ok(v@),
{
    let mut k: usize = 1;
    while k < v.len()
        invariant
            1 <= k,
            forall|j: int| 1 <= j < k && j < v@.len() ==> (if hex { is_hex_digit(v@[j]) } else {
                is_binary_digit(v@[j])
            }),
        decreases v.len() - k,
    {
        let c = v[k];
        let ok = if hex {
            ('0' <= c && c <= '9') || ('a' <= c && c <= 'f') || ('A' <= c && c <= 'F')
        } else {
            c == '0' || c == '1'
        };
        if !ok {
            return false;
        }
        k += 1;
    }
    true
}

/// The syntax analyzer: reads tokens one by one, tracking whether an operand
/// or an operator is expected, and collects the errors it finds.
#[derive(Debug)]
pub struct SyntaxAnalyzer {
    tokens: Vec<Token>,
    current_index: usize,
    status: Status,
    errors: Vec<SyntaxError>,
    brackets_stack: Vec<Token>,
    parentheses_stack: Vec<Token>,
    quotation_marks_stack: Vec<Token>,
}

impl SyntaxAnalyzer {
    /// The tokens under analysis.
    pub closed spec fn input(&self) -> Seq<TokenView> {
        token_views(self.tokens@)
    }

    closed spec fn state(&self) -> AnalysisState {
        AnalysisState {
            index: self.current_index as int,
            expect_operand: self.status.expect_operand,
            expect_operator: self.status.expect_operator,
            in_string: self.status.in_string,
            brackets: token_views(self.brackets_stack@),
            parens: token_views(self.parentheses_stack@),
            quotes: token_views(self.quotation_marks_stack@),
            errors: error_views(self.errors@),
        }
    }

    /// An analyzer for a copy of `tokens`.
    pub fn new(tokens: &[Token]) -> (r: Self)
        ensures
            r.input() == token_views(tokens@),
    {
        let mut owned: Vec<Token> = Vec::new();
        let mut k: usize = 0;
        while k < tokens.len()
            invariant
                k <= tokens@.len(),
                token_views(owned@) == token_views(tokens@).take(k as int),
            decreases tokens.len() - k,
        {
            let t = tokens[k].clone();
            assert(t@ == tokens@[k as int]@);
            let ghost old_owned = owned@;
            owned.push(t);
            proof {
                lemma_token_views_push(old_owned, t);
                assert(token_views(owned@) =~= token_views(tokens@).take(k + 1));
            }
            k += 1;
        }
        proof {
            assert(token_views(tokens@).take(k as int) =~= token_views(tokens@));
        }
        SyntaxAnalyzer {
            tokens: owned,
            current_index: 0,
            status: Status { expect_operand: false, expect_operator: false, in_string: false },
            errors: Vec::new(),
            brackets_stack: Vec::new(),
            parentheses_stack: Vec::new(),
            quotation_marks_stack: Vec::new(),
        }
    }

    fn push_error(&mut self, kind: SyntaxErrorKind, token: &Token)
        ensures
            final(self).state() == with_error(old(self).state(), err(kind, token@)),
            final(self).tokens == old(self).tokens,
    {
        self.errors.push(SyntaxError { token: token.clone(), kind });
        proof {
            assert(error_views(self.errors@) =~= error_views(old(self).errors@).push(err(kind, token@)));
        }
    }

    fn kind_at_offset(&self, forward: bool, by: usize, kind: TokenType) -> (r: bool)
        requires
            self.current_index < self.tokens.len(),
            by <= 2,
        ensures
            forward ==> r == kind_at(self.input(), self.current_index + by, kind),
            !forward ==> r == kind_at(self.input(), self.current_index - by, kind),
    {
        if forward {
            if by < self.tokens.len() - self.current_index {
                self.tokens[self.current_index + by].kind == kind
            } else {
                false
            }
        } else if self.current_index >= by {
            self.tokens[self.current_index - by].kind == kind
        } else {
            false
        }
    }

    fn set_status(&mut self, expect_operand: bool, expect_operator: bool)
        ensures
            final(self).state() == (AnalysisState {
                expect_operand,
                expect_operator,
                ..old(self).state()
            }),
            final(self).tokens == old(self).tokens,
    {
        self.status.expect_operand = expect_operand;
        self.status.expect_operator = expect_operator;
    }

    fn read_number(&mut self)
        requires
            old(self).current_index < old(self).tokens.len(),
            old(self).tokens@[old(self).current_index as int].kind == TokenType::Number,
        ensures
            final(self).state() == step_number(old(self).input(), old(self).state()),
            final(self).tokens == old(self).tokens,
    {
        let ghost ts = self.input();
        let i = self.current_index;
        let n = self.tokens.len();
        let token = self.tokens[i].clone();
        if !self.status.expect_operand {
            self.push_error(SyntaxErrorKind::UnexpectedOperand, &token);
            self.current_index = i + 1;
            return;
        }
        if i + 1 < n && is_radix_literal(&token, &self.tokens[i + 1]) {
            let next = self.tokens[i + 1].clone();
            let c = match text_chars(&next.value) {
                Some(c) => c,
                None => Vec::new(),
            };
            if (c[0] == 'x' || c[0] == 'X') && !digits_ok(&c, true) {
                self.push_error(SyntaxErrorKind::InvalidHexLiteral, &next);
            } else if (c[0] == 'b' || c[0] == 'B') && !digits_ok(&c, false) {
                self.push_error(SyntaxErrorKind::InvalidBinaryLiteral, &next);
            }
            self.current_index = i + 2;
            self.set_status(false, true);
            return;
        }
        if self.kind_at_offset(true, 1, TokenType::Dot) {
            let dot = self.tokens[i + 1].clone();
            if i + 2 < n {
                if self.tokens[i + 2].kind == TokenType::Number {
                    self.current_index = i + 3;
                } else {
                    self.push_error(SyntaxErrorKind::InvalidFloat, &dot);
                    self.current_index = i + 2;
                }
            } else {
                self.push_error(SyntaxErrorKind::UnexpectedOperator, &dot);
                self.current_index = i + 2;
            }
            self.set_status(false, true);
            return;
        }
        if self.kind_at_offset(true, 1, TokenType::Identifier) {
            if self.kind_at_offset(true, 2, TokenType::LeftParenthesis) {
                self.push_error(SyntaxErrorKind::InvalidFunctionName, &token);
            } else {
                self.push_error(SyntaxErrorKind::InvalidVariableName, &token);
            }
            self.current_index = i + 2;
            self.set_status(false, true);
            return;
        }
        self.current_index = i + 1;
        self.set_status(false, true);
    }

    fn read_left_parenthesis(&mut self)
        requires
            old(self).current_index < old(self).tokens.len(),
            old(self).tokens@[old(self).current_index as int].kind == TokenType::LeftParenthesis,
        ensures
            final(self).state() == step_left_parenthesis(old(self).input(), old(self).state()),
            final(self).tokens == old(self).tokens,
    {
        let i = self.current_index;
        let token = self.tokens[i].clone();
        let after_number = self.kind_at_offset(false, 1, TokenType::Number);
        let after_right = self.kind_at_offset(false, 1, TokenType::RightParenthesis);
        let allow = self.status.expect_operand || self.kind_at_offset(false, 1, TokenType::Identifier)
            || after_right || after_number;
        if !allow {
            self.push_error(SyntaxErrorKind::UnexpectedParenthesis, &token);
        }
        if after_number {
            let previous = self.tokens[i - 1].clone();
            self.push_error(SyntaxErrorKind::InvalidFunctionName, &previous);
        }
        if after_right {
            self.push_error(SyntaxErrorKind::UnexpectedParenthesis, &token);
        }
        self.parentheses_stack.push(token);
        proof {
            assert(token_views(self.parentheses_stack@) =~= token_views(old(self).parentheses_stack@).push(token@));
        }
        self.set_status(true, false);
        self.current_index = i + 1;
    }

    fn read_right_parenthesis(&mut self)
        requires
            old(self).current_index < old(self).tokens.len(),
            old(self).tokens@[old(self).current_index as int].kind == TokenType::RightParenthesis,
        ensures
            final(self).state() == step_right_parenthesis(old(self).input(), old(self).state()),
            final(self).tokens == old(self).tokens,
    {
        let i = self.current_index;
        let token = self.tokens[i].clone();
        if self.kind_at_offset(false, 1, TokenType::LeftParenthesis) {
            if self.kind_at_offset(false, 2, TokenType::Identifier) {
                self.set_status(false, true);
            } else {
                self.push_error(SyntaxErrorKind::EmptyParentheses, &token);
            }
        } else if self.status.expect_operand {
            self.push_error(SyntaxErrorKind::UnexpectedParenthesis, &token);
        }
        let ghost mid = self.state();
        match self.parentheses_stack.pop() {
            Some(_) => {
                proof {
                    assert(token_views(self.parentheses_stack@) =~= mid.parens.drop_last());
                }
                self.set_status(false, true);
            },
            None => {
                self.push_error(SyntaxErrorKind::UnmatchedParenthesis, &token);
            },
        }
        self.current_index = i + 1;
    }

    fn read_token(&mut self)
        requires
            old(self).current_index < old(self).tokens.len(),
        ensures
            final(self).state() == step(old(self).input(), old(self).state()),
            final(self).tokens == old(self).tokens,
    {
        let i = self.current_index;
        let token = self.tokens[i].clone();
        let kind = token.kind;
        if kind == TokenType::QuotationMark {
            if !self.status.in_string {
                if !self.status.expect_operand {
                    self.push_error(SyntaxErrorKind::UnexpectedOperator, &token);
                }
                self.status.in_string = true;
                self.status.expect_operator = false;
            } else {
                self.status.in_string = false;
                self.status.expect_operator = true;
            }
            let ghost mid = self.state();
            if self.quotation_marks_stack.len() == 0 {
                self.quotation_marks_stack.push(token);
                proof {
                    assert(token_views(self.quotation_marks_stack@) =~= mid.quotes.push(token@));
                }
            } else {
                self.quotation_marks_stack.pop();
                proof {
                    assert(token_views(self.quotation_marks_stack@) =~= mid.quotes.drop_last());
                }
            }
            self.status.expect_operand = false;
            self.current_index = i + 1;
        } else if self.status.in_string {
            self.current_index = i + 1;
        } else if kind == TokenType::ExclamationMark {
            if self.status.expect_operand {
                self.set_status(true, false);
            } else {
                self.push_error(SyntaxErrorKind::UnexpectedOperator, &token);
            }
            self.current_index = i + 1;
        } else if kind == TokenType::Identifier {
            if !self.status.expect_operand {
                self.push_error(SyntaxErrorKind::UnexpectedOperand, &token);
            }
            self.set_status(false, true);
            self.current_index = i + 1;
        } else if kind == TokenType::Number {
            self.read_number();
        } else if kind == TokenType::Dot {
            self.push_error(SyntaxErrorKind::UnexpectedDot, &token);
            self.current_index = i + 1;
        } else if kind == TokenType::Plus || kind == TokenType::Minus || kind == TokenType::Asterisk
            || kind == TokenType::Slash || kind == TokenType::Percent || kind == TokenType::Ampersand
            || kind == TokenType::Pipe {
            let unary = kind == TokenType::Minus && (self.kind_at_offset(true, 1, TokenType::Identifier)
                || self.kind_at_offset(true, 1, TokenType::Number) || self.kind_at_offset(
                true,
                1,
                TokenType::LeftParenthesis,
            ));
            if self.status.expect_operator || unary {
                self.set_status(true, false);
            } else {
                self.push_error(SyntaxErrorKind::UnexpectedOperator, &token);
            }
            self.current_index = i + 1;
        } else if kind == TokenType::LeftBracket {
            if self.kind_at_offset(false, 1, TokenType::Identifier) || self.kind_at_offset(
                false,
                1,
                TokenType::RightBracket,
            ) {
                self.brackets_stack.push(token);
                proof {
                    assert(token_views(self.brackets_stack@) =~= token_views(old(self).brackets_stack@).push(token@));
                }
                self.set_status(true, false);
            } else {
                self.push_error(SyntaxErrorKind::UnexpectedBrackets, &token);
            }
            self.current_index = i + 1;
        } else if kind == TokenType::RightBracket {
            match self.brackets_stack.pop() {
                Some(_) => {
                    proof {
                        assert(token_views(self.brackets_stack@) =~= token_views(old(self).brackets_stack@).drop_last());
                    }
                    self.set_status(false, true);
                },
                None => {
                    self.push_error(SyntaxErrorKind::UnmatchedBrackets, &token);
                },
            }
            if self.kind_at_offset(false, 1, TokenType::LeftBracket) {
                self.push_error(SyntaxErrorKind::EmptyBrackets, &token);
            }
            self.current_index = i + 1;
        } else if kind == TokenType::LeftParenthesis {
            self.read_left_parenthesis();
        } else if kind == TokenType::RightParenthesis {
            self.read_right_parenthesis();
        } else if kind == TokenType::Comma {
            if self.parentheses_stack.len() == 0 {
                self.push_error(SyntaxErrorKind::UnexpectedComma, &token);
                self.set_status(true, false);
            } else if self.status.expect_operand {
                self.push_error(SyntaxErrorKind::UnexpectedComma, &token);
            } else if self.kind_at_offset(true, 1, TokenType::RightParenthesis) {
                self.push_error(SyntaxErrorKind::MissingArgument, &token);
            } else {
                self.set_status(true, false);
            }
            self.current_index = i + 1;
        } else if kind == TokenType::Unknown {
            self.push_error(SyntaxErrorKind::UnknownToken, &token);
            self.current_index = i + 1;
        } else if kind == TokenType::NewLine {
            self.push_error(SyntaxErrorKind::UnexpectedNewLine, &token);
            self.current_index = i + 1;
        } else {
            self.current_index = i + 1;
        }
    }

    /// Runs the analysis over all tokens and returns the errors found,
    /// ordered by position.
    pub fn analyze(self) -> (errors: Vec<SyntaxError>)
        ensures
            error_views(errors@) == spec_analyze(self.input()),
    {
        let ghost ts = self.input();
        let mut this = self;
        this.current_index = 0;
        this.status = Status { expect_operand: true, expect_operator: false, in_string: false };
        this.errors = Vec::new();
        this.brackets_stack = Vec::new();
        this.parentheses_stack = Vec::new();
        this.quotation_marks_stack = Vec::new();
        proof {
            assert(token_views(this.brackets_stack@) =~= Seq::<TokenView>::empty());
            assert(token_views(this.parentheses_stack@) =~= Seq::<TokenView>::empty());
            assert(token_views(this.quotation_marks_stack@) =~= Seq::<TokenView>::empty());
            assert(error_views(this.errors@) =~= Seq::<ErrorView>::empty());
            assert(this.state() == initial_state());
        }
        while this.current_index < this.tokens.len()
            invariant
                this.input() == ts,
                this.current_index <= this.tokens.len(),
                run(ts, this.state()) == run(ts, initial_state()),
            decreases this.tokens.len() - this.current_index,
        {
            let ghost before = this.state();
            this.read_token();
            proof {
                lemma_step_advances(ts, before);
            }
        }
        let ghost end = this.state();
        let mut errors = this.errors;
        let parens = this.parentheses_stack;
        let mut k: usize = 0;
        while k < parens.len()
            invariant
                k <= parens.len(),
                token_views(parens@) == end.parens,
                error_views(errors@) == end.errors + unmatched_parentheses(end.parens.take(k as int)),
            decreases parens.len() - k,
        {
            let t = parens[k].clone();
            assert(t@ == end.parens[k as int]);
            let ghost old_errors = errors@;
            let e = SyntaxError { token: t, kind: SyntaxErrorKind::UnmatchedParenthesis };
            errors.push(e);
            proof {
                lemma_error_views_push(old_errors, e);
                assert(end.parens.take(k + 1) =~= end.parens.take(k as int).push(end.parens[k as int]));
                assert(unmatched_parentheses(end.parens.take(k + 1)) =~= unmatched_parentheses(end.parens.take(k as int)).push(err(SyntaxErrorKind::UnmatchedParenthesis, end.parens[k as int])));
                assert(error_views(errors@) =~= end.errors + unmatched_parentheses(end.parens.take(k + 1)));
            }
            k += 1;
        }
        proof {
            assert(end.parens.take(k as int) =~= end.parens);
        }
        let n = this.tokens.len();
        if n > 0 && this.status.expect_operand {
            errors.push(SyntaxError { token: this.tokens[n - 1].clone(), kind: SyntaxErrorKind::UnexpectedEndOfExpression });
        }
        let quotes = this.quotation_marks_stack;
        if quotes.len() > 0 && this.status.in_string {
            errors.push(SyntaxError { token: quotes[quotes.len() - 1].clone(), kind: SyntaxErrorKind::UnmatchedQuotationMark });
        }
        proof {
            assert(error_views(errors@) =~= final_errors(ts, end));
        }
        sort_errors(errors)
    }
}

} // verus!
