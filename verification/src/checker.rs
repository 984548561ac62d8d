//! The expression checker of the first stage: a stricter variant of the
//! syntax analysis in which `!`, `&` and `|` only prefix operands, a number
//! before an identifier is always a bad variable name, and quotation marks
//! are not matched.
use vstd::prelude::*;
use crate::chars::{collect_chars, push_char, push_str, string_from_range};
use crate::layout::{pointer, pointer_line, put_ok, underline, underline_ok, underlines};
use crate::tokenizer::{Token, TokenType, TokenView, lemma_token_views_push, token_views};
use crate::sorting::{insert_by, lemma_insert_at, lemma_sort_by_sorted, sort_by, sorted_by};
use crate::syntax::{
    quotes_before,
    binary_ok, digits_ok, hex_ok, is_radix_literal, kind_at, quote_token, quoting, radix_literal,
    text, text_chars,
};
use crate::text::{byte_len, decimal, lemma_bytes_at_least_chars, padded, push_decimal, push_padded, repeat_char};
use crate::tokenizer::{law_tokens_slice_the_source, position_text, slices_source, spec_tokenize, tokenize};

verus! {

/// Kinds of syntax errors.
#[derive(Debug, Clone, Copy, PartialEq, Eq, Structural)]
pub enum SyntaxErrorKind {
    EmptyParentheses,
    EmptyBrackets,
    IncorrectVariableName,
    IncorrectFloat,
    IncorrectHexLiteral,
    IncorrectBinaryLiteral,
    MissingArgument,
    UnexpectedFunctionName,
    UnexpectedEndOfExpression,
    UnexpectedOperand,
    UnexpectedOperator,
    UnexpectedComma,
    UnexpectedDot,
    UnexpectedNewLine,
    UnexpectedParenthesis,
    UnexpectedBrackets,
    UnmatchedParenthesis,
    UnmatchedBrackets,
    UnknownToken,
}

/// A syntax error: its kind and the token it points at.
#[derive(Debug, PartialEq, Eq)]
pub struct SyntaxError {
    pub token: Token,
    pub kind: SyntaxErrorKind,
}

pub struct ErrorView {
    pub kind: SyntaxErrorKind,
    pub token: TokenView,
}

impl View for SyntaxError {
    type V = ErrorView;

    open spec fn view(&self) -> ErrorView {
        ErrorView { kind: self.kind, token: self.token@ }
    }
}

pub open spec fn error_views(errors: Seq<SyntaxError>) -> Seq<ErrorView> {
    errors.map_values(|e: SyntaxError| e@)
}

pub proof fn lemma_error_views_push(s: Seq<SyntaxError>, e: SyntaxError)
    ensures
        error_views(s.push(e)) == error_views(s).push(e@),
{
    assert(error_views(s.push(e)) =~= error_views(s).push(e@));
}

pub proof fn lemma_error_views_subrange(s: Seq<SyntaxError>, a: int, b: int)
    requires
        0 <= a <= b <= s.len(),
    ensures
        error_views(s.subrange(a, b)) == error_views(s).subrange(a, b),
{
    assert(error_views(s.subrange(a, b)) =~= error_views(s).subrange(a, b));
}

/// The message of each error.
pub open spec fn message_text(e: ErrorView) -> Seq<char> {
    match e.kind {
        SyntaxErrorKind::EmptyParentheses => "Empty function or grouping."@,
        SyntaxErrorKind::EmptyBrackets => "Empty array access."@,
        SyntaxErrorKind::IncorrectVariableName => "Incorrect variable name."@,
        SyntaxErrorKind::IncorrectFloat => "Incorrect float."@,
        SyntaxErrorKind::IncorrectHexLiteral => quoting(e.token, "Incorrect hexadecimal literal."@, "Incorrect hexadecimal literal '0"@, "'."@),
        SyntaxErrorKind::IncorrectBinaryLiteral => quoting(e.token, "Incorrect binary literal."@, "Incorrect binary literal '0"@, "'."@),
        SyntaxErrorKind::MissingArgument => "Missing function argument."@,
        SyntaxErrorKind::UnexpectedOperand => quoting(e.token, "Unexpected operand."@, "Unexpected operand '"@, "'."@),
        SyntaxErrorKind::UnexpectedOperator => "Unexpected operator."@,
        SyntaxErrorKind::UnexpectedFunctionName => quoting(e.token, "Unexpected function name."@, "Unexpected function name '"@, "'."@),
        SyntaxErrorKind::UnexpectedComma => "Unexpected comma."@,
        SyntaxErrorKind::UnexpectedDot => "Unexpected dot."@,
        SyntaxErrorKind::UnexpectedParenthesis => "Unexpected parenthesis."@,
        SyntaxErrorKind::UnexpectedBrackets => "Unexpected brackets."@,
        SyntaxErrorKind::UnexpectedNewLine => "Unexpected newline."@,
        SyntaxErrorKind::UnmatchedParenthesis => "Unmatched parenthesis."@,
        SyntaxErrorKind::UnmatchedBrackets => "Unmatched brackets."@,
        SyntaxErrorKind::UnknownToken => "Unknown token."@,
        SyntaxErrorKind::UnexpectedEndOfExpression => "Unexpected end of expression."@,
    }
}

impl SyntaxError {
    /// The error's message, such as `Unexpected operand 'b'.`.
    pub fn message(&self) -> (r: String)
        ensures
            r@ == message_text(self@),
    {
        match self.kind {
            SyntaxErrorKind::EmptyParentheses => text("Empty function or grouping."),
            SyntaxErrorKind::EmptyBrackets => text("Empty array access."),
            SyntaxErrorKind::IncorrectVariableName => text("Incorrect variable name."),
            SyntaxErrorKind::IncorrectFloat => text("Incorrect float."),
            SyntaxErrorKind::IncorrectHexLiteral => quote_token(&self.token, "Incorrect hexadecimal literal.", "Incorrect hexadecimal literal '0", "'."),
            SyntaxErrorKind::IncorrectBinaryLiteral => quote_token(&self.token, "Incorrect binary literal.", "Incorrect binary literal '0", "'."),
            SyntaxErrorKind::MissingArgument => text("Missing function argument."),
            SyntaxErrorKind::UnexpectedOperand => quote_token(&self.token, "Unexpected operand.", "Unexpected operand '", "'."),
            SyntaxErrorKind::UnexpectedOperator => text("Unexpected operator."),
            SyntaxErrorKind::UnexpectedFunctionName => quote_token(&self.token, "Unexpected function name.", "Unexpected function name '", "'."),
            SyntaxErrorKind::UnexpectedComma => text("Unexpected comma."),
            SyntaxErrorKind::UnexpectedDot => text("Unexpected dot."),
            SyntaxErrorKind::UnexpectedParenthesis => text("Unexpected parenthesis."),
            SyntaxErrorKind::UnexpectedBrackets => text("Unexpected brackets."),
            SyntaxErrorKind::UnexpectedNewLine => text("Unexpected newline."),
            SyntaxErrorKind::UnmatchedParenthesis => text("Unmatched parenthesis."),
            SyntaxErrorKind::UnmatchedBrackets => text("Unmatched brackets."),
            SyntaxErrorKind::UnknownToken => text("Unknown token."),
            SyntaxErrorKind::UnexpectedEndOfExpression => text("Unexpected end of expression."),
        }
    }

    /// The message padded to `column_length` characters, a space, and the
    /// token's position.
    pub fn display(&self, column_length: usize) -> (r: String)
        requires
            self.token.position.start < usize::MAX,
        ensures
            r@ == padded(message_text(self@), column_length as nat) + seq![' '] + position_text(self.token@),
    {
        let message = self.message();
        let mut s = String::new();
        push_padded(&mut s, message.as_str(), column_length);
        push_char(&mut s, ' ');
        let position = self.token.display_position();
        push_str(&mut s, position.as_str());
        proof {
            assert(s@ =~= padded(message_text(self@), column_length as nat) + seq![' '] + position_text(self.token@));
        }
        s
    }
}

/// What the analyzer expects next.
#[derive(Debug, Default, Clone, Copy)]
pub struct Status {
    pub expect_operand: bool,
    pub expect_operator: bool,
    pub in_string: bool,
}

/// The state of the analysis after some tokens have been read.
pub struct AnalysisState {
    pub index: int,
    pub expect_operand: bool,
    pub expect_operator: bool,
    pub in_string: bool,
    pub brackets: Seq<TokenView>,
    pub parens: Seq<TokenView>,
    pub errors: Seq<ErrorView>,
}

pub open spec fn initial_state() -> AnalysisState {
    AnalysisState {
        index: 0,
        expect_operand: true,
        expect_operator: false,
        in_string: false,
        brackets: Seq::empty(),
        parens: Seq::empty(),
        errors: Seq::empty(),
    }
}

pub open spec fn err(kind: SyntaxErrorKind, t: TokenView) -> ErrorView {
    ErrorView { kind, token: t }
}

pub open spec fn with_error(s: AnalysisState, e: ErrorView) -> AnalysisState {
    AnalysisState { errors: s.errors.push(e), ..s }
}

/// Moves past `n` tokens, leaving the analyzer after an operand.
pub open spec fn after_operand(s: AnalysisState, n: int) -> AnalysisState {
    AnalysisState { index: s.index + n, expect_operand: false, expect_operator: true, ..s }
}

/// Moves past one token, leaving the analyzer waiting for an operand.
pub open spec fn await_operand(s: AnalysisState) -> AnalysisState {
    AnalysisState { index: s.index + 1, expect_operand: true, expect_operator: false, ..s }
}

pub open spec fn skip(s: AnalysisState) -> AnalysisState {
    AnalysisState { index: s.index + 1, ..s }
}

pub open spec fn is_operator_kind(k: TokenType) -> bool {
    k == TokenType::Plus || k == TokenType::Minus || k == TokenType::Asterisk || k == TokenType::Slash
        || k == TokenType::Percent
}

/// Reads a number token.
pub open spec fn step_number(ts: Seq<TokenView>, s: AnalysisState) -> AnalysisState {
    let i = s.index;
    let t = ts[i];
    if !s.expect_operand {
        skip(with_error(s, err(SyntaxErrorKind::UnexpectedOperand, t)))
    } else if i + 1 < ts.len() && radix_literal(t, ts[i + 1]) {
        let next = ts[i + 1];
        let v = next.value->0;
        let s1 = if (v[0] == 'x' || v[0] == 'X') && !hex_ok(v) {
            with_error(s, err(SyntaxErrorKind::IncorrectHexLiteral, next))
        } else if (v[0] == 'b' || v[0] == 'B') && !binary_ok(v) {
            with_error(s, err(SyntaxErrorKind::IncorrectBinaryLiteral, next))
        } else {
            s
        };
        after_operand(s1, 2)
    } else if kind_at(ts, i + 1, TokenType::Dot) {
        if i + 2 < ts.len() {
            if ts[i + 2].kind == TokenType::Number {
                after_operand(s, 3)
            } else {
                after_operand(with_error(s, err(SyntaxErrorKind::IncorrectFloat, ts[i + 1])), 2)
            }
        } else {
            after_operand(with_error(s, err(SyntaxErrorKind::UnexpectedOperator, ts[i + 1])), 2)
        }
    } else if kind_at(ts, i + 1, TokenType::Identifier) {
        after_operand(with_error(s, err(SyntaxErrorKind::IncorrectVariableName, t)), 2)
    } else {
        after_operand(s, 1)
    }
}

/// Reads a right parenthesis.
pub open spec fn step_right_parenthesis(ts: Seq<TokenView>, s: AnalysisState) -> AnalysisState {
    let i = s.index;
    let t = ts[i];
    let s1 = if s.parens.len() > 0 {
        AnalysisState { parens: s.parens.drop_last(), expect_operand: false, expect_operator: true, ..s }
    } else {
        with_error(s, err(SyntaxErrorKind::UnmatchedParenthesis, t))
    };
    let s2 = if kind_at(ts, i - 1, TokenType::LeftParenthesis) {
        with_error(s1, err(SyntaxErrorKind::EmptyParentheses, t))
    } else {
        s1
    };
    skip(s2)
}

/// Reads a left parenthesis.
pub open spec fn step_left_parenthesis(ts: Seq<TokenView>, s: AnalysisState) -> AnalysisState {
    let i = s.index;
    let t = ts[i];
    let allow = s.expect_operand || kind_at(ts, i - 1, TokenType::Identifier)
        || kind_at(ts, i - 1, TokenType::RightParenthesis) || kind_at(ts, i - 1, TokenType::Number);
    if !allow {
        skip(with_error(s, err(SyntaxErrorKind::UnexpectedParenthesis, t)))
    } else {
        let s2 = if kind_at(ts, i - 1, TokenType::Number) {
            with_error(s, err(SyntaxErrorKind::UnexpectedFunctionName, ts[i - 1]))
        } else {
            s
        };
        let s3 = if kind_at(ts, i - 1, TokenType::RightParenthesis) {
            with_error(s2, err(SyntaxErrorKind::UnexpectedParenthesis, t))
        } else {
            s2
        };
        await_operand(AnalysisState { parens: s3.parens.push(t), ..s3 })
    }
}

/// Reads the token at `s.index`.
pub open spec fn step(ts: Seq<TokenView>, s: AnalysisState) -> AnalysisState {
    let i = s.index;
    let t = ts[i];
    if t.kind == TokenType::QuotationMark {
        if !s.in_string {
            let s0 = if !s.expect_operand {
                with_error(s, err(SyntaxErrorKind::UnexpectedOperator, t))
            } else {
                s
            };
            skip(AnalysisState { in_string: true, expect_operand: false, expect_operator: false, ..s0 })
        } else {
            skip(AnalysisState { in_string: false, expect_operand: false, expect_operator: true, ..s })
        }
    } else if s.in_string {
        skip(s)
    } else if t.kind == TokenType::Identifier {
        let s1 = if !s.expect_operand {
            with_error(s, err(SyntaxErrorKind::UnexpectedOperand, t))
        } else {
            s
        };
        after_operand(s1, 1)
    } else if t.kind == TokenType::Number {
        step_number(ts, s)
    } else if t.kind == TokenType::Dot {
        skip(with_error(s, err(SyntaxErrorKind::UnexpectedDot, t)))
    } else if is_operator_kind(t.kind) {
        let unary = t.kind == TokenType::Minus && i + 1 < ts.len() && (ts[i + 1].kind
            == TokenType::Identifier || ts[i + 1].kind == TokenType::Number || ts[i + 1].kind
            == TokenType::LeftParenthesis);
        if s.expect_operator || unary {
            await_operand(s)
        } else {
            skip(with_error(s, err(SyntaxErrorKind::UnexpectedOperator, t)))
        }
    } else if t.kind == TokenType::ExclamationMark || t.kind == TokenType::Ampersand || t.kind
        == TokenType::Pipe {
        if !s.expect_operand {
            skip(with_error(s, err(SyntaxErrorKind::UnexpectedOperator, t)))
        } else {
            skip(s)
        }
    } else if t.kind == TokenType::LeftBracket {
        if kind_at(ts, i - 1, TokenType::Identifier) || kind_at(ts, i - 1, TokenType::RightBracket) {
            await_operand(AnalysisState { brackets: s.brackets.push(t), ..s })
        } else {
            skip(with_error(s, err(SyntaxErrorKind::UnexpectedBrackets, t)))
        }
    } else if t.kind == TokenType::RightBracket {
        let s1 = if s.brackets.len() > 0 {
            AnalysisState { brackets: s.brackets.drop_last(), expect_operand: false, expect_operator: true, ..s }
        } else {
            with_error(s, err(SyntaxErrorKind::UnmatchedBrackets, t))
        };
        let s2 = if kind_at(ts, i - 1, TokenType::LeftBracket) {
            with_error(s1, err(SyntaxErrorKind::EmptyBrackets, t))
        } else {
            s1
        };
        skip(s2)
    } else if t.kind == TokenType::LeftParenthesis {
        step_left_parenthesis(ts, s)
    } else if t.kind == TokenType::RightParenthesis {
        step_right_parenthesis(ts, s)
    } else if t.kind == TokenType::Comma {
        if s.parens.len() == 0 {
            skip(with_error(s, err(SyntaxErrorKind::UnexpectedComma, t)))
        } else if s.expect_operand {
            skip(with_error(s, err(SyntaxErrorKind::UnexpectedComma, t)))
        } else if kind_at(ts, i + 1, TokenType::RightParenthesis) {
            skip(with_error(s, err(SyntaxErrorKind::MissingArgument, t)))
        } else {
            await_operand(s)
        }
    } else if t.kind == TokenType::Unknown {
        skip(with_error(s, err(SyntaxErrorKind::UnknownToken, t)))
    } else if t.kind == TokenType::NewLine {
        skip(with_error(s, err(SyntaxErrorKind::UnexpectedNewLine, t)))
    } else {
        skip(s)
    }
}

pub open spec fn step_advances(ts: Seq<TokenView>, s: AnalysisState) -> bool {
    s.index < step(ts, s).index <= ts.len()
}

pub proof fn lemma_step_advances(ts: Seq<TokenView>, s: AnalysisState)
    requires
        0 <= s.index < ts.len(),
    ensures
        step_advances(ts, s),
{
}

/// The state after reading every token from `s.index` on.
pub open spec fn run(ts: Seq<TokenView>, s: AnalysisState) -> AnalysisState
    decreases ts.len() - s.index,
{
    if 0 <= s.index < ts.len() {
        proof {
            lemma_step_advances(ts, s);
        }
        run(ts, step(ts, s))
    } else {
        s
    }
}

pub open spec fn unmatched_parentheses(parens: Seq<TokenView>) -> Seq<ErrorView> {
    parens.map_values(|t: TokenView| err(SyntaxErrorKind::UnmatchedParenthesis, t))
}

/// The errors found when the end of the tokens is reached, in the order they
/// are detected: the unread tokens, then the checks made at the end.
pub open spec fn final_errors(ts: Seq<TokenView>, s: AnalysisState) -> Seq<ErrorView> {
    let e1 = s.errors + unmatched_parentheses(s.parens);
    if ts.len() > 0 && s.expect_operand {
        e1.push(err(SyntaxErrorKind::UnexpectedEndOfExpression, ts.last()))
    } else {
        e1
    }
}

/// The errors the analysis reports for `ts`, ordered by start position, with
/// errors at the same position in the order they were found.
pub open spec fn spec_analyze(ts: Seq<TokenView>) -> Seq<ErrorView> {
    sort_by(final_errors(ts, run(ts, initial_state())), by_start())
}

/// Errors are ordered by the start position of their token.
pub open spec fn by_start() -> spec_fn(ErrorView) -> int {
    |e: ErrorView| e.token.start
}

/// Every token the state refers to is one of the input tokens.
pub open spec fn refers_to_input(ts: Seq<TokenView>, s: AnalysisState) -> bool {
    &&& forall|k: int| 0 <= k < s.errors.len() ==> ts.contains(#[trigger] s.errors[k].token)
    &&& forall|k: int| 0 <= k < s.parens.len() ==> ts.contains(#[trigger] s.parens[k])
}

proof fn lemma_step_refers_to_input(ts: Seq<TokenView>, s: AnalysisState)
    requires
        0 <= s.index < ts.len(),
        refers_to_input(ts, s),
    ensures
        refers_to_input(ts, step(ts, s)),
{
    let i = s.index;
    assert(ts.contains(ts[i]));
    if i + 1 < ts.len() {
        assert(ts.contains(ts[i + 1]));
    }
    if i >= 1 {
        assert(ts.contains(ts[i - 1]));
    }
    let r = step(ts, s);
    assert forall|k: int| 0 <= k < r.errors.len() implies ts.contains(#[trigger] r.errors[k].token) by {
        if k < s.errors.len() {
            assert(r.errors[k] == s.errors[k]);
        }
    }
}

proof fn lemma_run_refers_to_input(ts: Seq<TokenView>, s: AnalysisState)
    requires
        0 <= s.index,
        refers_to_input(ts, s),
    ensures
        refers_to_input(ts, run(ts, s)),
    decreases ts.len() - s.index,
{
    if s.index < ts.len() {
        lemma_step_refers_to_input(ts, s);
        lemma_step_advances(ts, s);
        lemma_run_refers_to_input(ts, step(ts, s));
    }
}

/// Reading a token keeps every error already found, in place.
proof fn lemma_step_keeps_errors(ts: Seq<TokenView>, s: AnalysisState)
    requires
        0 <= s.index < ts.len(),
    ensures
        step(ts, s).errors.len() >= s.errors.len(),
        forall|k: int| 0 <= k < s.errors.len() ==> #[trigger] step(ts, s).errors[k] == s.errors[k],
{
}

proof fn lemma_run_keeps_errors(ts: Seq<TokenView>, s: AnalysisState)
    requires
        0 <= s.index,
    ensures
        run(ts, s).errors.len() >= s.errors.len(),
        forall|k: int| 0 <= k < s.errors.len() ==> #[trigger] run(ts, s).errors[k] == s.errors[k],
    decreases ts.len() - s.index,
{
    if s.index < ts.len() {
        lemma_step_keeps_errors(ts, s);
        lemma_step_advances(ts, s);
        lemma_run_keeps_errors(ts, step(ts, s));
        let s1 = step(ts, s);
        assert forall|k: int| 0 <= k < s.errors.len() implies #[trigger] run(ts, s).errors[k] == s.errors[k] by {
            assert(run(ts, s1).errors[k] == s1.errors[k]);
        }
    }
}

/// Reading from `s` reaches the right bracket at `i`, outside any string,
/// and reports it when the left bracket comes just before it.
proof fn lemma_run_reaches_bracket(ts: Seq<TokenView>, s: AnalysisState, i: int)
    requires
        0 <= s.index <= i < ts.len(),
        ts[i].kind == TokenType::RightBracket,
        s.in_string == (quotes_before(ts, s.index) % 2 == 1),
        quotes_before(ts, i) % 2 == 0,
        kind_at(ts, i - 1, TokenType::LeftBracket),
    ensures
        run(ts, s).errors.contains(err(SyntaxErrorKind::EmptyBrackets, ts[i])),
    decreases ts.len() - s.index,
{
    let s1 = step(ts, s);
    lemma_step_advances(ts, s);
    if s.index == i {
        let e = err(SyntaxErrorKind::EmptyBrackets, ts[i]);
        assert(s1.errors.last() == e);
        lemma_run_keeps_errors(ts, s1);
        assert(run(ts, s1).errors[s1.errors.len() - 1] == e);
    } else {
        let j = s.index;
        assert(quotes_before(ts, j + 1) == quotes_before(ts, j) + if ts[j].kind == TokenType::QuotationMark {
            1nat
        } else {
            0nat
        });
        if s1.index >= j + 2 {
            assert(ts[j].kind == TokenType::Number && !s.in_string);
            assert(ts[j + 1].kind != TokenType::QuotationMark && ts[j + 1].kind != TokenType::RightBracket);
            assert(quotes_before(ts, j + 2) == quotes_before(ts, j + 1));
            if s1.index == j + 3 {
                assert(ts[j + 2].kind == TokenType::Number);
                assert(quotes_before(ts, j + 3) == quotes_before(ts, j + 2));
            }
        }
        lemma_run_reaches_bracket(ts, s1, i);
    }
}

/// An empty index is always reported by the first stage too: wherever a
/// right bracket follows a left bracket outside a string, the analysis
/// reports that bracket as an empty array access.
pub proof fn law_empty_brackets_reported(ts: Seq<TokenView>, i: int)
    requires
        1 <= i < ts.len(),
        ts[i - 1].kind == TokenType::LeftBracket,
        ts[i].kind == TokenType::RightBracket,
        quotes_before(ts, i) % 2 == 0,
    ensures
        spec_analyze(ts).contains(err(SyntaxErrorKind::EmptyBrackets, ts[i])),
{
    broadcast use vstd::seq_lib::group_to_multiset_ensures;
    let e = err(SyntaxErrorKind::EmptyBrackets, ts[i]);
    lemma_run_reaches_bracket(ts, initial_state(), i);
    let end = run(ts, initial_state());
    let found = final_errors(ts, end);
    let w = choose|w: int| 0 <= w < end.errors.len() && end.errors[w] == e;
    let e1 = end.errors + unmatched_parentheses(end.parens);
    assert(e1[w] == e);
    assert(found.contains(e)) by {
        assert(found[w] == e);
    }
    law_errors_sorted_and_from_input(ts);
    assert(found.to_multiset().count(e) > 0);
    assert(spec_analyze(ts).to_multiset().count(e) > 0);
}

/// Analysis laws: the errors come ordered by the start of their token; they
/// are exactly the errors found while reading, rearranged; and each of them
/// points at one of the analyzed tokens.
pub proof fn law_errors_sorted_and_from_input(ts: Seq<TokenView>)
    ensures
        sorted_by(spec_analyze(ts), by_start()),
        spec_analyze(ts).to_multiset() == final_errors(ts, run(ts, initial_state())).to_multiset(),
        forall|k: int| 0 <= k < spec_analyze(ts).len() ==> ts.contains(#[trigger] spec_analyze(ts)[k].token),
{
    broadcast use vstd::seq_lib::group_to_multiset_ensures;
    let found = final_errors(ts, run(ts, initial_state()));
    lemma_sort_by_sorted(found, by_start());
    lemma_run_refers_to_input(ts, initial_state());
    let end = run(ts, initial_state());
    assert forall|k: int| 0 <= k < found.len() implies ts.contains(#[trigger] found[k].token) by {
        let e1 = end.errors + unmatched_parentheses(end.parens);
        if k < end.errors.len() {
            assert(found[k] == end.errors[k]);
        } else if k < e1.len() {
            assert(found[k] == e1[k]);
            assert(e1[k].token == end.parens[k - end.errors.len()]);
        } else {
            if ts.len() > 0 {
                assert(ts.contains(ts[ts.len() - 1]));
            }
        }
    }
    let sorted = spec_analyze(ts);
    assert forall|k: int| 0 <= k < sorted.len() implies ts.contains(#[trigger] sorted[k].token) by {
        assert(sorted.contains(sorted[k]));
        assert(sorted.to_multiset().count(sorted[k]) > 0);
        assert(found.to_multiset().count(sorted[k]) > 0);
        assert(found.contains(sorted[k]));
        let j = choose|j: int| 0 <= j < found.len() && found[j] == sorted[k];
        assert(ts.contains(found[j].token));
    }
}

/// Sorts errors by the start position of their token, keeping the order of
/// errors at the same position.
fn sort_errors(errors: Vec<SyntaxError>) -> (r: Vec<SyntaxError>)
    ensures
        error_views(r@) == sort_by(error_views(errors@), by_start()),
{
    let ghost all = error_views(errors@);
    let mut rest = errors;
    let mut out: Vec<SyntaxError> = Vec::new();
    let n = rest.len();
    let mut k: usize = 0;
    while k < n
        invariant
            k <= n == all.len(),
            rest.len() == n - k,
            error_views(rest@) == all.skip(k as int),
            error_views(out@) == sort_by(all.take(k as int), by_start()),
        decreases n - k,
    {
        let ghost old_rest = rest@;
        let e = rest.remove(0);
        proof {
            assert(e == old_rest[0]);
            assert(error_views(old_rest)[0] == all.skip(k as int)[0]);
            assert(e@ == all[k as int]);
            assert(rest@ =~= old_rest.subrange(1, old_rest.len() as int));
            lemma_error_views_subrange(old_rest, 1, old_rest.len() as int);
            assert(error_views(rest@) =~= all.skip(k + 1));
        }
        let ghost before = error_views(out@);
        let mut p = out.len();
        while p > 0 && out[p - 1].token.position.start > e.token.position.start
            invariant
                p <= out.len(),
                before == error_views(out@),
                forall|j: int| p <= j < out.len() ==> (by_start())(#[trigger] before[j]) > (by_start())(e@),
            decreases p,
        {
            p -= 1;
        }
        proof {
            lemma_insert_at(before, e@, by_start(), p as int);
        }
        out.insert(p, e);
        proof {
            assert(all.take(k + 1).drop_last() =~= all.take(k as int));
            assert(all.take(k + 1).last() == all[k as int]);
            assert(error_views(out@) =~= before.take(p as int).push(all[k as int]) + before.skip(p as int));
        }
        k += 1;
    }
    proof {
        assert(all.take(n as int) =~= all);
    }
    out
}

/// The syntax analyzer: reads tokens one by one, tracking whether an operand
/// or an operator is expected, and collects the errors it finds.
#[derive(Debug)]
pub struct SyntaxAnalyzer {
    tokens: Vec<Token>,
    current_index: usize,
    status: Status,
    errors: Vec<SyntaxError>,
    brackets_stack: Vec<Token>,
    parentheses_stack: Vec<Token>,
}

impl SyntaxAnalyzer {
    /// The tokens under analysis.
    pub closed spec fn input(&self) -> Seq<TokenView> {
        token_views(self.tokens@)
    }

    closed spec fn state(&self) -> AnalysisState {
        AnalysisState {
            index: self.current_index as int,
            expect_operand: self.status.expect_operand,
            expect_operator: self.status.expect_operator,
            in_string: self.status.in_string,
            brackets: token_views(self.brackets_stack@),
            parens: token_views(self.parentheses_stack@),
            errors: error_views(self.errors@),
        }
    }

    /// An analyzer for `tokens`.
    pub fn new(tokens: Vec<Token>) -> (r: Self)
        ensures
            r.input() == token_views(tokens@),
    {
        let owned = tokens;
        SyntaxAnalyzer {
            tokens: owned,
            current_index: 0,
            status: Status { expect_operand: false, expect_operator: false, in_string: false },
            errors: Vec::new(),
            brackets_stack: Vec::new(),
            parentheses_stack: Vec::new(),
        }
    }

    fn push_error(&mut self, kind: SyntaxErrorKind, token: &Token)
        ensures
            final(self).state() == with_error(old(self).state(), err(kind, token@)),
            final(self).tokens == old(self).tokens,
    {
        self.errors.push(SyntaxError { token: token.clone(), kind });
        proof {
            assert(error_views(self.errors@) =~= error_views(old(self).errors@).push(err(kind, token@)));
        }
    }

    fn kind_at_offset(&self, forward: bool, by: usize, kind: TokenType) -> (r: bool)
        requires
            self.current_index < self.tokens.len(),
            by <= 2,
        ensures
            forward ==> r == kind_at(self.input(), self.current_index + by, kind),
            !forward ==> r == kind_at(self.input(), self.current_index - by, kind),
    {
        if forward {
            if by < self.tokens.len() - self.current_index {
                self.tokens[self.current_index + by].kind == kind
            } else {
                false
            }
        } else if self.current_index >= by {
            self.tokens[self.current_index - by].kind == kind
        } else {
            false
        }
    }

    fn set_status(&mut self, expect_operand: bool, expect_operator: bool)
        ensures
            final(self).state() == (AnalysisState {
                expect_operand,
                expect_operator,
                ..old(self).state()
            }),
            final(self).tokens == old(self).tokens,
    {
        self.status.expect_operand = expect_operand;
        self.status.expect_operator = expect_operator;
    }

    fn read_number(&mut self)
        requires
            old(self).current_index < old(self).tokens.len(),
            old(self).tokens@[old(self).current_index as int].kind == TokenType::Number,
        ensures
            final(self).state() == step_number(old(self).input(), old(self).state()),
            final(self).tokens == old(self).tokens,
    {
        let i = self.current_index;
        let n = self.tokens.len();
        let token = self.tokens[i].clone();
        if !self.status.expect_operand {
            self.push_error(SyntaxErrorKind::UnexpectedOperand, &token);
            self.current_index = i + 1;
            return;
        }
        if i + 1 < n && is_radix_literal(&token, &self.tokens[i + 1]) {
            let next = self.tokens[i + 1].clone();
            let c = match text_chars(&next.value) {
                Some(c) => c,
                None => Vec::new(),
            };
            if (c[0] == 'x' || c[0] == 'X') && !digits_ok(&c, true) {
                self.push_error(SyntaxErrorKind::IncorrectHexLiteral, &next);
            } else if (c[0] == 'b' || c[0] == 'B') && !digits_ok(&c, false) {
                self.push_error(SyntaxErrorKind::IncorrectBinaryLiteral, &next);
            }
            self.current_index = i + 2;
            self.set_status(false, true);
            return;
        }
        if self.kind_at_offset(true, 1, TokenType::Dot) {
            let dot = self.tokens[i + 1].clone();
            if i + 2 < n {
                if self.tokens[i + 2].kind == TokenType::Number {
                    self.current_index = i + 3;
                } else {
                    self.push_error(SyntaxErrorKind::IncorrectFloat, &dot);
                    self.current_index = i + 2;
                }
            } else {
                self.push_error(SyntaxErrorKind::UnexpectedOperator, &dot);
                self.current_index = i + 2;
            }
            self.set_status(false, true);
            return;
        }
        if self.kind_at_offset(true, 1, TokenType::Identifier) {
            self.push_error(SyntaxErrorKind::IncorrectVariableName, &token);
            self.current_index = i + 2;
            self.set_status(false, true);
            return;
        }
        self.current_index = i + 1;
        self.set_status(false, true);
    }

    fn read_left_parenthesis(&mut self)
        requires
            old(self).current_index < old(self).tokens.len(),
            old(self).tokens@[old(self).current_index as int].kind == TokenType::LeftParenthesis,
        ensures
            final(self).state() == step_left_parenthesis(old(self).input(), old(self).state()),
            final(self).tokens == old(self).tokens,
    {
        let i = self.current_index;
        let token = self.tokens[i].clone();
        let after_number = self.kind_at_offset(false, 1, TokenType::Number);
        let after_right = self.kind_at_offset(false, 1, TokenType::RightParenthesis);
        let allow = self.status.expect_operand || self.kind_at_offset(false, 1, TokenType::Identifier)
            || after_right || after_number;
        if !allow {
            self.push_error(SyntaxErrorKind::UnexpectedParenthesis, &token);
            self.current_index = i + 1;
            return;
        }
        if after_number {
            let previous = self.tokens[i - 1].clone();
            self.push_error(SyntaxErrorKind::UnexpectedFunctionName, &previous);
        }
        if after_right {
            self.push_error(SyntaxErrorKind::UnexpectedParenthesis, &token);
        }
        self.parentheses_stack.push(token);
        proof {
            assert(token_views(self.parentheses_stack@) =~= token_views(old(self).parentheses_stack@).push(token@));
        }
        self.set_status(true, false);
        self.current_index = i + 1;
    }

    fn read_right_parenthesis(&mut self)
        requires
            old(self).current_index < old(self).tokens.len(),
            old(self).tokens@[old(self).current_index as int].kind == TokenType::RightParenthesis,
        ensures
            final(self).state() == step_right_parenthesis(old(self).input(), old(self).state()),
            final(self).tokens == old(self).tokens,
    {
        let i = self.current_index;
        let token = self.tokens[i].clone();
        match self.parentheses_stack.pop() {
            Some(_) => {
                proof {
                    assert(token_views(self.parentheses_stack@) =~= token_views(old(self).parentheses_stack@).drop_last());
                }
                self.set_status(false, true);
            },
            None => {
                self.push_error(SyntaxErrorKind::UnmatchedParenthesis, &token);
            },
        }
        if self.kind_at_offset(false, 1, TokenType::LeftParenthesis) {
            self.push_error(SyntaxErrorKind::EmptyParentheses, &token);
        }
        self.current_index = i + 1;
    }

    fn read_token(&mut self)
        requires
            old(self).current_index < old(self).tokens.len(),
        ensures
            final(self).state() == step(old(self).input(), old(self).state()),
            final(self).tokens == old(self).tokens,
    {
        let i = self.current_index;
        let token = self.tokens[i].clone();
        let kind = token.kind;
        if kind == TokenType::QuotationMark {
            if !self.status.in_string {
                if !self.status.expect_operand {
                    self.push_error(SyntaxErrorKind::UnexpectedOperator, &token);
                }
                self.status.in_string = true;
                self.set_status(false, false);
            } else {
                self.status.in_string = false;
                self.set_status(false, true);
            }
            self.current_index = i + 1;
        } else if self.status.in_string {
            self.current_index = i + 1;
        } else if kind == TokenType::Identifier {
            if !self.status.expect_operand {
                self.push_error(SyntaxErrorKind::UnexpectedOperand, &token);
            }
            self.set_status(false, true);
            self.current_index = i + 1;
        } else if kind == TokenType::Number {
            self.read_number();
        } else if kind == TokenType::Dot {
            self.push_error(SyntaxErrorKind::UnexpectedDot, &token);
            self.current_index = i + 1;
        } else if kind == TokenType::Plus || kind == TokenType::Minus || kind == TokenType::Asterisk
            || kind == TokenType::Slash || kind == TokenType::Percent {
            let unary = kind == TokenType::Minus && (self.kind_at_offset(true, 1, TokenType::Identifier)
                || self.kind_at_offset(true, 1, TokenType::Number) || self.kind_at_offset(
                true,
                1,
                TokenType::LeftParenthesis,
            ));
            if self.status.expect_operator || unary {
                self.set_status(true, false);
            } else {
                self.push_error(SyntaxErrorKind::UnexpectedOperator, &token);
            }
            self.current_index = i + 1;
        } else if kind == TokenType::ExclamationMark || kind == TokenType::Ampersand || kind
            == TokenType::Pipe {
            if !self.status.expect_operand {
                self.push_error(SyntaxErrorKind::UnexpectedOperator, &token);
            }
            self.current_index = i + 1;
        } else if kind == TokenType::LeftBracket {
            if self.kind_at_offset(false, 1, TokenType::Identifier) || self.kind_at_offset(
                false,
                1,
                TokenType::RightBracket,
            ) {
                self.brackets_stack.push(token);
                proof {
                    assert(token_views(self.brackets_stack@) =~= token_views(old(self).brackets_stack@).push(token@));
                }
                self.set_status(true, false);
            } else {
                self.push_error(SyntaxErrorKind::UnexpectedBrackets, &token);
            }
            self.current_index = i + 1;
        } else if kind == TokenType::RightBracket {
            match self.brackets_stack.pop() {
                Some(_) => {
                    proof {
                        assert(token_views(self.brackets_stack@) =~= token_views(old(self).brackets_stack@).drop_last());
                    }
                    self.set_status(false, true);
                },
                None => {
                    self.push_error(SyntaxErrorKind::UnmatchedBrackets, &token);
                },
            }
            if self.kind_at_offset(false, 1, TokenType::LeftBracket) {
                self.push_error(SyntaxErrorKind::EmptyBrackets, &token);
            }
            self.current_index = i + 1;
        } else if kind == TokenType::LeftParenthesis {
            self.read_left_parenthesis();
        } else if kind == TokenType::RightParenthesis {
            self.read_right_parenthesis();
        } else if kind == TokenType::Comma {
            if self.parentheses_stack.len() == 0 {
                self.push_error(SyntaxErrorKind::UnexpectedComma, &token);
            } else if self.status.expect_operand {
                self.push_error(SyntaxErrorKind::UnexpectedComma, &token);
            } else if self.kind_at_offset(true, 1, TokenType::RightParenthesis) {
                self.push_error(SyntaxErrorKind::MissingArgument, &token);
            } else {
                self.set_status(true, false);
            }
            self.current_index = i + 1;
        } else if kind == TokenType::Unknown {
            self.push_error(SyntaxErrorKind::UnknownToken, &token);
            self.current_index = i + 1;
        } else if kind == TokenType::NewLine {
            self.push_error(SyntaxErrorKind::UnexpectedNewLine, &token);
            self.current_index = i + 1;
        } else {
            self.current_index = i + 1;
        }
    }

    /// Runs the analysis over all tokens and returns the errors found,
    /// ordered by position.
    pub fn analyze(self) -> (errors: Vec<SyntaxError>)
        ensures
            error_views(errors@) == spec_analyze(self.input()),
    {
        let ghost ts = self.input();
        let mut this = self;
        this.current_index = 0;
        this.status = Status { expect_operand: true, expect_operator: false, in_string: false };
        this.errors = Vec::new();
        this.brackets_stack = Vec::new();
        this.parentheses_stack = Vec::new();
        proof {
            assert(token_views(this.brackets_stack@) =~= Seq::<TokenView>::empty());
            assert(token_views(this.parentheses_stack@) =~= Seq::<TokenView>::empty());
            assert(error_views(this.errors@) =~= Seq::<ErrorView>::empty());
            assert(this.state() == initial_state());
        }
        while this.current_index < this.tokens.len()
            invariant
                this.input() == ts,
                this.current_index <= this.tokens.len(),
                run(ts, this.state()) == run(ts, initial_state()),
            decreases this.tokens.len() - this.current_index,
        {
            let ghost before = this.state();
            this.read_token();
            proof {
                lemma_step_advances(ts, before);
            }
        }
        let ghost end = this.state();
        let mut errors = this.errors;
        let parens = this.parentheses_stack;
        let mut k: usize = 0;
        while k < parens.len()
            invariant
                k <= parens.len(),
                token_views(parens@) == end.parens,
                error_views(errors@) == end.errors + unmatched_parentheses(end.parens.take(k as int)),
            decreases parens.len() - k,
        {
            let t = parens[k].clone();
            assert(t@ == end.parens[k as int]);
            let ghost old_errors = errors@;
            let e = SyntaxError { token: t, kind: SyntaxErrorKind::UnmatchedParenthesis };
            errors.push(e);
            proof {
                lemma_error_views_push(old_errors, e);
                assert(end.parens.take(k + 1) =~= end.parens.take(k as int).push(end.parens[k as int]));
                assert(unmatched_parentheses(end.parens.take(k + 1)) =~= unmatched_parentheses(end.parens.take(k as int)).push(err(SyntaxErrorKind::UnmatchedParenthesis, end.parens[k as int])));
                assert(error_views(errors@) =~= end.errors + unmatched_parentheses(end.parens.take(k + 1)));
            }
            k += 1;
        }
        proof {
            assert(end.parens.take(k as int) =~= end.parens);
        }
        let n = this.tokens.len();
        if n > 0 && this.status.expect_operand {
            errors.push(SyntaxError { token: this.tokens[n - 1].clone(), kind: SyntaxErrorKind::UnexpectedEndOfExpression });
        }
        proof {
            assert(error_views(errors@) =~= final_errors(ts, end));
        }
        sort_errors(errors)
    }
}

/// The largest byte length of the errors' messages, 0 when there are none.
pub open spec fn widest(es: Seq<ErrorView>) -> int
    decreases es.len(),
{
    if es.len() == 0 {
        0
    } else {
        let w = widest(es.drop_last());
        let m = byte_len(message_text(es.last())) as int;
        if m > w { m } else { w }
    }
}

/// An error shown with its message padded to `width` and its position.
pub open spec fn shown(e: ErrorView, width: nat) -> Seq<char> {
    padded(message_text(e), width) + seq![' '] + position_text(e.token)
}

/// One line per error, each shown with `width`.
pub open spec fn shown_lines(es: Seq<ErrorView>, width: nat) -> Seq<char>
    decreases es.len(),
{
    if es.len() == 0 {
        Seq::empty()
    } else {
        shown_lines(es.drop_last(), width) + shown(es.last(), width) + seq!['\n']
    }
}

/// The pointer lines of `es[k - 1]` down to `es[0]`, each followed by its
/// error shown with `width`.
pub open spec fn shown_pointer_lines(len: int, es: Seq<ErrorView>, k: int, width: nat) -> Seq<char>
    decreases k,
{
    if k <= 0 {
        Seq::empty()
    } else {
        pointer_line(len, es.map_values(|e: ErrorView| e.token), es[k - 1].token) + shown(es[k - 1], width)
            + seq!['\n'] + shown_pointer_lines(len, es, k - 1, width)
    }
}

/// The source with line breaks turned into spaces.
pub open spec fn one_line(source: Seq<char>) -> Seq<char> {
    source.map_values(|c: char| if c == '\n' { ' ' } else { c })
}

/// The report of the first stage for `source` and its errors `es`.
pub open spec fn stage_report(source: Seq<char>, pretty: bool, es: Seq<ErrorView>) -> Seq<char> {
    let n = es.len();
    let width = (widest(es) + 1) as nat;
    let len = byte_len(source) as int;
    let heading = if n == 0 {
        "Analysis result: OK!\n"@
    } else {
        "Analysis result: Found "@ + decimal(n) + " errors.\n"@
    };
    let body = heading + "\nCode:\n"@ + one_line(source) + seq!['\n'];
    if n == 0 {
        body
    } else if pretty {
        body + underlines(repeat_char(' ', len as nat).push('\n'), es.map_values(|e: ErrorView| e.token))
            + shown_pointer_lines(len, es, n as int, width) + seq!['\n']
    } else {
        body + shown_lines(es, width) + seq!['\n']
    }
}

/// The report begins with its heading and the code on one line: `OK!`
/// where no error was found, the number of errors otherwise; and with no
/// error the report is the same in both modes.
pub proof fn law_report_heading(source: Seq<char>, pretty: bool)
    ensures
        ({
            let es = stage_errors(source);
            let heading = if es.len() == 0 {
                "Analysis result: OK!\n"@
            } else {
                "Analysis result: Found "@ + decimal(es.len()) + " errors.\n"@
            };
            let head = heading + "\nCode:\n"@ + one_line(source) + seq!['\n'];
            &&& stage_report(source, pretty, es).take(head.len() as int) == head
            &&& es.len() == 0 ==> stage_report(source, pretty, es) == head
            &&& es.len() == 0 ==> stage_report(source, pretty, es) == stage_report(source, !pretty, es)
        }),
{
    let es = stage_errors(source);
    let heading = if es.len() == 0 {
        "Analysis result: OK!\n"@
    } else {
        "Analysis result: Found "@ + decimal(es.len()) + " errors.\n"@
    };
    let head = heading + "\nCode:\n"@ + one_line(source) + seq!['\n'];
    let r = stage_report(source, pretty, es);
    if es.len() == 0 {
        assert(r.take(head.len() as int) =~= head);
    } else {
        let width = (widest(es) + 1) as nat;
        let len = byte_len(source) as int;
        let tail = if pretty {
            underlines(repeat_char(' ', len as nat).push('\n'), es.map_values(|e: ErrorView| e.token))
                + shown_pointer_lines(len, es, es.len() as int, width) + seq!['\n']
        } else {
            shown_lines(es, width) + seq!['\n']
        };
        assert(r =~= head + tail);
        assert(r.take(head.len() as int) =~= head);
    }
}

/// The errors of the first stage for `source`.
pub open spec fn stage_errors(source: Seq<char>) -> Seq<ErrorView> {
    spec_analyze(spec_tokenize(source))
}

fn width_of(errors: &Vec<SyntaxError>) -> (w: usize)
    requires
        widest(error_views(errors@)) < usize::MAX,
    ensures
        w == widest(error_views(errors@)) + 1,
{
    let ghost es = error_views(errors@);
    let mut widest_len: usize = 0;
    let mut k: usize = 0;
    while k < errors.len()
        invariant
            k <= errors@.len(),
            es == error_views(errors@),
            widest_len == widest(es.take(k as int)),
        decreases errors.len() - k,
    {
        let m = errors[k].message().as_str().len();
        proof {
            assert(es.take(k + 1).drop_last() =~= es.take(k as int));
        }
        if m > widest_len {
            widest_len = m;
        }
        k += 1;
    }
    proof {
        assert(es.take(k as int) =~= es);
    }
    widest_len + 1
}

fn format_errors(errors: &Vec<SyntaxError>, width: usize) -> (r: String)
    requires
        forall|k: int| 0 <= k < errors@.len() ==> #[trigger] errors@[k].token.position.start < usize::MAX,
    ensures
        r@ == shown_lines(error_views(errors@), width as nat),
{
    let ghost es = error_views(errors@);
    let mut s = String::new();
    let mut j: usize = 0;
    while j < errors.len()
        invariant
            j <= errors@.len(),
            es == error_views(errors@),
            forall|k: int| 0 <= k < errors@.len() ==> #[trigger] errors@[k].token.position.start < usize::MAX,
            s@ == shown_lines(es.take(j as int), width as nat),
        decreases errors.len() - j,
    {
        let line = errors[j].display(width);
        push_str(&mut s, line.as_str());
        push_char(&mut s, '\n');
        proof {
            assert(es.take(j + 1).drop_last() =~= es.take(j as int));
            assert(s@ =~= shown_lines(es.take(j + 1), width as nat));
        }
        j += 1;
    }
    proof {
        assert(es.take(j as int) =~= es);
    }
    s
}

fn format_errors_pretty(len: usize, errors: &Vec<SyntaxError>, width: usize) -> (r: String)
    requires
        len + 2 <= usize::MAX,
        forall|k: int| 0 <= k < errors@.len() ==> underline_ok(len + 1, #[trigger] errors@[k].token@),
        forall|k: int| 0 <= k < errors@.len() ==> put_ok(len + 2, #[trigger] errors@[k].token@.start),
        forall|k: int| 0 <= k < errors@.len() ==> #[trigger] errors@[k].token.position.start < usize::MAX,
    ensures
        r@ == underlines(
            repeat_char(' ', len as nat).push('\n'),
            error_views(errors@).map_values(|e: ErrorView| e.token),
        ) + shown_pointer_lines(len as int, error_views(errors@), errors@.len() as int, width as nat),
{
    let ghost es = error_views(errors@);
    let ghost toks = es.map_values(|e: ErrorView| e.token);
    let n = errors.len();
    let mut tokens: Vec<Token> = Vec::new();
    let mut k: usize = 0;
    while k < n
        invariant
            k <= n == errors@.len(),
            es == error_views(errors@),
            toks == es.map_values(|e: ErrorView| e.token),
            token_views(tokens@) == toks.take(k as int),
            forall|i: int| 0 <= i < k ==> #[trigger] tokens@[i]@ == errors@[i].token@,
        decreases n - k,
    {
        let t = errors[k].token.clone();
        let ghost old_tokens = tokens@;
        tokens.push(t);
        proof {
            lemma_token_views_push(old_tokens, t);
            assert(token_views(tokens@) =~= toks.take(k + 1));
        }
        k += 1;
    }
    proof {
        assert(toks.take(k as int) =~= toks);
    }
    let marks = underline(len, true, &tokens);
    let mut s = string_from_range(&marks, 0, marks.len());
    proof {
        assert(marks@.subrange(0, marks@.len() as int) =~= marks@);
    }
    let ghost mid = s@;
    let mut j = n;
    while j > 0
        invariant
            j <= n == errors@.len() == tokens@.len(),
            len + 2 <= usize::MAX,
            es == error_views(errors@),
            token_views(tokens@) == toks,
            toks == es.map_values(|e: ErrorView| e.token),
            forall|i: int| 0 <= i < n ==> #[trigger] tokens@[i]@ == errors@[i].token@,
            forall|i: int| 0 <= i < errors@.len() ==> #[trigger] errors@[i].token.position.start < usize::MAX,
            s@ + shown_pointer_lines(len as int, es, j as int, width as nat) == mid
                + shown_pointer_lines(len as int, es, n as int, width as nat),
        decreases j,
    {
        let ghost before = s@;
        assert(tokens@[j - 1]@ == errors@[j - 1].token@);
        assert(errors@[j - 1].token.position.start < usize::MAX);
        let line = pointer(len, &tokens, j - 1);
        let line_text = string_from_range(&line, 0, line.len());
        push_str(&mut s, line_text.as_str());
        let shown_text = errors[j - 1].display(width);
        push_str(&mut s, shown_text.as_str());
        push_char(&mut s, '\n');
        proof {
            assert(line@.subrange(0, line@.len() as int) =~= line@);
            assert(es[j - 1].token == errors@[j - 1].token@);
            assert(s@ + shown_pointer_lines(len as int, es, j - 1, width as nat) =~= before
                + shown_pointer_lines(len as int, es, j as int, width as nat));
        }
        j -= 1;
    }
    proof {
        assert(s@ + Seq::<char>::empty() =~= s@);
    }
    s
}

/// Checks `source` and reports the result: a heading with the number of
/// errors, the source on one line, then the errors, either under a line of
/// marks with a pointer line each (`is_pretty`) or one per line.
pub fn compile(source: &str, is_pretty: bool) -> (r: String)
    requires
        widest(stage_errors(source@)) < usize::MAX,
        vstd::utf8::encode_utf8(source@).len() + 2 <= usize::MAX,
    ensures
        r@ == stage_report(source@, is_pretty, stage_errors(source@)),
{
    let tokens = tokenize(source);
    let ghost ts = token_views(tokens@);
    let analyzer = SyntaxAnalyzer::new(tokens);
    let errors = analyzer.analyze();
    let ghost es = error_views(errors@);
    let bytes = source.as_bytes();
    let byte_count = bytes.len();
    let len = source.len();
    proof {
        lemma_bytes_at_least_chars(source@);
        law_tokens_slice_the_source(source@);
        law_errors_sorted_and_from_input(ts);
        assert(len as int == vstd::utf8::encode_utf8(source@).len());
        assert forall|k: int| 0 <= k < errors@.len() implies underline_ok(len + 1, (#[trigger] errors@[k]).token@)
            && put_ok(len + 2, errors@[k].token@.start) && errors@[k].token.position.start < usize::MAX by {
            assert(es[k] == errors@[k]@);
            assert(ts.contains(es[k].token));
            let i = choose|i: int| 0 <= i < ts.len() && ts[i] == es[k].token;
            assert(slices_source(source@, ts[i]));
        }
    }
    let width = width_of(&errors);
    let n = errors.len();
    let mut s = String::new();
    if n == 0 {
        push_str(&mut s, "Analysis result: OK!\n");
    } else {
        push_str(&mut s, "Analysis result: Found ");
        push_decimal(&mut s, n);
        push_str(&mut s, " errors.\n");
    }
    push_str(&mut s, "\nCode:\n");
    let chars = collect_chars(source);
    let mut k: usize = 0;
    let ghost head = s@;
    while k < chars.len()
        invariant
            k <= chars@.len(),
            chars@ == source@,
            s@ == head + one_line(source@).take(k as int),
        decreases chars.len() - k,
    {
        if chars[k] == '\n' {
            push_char(&mut s, ' ');
        } else {
            push_char(&mut s, chars[k]);
        }
        k += 1;
        proof {
            assert(s@ =~= head + one_line(source@).take(k as int));
        }
    }
    push_char(&mut s, '\n');
    proof {
        assert(one_line(source@).take(k as int) =~= one_line(source@));
    }
    if n > 0 {
        let errors_text = if is_pretty {
            format_errors_pretty(len, &errors, width)
        } else {
            format_errors(&errors, width)
        };
        push_str(&mut s, errors_text.as_str());
        push_char(&mut s, '\n');
    }
    proof {
        assert(s@ =~= stage_report(source@, is_pretty, stage_errors(source@)));
    }
    s
}

} // verus!
