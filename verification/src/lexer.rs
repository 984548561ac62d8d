//! Turns checked tokens into lexemes: operators, names, string literals and
//! decimal numbers (a number with its fraction becomes one lexeme).
use vstd::prelude::*;
use crate::chars::{collect_chars, push_char, push_str};
use crate::text::{decimal, push_decimal};
use crate::tokenizer::{Token, TokenType, TokenView, kind_name, token_views, value_text, symbol_kind};

verus! {

/// A lexeme; `N` is how numbers are held.
#[derive(Debug, Clone, PartialEq)]
pub enum Lexeme<N> {
    Identifier(String),
    Number(N),
    Plus,
    Minus,
    Multiply,
    Divide,
    Modulus,
    LeftParenthesis,
    RightParenthesis,
    LeftBracket,
    RightBracket,
    Not,
    And,
    Or,
    Comma,
    String(String),
}

/// The mathematical content of a lexeme.
pub enum LexemeView<N> {
    Identifier(Seq<char>),
    Number(N),
    Plus,
    Minus,
    Multiply,
    Divide,
    Modulus,
    LeftParenthesis,
    RightParenthesis,
    LeftBracket,
    RightBracket,
    Not,
    And,
    Or,
    Comma,
    String(Seq<char>),
}

impl<N> Lexeme<N> {
    pub open spec fn lexeme_view(&self) -> LexemeView<N> {
        match self {
            Lexeme::Identifier(s) => LexemeView::Identifier(s@),
            Lexeme::Number(n) => LexemeView::Number(*n),
            Lexeme::Plus => LexemeView::Plus,
            Lexeme::Minus => LexemeView::Minus,
            Lexeme::Multiply => LexemeView::Multiply,
            Lexeme::Divide => LexemeView::Divide,
            Lexeme::Modulus => LexemeView::Modulus,
            Lexeme::LeftParenthesis => LexemeView::LeftParenthesis,
            Lexeme::RightParenthesis => LexemeView::RightParenthesis,
            Lexeme::LeftBracket => LexemeView::LeftBracket,
            Lexeme::RightBracket => LexemeView::RightBracket,
            Lexeme::Not => LexemeView::Not,
            Lexeme::And => LexemeView::And,
            Lexeme::Or => LexemeView::Or,
            Lexeme::Comma => LexemeView::Comma,
            Lexeme::String(s) => LexemeView::String(s@),
        }
    }

    /// The lexeme's type, such as `Left Parenthesis`.
    pub fn display_type(&self) -> (r: &'static str)
        ensures
            r@ == lexeme_type_name(self.lexeme_view()),
    {
        match self {
            Lexeme::Identifier(_) => "Identifier",
            Lexeme::Number(_) => "Number",
            Lexeme::Plus => "Plus",
            Lexeme::Minus => "Minus",
            Lexeme::Multiply => "Multiply",
            Lexeme::Divide => "Divide",
            Lexeme::Modulus => "Modulus",
            Lexeme::LeftParenthesis => "Left Parenthesis",
            Lexeme::RightParenthesis => "Right Parenthesis",
            Lexeme::LeftBracket => "Left Bracket",
            Lexeme::RightBracket => "Right Bracket",
            Lexeme::Not => "Not",
            Lexeme::And => "And",
            Lexeme::Or => "Or",
            Lexeme::Comma => "Comma",
            Lexeme::String(_) => "String",
        }
    }
}

pub open spec fn lexeme_type_name<N>(l: LexemeView<N>) -> Seq<char> {
    match l {
        LexemeView::Identifier(_) => "Identifier"@,
        LexemeView::Number(_) => "Number"@,
        LexemeView::Plus => "Plus"@,
        LexemeView::Minus => "Minus"@,
        LexemeView::Multiply => "Multiply"@,
        LexemeView::Divide => "Divide"@,
        LexemeView::Modulus => "Modulus"@,
        LexemeView::LeftParenthesis => "Left Parenthesis"@,
        LexemeView::RightParenthesis => "Right Parenthesis"@,
        LexemeView::LeftBracket => "Left Bracket"@,
        LexemeView::RightBracket => "Right Bracket"@,
        LexemeView::Not => "Not"@,
        LexemeView::And => "And"@,
        LexemeView::Or => "Or"@,
        LexemeView::Comma => "Comma"@,
        LexemeView::String(_) => "String"@,
    }
}

pub open spec fn lexeme_views<N>(ls: Seq<Lexeme<N>>) -> Seq<LexemeView<N>> {
    ls.map_values(|l: Lexeme<N>| l.lexeme_view())
}

/// The content of a lexeme whose numbers are held as their text.
pub open spec fn lexeme_text_view(l: Lexeme<String>) -> LexemeView<Seq<char>> {
    match l {
        Lexeme::Identifier(s) => LexemeView::Identifier(s@),
        Lexeme::Number(n) => LexemeView::Number(n@),
        Lexeme::Plus => LexemeView::Plus,
        Lexeme::Minus => LexemeView::Minus,
        Lexeme::Multiply => LexemeView::Multiply,
        Lexeme::Divide => LexemeView::Divide,
        Lexeme::Modulus => LexemeView::Modulus,
        Lexeme::LeftParenthesis => LexemeView::LeftParenthesis,
        Lexeme::RightParenthesis => LexemeView::RightParenthesis,
        Lexeme::LeftBracket => LexemeView::LeftBracket,
        Lexeme::RightBracket => LexemeView::RightBracket,
        Lexeme::Not => LexemeView::Not,
        Lexeme::And => LexemeView::And,
        Lexeme::Or => LexemeView::Or,
        Lexeme::Comma => LexemeView::Comma,
        Lexeme::String(s) => LexemeView::String(s@),
    }
}

pub open spec fn lexeme_text_views(ls: Seq<Lexeme<String>>) -> Seq<LexemeView<Seq<char>>> {
    ls.map_values(|l: Lexeme<String>| lexeme_text_view(l))
}

proof fn lemma_text_views_push(ls: Seq<Lexeme<String>>, l: Lexeme<String>)
    ensures
        lexeme_text_views(ls.push(l)) == lexeme_text_views(ls).push(lexeme_text_view(l)),
{
    assert(lexeme_text_views(ls.push(l)) =~= lexeme_text_views(ls).push(lexeme_text_view(l)));
}

/// Why a number's text could not be read as a float.
#[derive(Debug, Clone, Copy, PartialEq, Eq, Structural)]
pub enum FloatErrorKind {
    Empty,
    Invalid,
}

/// Why lexing stopped.
#[derive(Debug)]
pub enum LexerError {
    NotExpectedToken(Token),
    ParseFloatError(Token, FloatErrorKind),
    TokenMissingValue(Token),
}

pub enum LexerErrorView {
    NotExpectedToken(TokenView),
    ParseFloatError(TokenView, FloatErrorKind),
    TokenMissingValue(TokenView),
}

impl View for LexerError {
    type V = LexerErrorView;

    open spec fn view(&self) -> LexerErrorView {
        match self {
            LexerError::NotExpectedToken(t) => LexerErrorView::NotExpectedToken(t@),
            LexerError::ParseFloatError(t, k) => LexerErrorView::ParseFloatError(t@, *k),
            LexerError::TokenMissingValue(t) => LexerErrorView::TokenMissingValue(t@),
        }
    }
}

/// The token at which lexing stopped.
pub open spec fn error_token(e: LexerErrorView) -> TokenView {
    match e {
        LexerErrorView::NotExpectedToken(t) => t,
        LexerErrorView::ParseFloatError(t, _) => t,
        LexerErrorView::TokenMissingValue(t) => t,
    }
}

/// What reading a number as a float reports.
pub open spec fn float_error_text(k: FloatErrorKind) -> Seq<char> {
    match k {
        FloatErrorKind::Empty => "cannot parse float from empty string"@,
        FloatErrorKind::Invalid => "invalid float literal"@,
    }
}

/// The span of a token as `[start..last]`, both 0-based.
pub open spec fn span_text(t: TokenView) -> Seq<char> {
    "["@ + decimal(t.start as nat) + ".."@ + decimal((t.end - 1) as nat) + "]"@
}

/// The text of a lexer error, with the quotation marks inside it escaped.
pub open spec fn lexer_error_text(e: LexerErrorView) -> Seq<char> {
    match e {
        LexerErrorView::NotExpectedToken(t) =>
            "Not expected token with kind \\\""@ + kind_name(t.kind) + "\\\" "@ + span_text(t),
        LexerErrorView::ParseFloatError(t, k) => "Failed to parse float "@ + span_text(t) + ": "@ + float_error_text(k),
        LexerErrorView::TokenMissingValue(t) =>
            "Token with kind \\\""@ + kind_name(t.kind) + "\\\" "@ + span_text(t) + " is missing a value"@,
    }
}

/// The whole message of a lexer error: `Lexer error. "..."`.
pub open spec fn lexer_message(e: LexerErrorView) -> Seq<char> {
    "Lexer error. \""@ + lexer_error_text(e) + "\""@
}

impl LexerError {
    /// The message shown for this error, such as
    /// `Lexer error. "Not expected token with kind \"Dot\" [3..3]"`.
    pub fn message(&self) -> (r: String)
        requires
            error_token(self@).end >= 1,
        ensures
            r@ == lexer_message(self@),
    {
        let token = match self {
            LexerError::NotExpectedToken(t) => t,
            LexerError::ParseFloatError(t, _) => t,
            LexerError::TokenMissingValue(t) => t,
        };
        let mut span = String::new();
        push_str(&mut span, "[");
        push_decimal(&mut span, token.position.start);
        push_str(&mut span, "..");
        push_decimal(&mut span, token.position.end - 1);
        push_str(&mut span, "]");
        let mut s = String::new();
        push_str(&mut s, "Lexer error. \"");
        match self {
            LexerError::NotExpectedToken(t) => {
                push_str(&mut s, "Not expected token with kind \\\"");
                push_str(&mut s, t.kind.name());
                push_str(&mut s, "\\\" ");
                push_str(&mut s, span.as_str());
            },
            LexerError::ParseFloatError(_, k) => {
                push_str(&mut s, "Failed to parse float ");
                push_str(&mut s, span.as_str());
                push_str(&mut s, ": ");
                match k {
                    FloatErrorKind::Empty => push_str(&mut s, "cannot parse float from empty string"),
                    FloatErrorKind::Invalid => push_str(&mut s, "invalid float literal"),
                }
            },
            LexerError::TokenMissingValue(t) => {
                push_str(&mut s, "Token with kind \\\"");
                push_str(&mut s, t.kind.name());
                push_str(&mut s, "\\\" ");
                push_str(&mut s, span.as_str());
                push_str(&mut s, " is missing a value");
            },
        }
        push_str(&mut s, "\"");
        proof {
            assert(s@ =~= lexer_message(self@));
        }
        s
    }
}

pub open spec fn is_ascii_digits(s: Seq<char>) -> bool {
    forall|k: int| 0 <= k < s.len() ==> '0' <= #[trigger] s[k] && s[k] <= '9'
}

pub open spec fn is_sign(c: char) -> bool {
    c == '+' || c == '-'
}

/// `c` is the lower-case ASCII letter `w`, or its upper-case form.
pub open spec fn same_letter(c: char, w: char) -> bool {
    c == w || ('A' <= c && c <= 'Z' && c as u32 + 32 == w as u32)
}

/// `s` equals `word` (given in lower case) ignoring ASCII case.
pub open spec fn same_word(s: Seq<char>, word: Seq<char>) -> bool {
    s.len() == word.len() && forall|k: int| 0 <= k < s.len() ==> same_letter(#[trigger] s[k], word[k])
}

/// The index of the first `a` or `b` in `s`, or the length of `s`.
pub open spec fn first_of(s: Seq<char>, a: char, b: char) -> int
    decreases s.len(),
{
    if s.len() == 0 {
        0
    } else if s[0] == a || s[0] == b {
        0
    } else {
        1 + first_of(s.drop_first(), a, b)
    }
}

/// Digits with at most one dot, and at least one digit.
pub open spec fn mantissa_ok(m: Seq<char>) -> bool {
    let d = first_of(m, '.', '.');
    if d == m.len() {
        d > 0 && is_ascii_digits(m)
    } else {
        is_ascii_digits(m.take(d)) && is_ascii_digits(m.skip(d + 1)) && m.len() > 1
    }
}

/// The digits of an exponent, with an optional sign.
pub open spec fn exponent_ok(r: Seq<char>) -> bool {
    let digits = if r.len() > 0 && is_sign(r[0]) { r.skip(1) } else { r };
    digits.len() > 0 && is_ascii_digits(digits)
}

/// An unsigned decimal: a mantissa, then optionally `e` and an exponent.
pub open spec fn decimal_ok(b: Seq<char>) -> bool {
    let e = first_of(b, 'e', 'E');
    mantissa_ok(b.take(e)) && (e == b.len() || exponent_ok(b.skip(e + 1)))
}

/// Whether `s` is a floating-point literal: an optional sign, then `inf`,
/// `infinity`, `nan` (in any case) or a decimal with an optional exponent.
/// These are the texts that reading a number as `f64` accepts.
pub open spec fn float_literal(s: Seq<char>) -> bool {
    let body = if s.len() > 0 && is_sign(s[0]) { s.skip(1) } else { s };
    same_word(body, seq!['i', 'n', 'f']) || same_word(body, seq!['i', 'n', 'f', 'i', 'n', 'i', 't', 'y'])
        || same_word(body, seq!['n', 'a', 'n']) || decimal_ok(body)
}

proof fn lemma_first_of(s: Seq<char>, a: char, b: char, d: int)
    requires
        0 <= d <= s.len(),
        forall|k: int| 0 <= k < d ==> s[k] != a && s[k] != b,
        d < s.len() ==> (s[d] == a || s[d] == b),
    ensures
        first_of(s, a, b) == d,
    decreases s.len(),
{
    if s.len() > 0 && s[0] != a && s[0] != b {
        assert forall|k: int| 0 <= k < d - 1 implies s.drop_first()[k] != a && s.drop_first()[k] != b by {
            assert(s.drop_first()[k] == s[k + 1]);
        }
        lemma_first_of(s.drop_first(), a, b, d - 1);
    }
}

fn digits_between(s: &Vec<char>, lo: usize, hi: usize) -> (r: bool)
    requires
        lo <= hi <= s.len(),
    ensures
        r == is_ascii_digits(s@.subrange(lo as int, hi as int)),
{
    let mut k = lo;
    while k < hi
        invariant
            lo <= k <= hi,
            hi <= s.len(),
            is_ascii_digits(s@.subrange(lo as int, k as int)),
        decreases hi - k,
    {
        if !('0' <= s[k] && s[k] <= '9') {
            assert(s@.subrange(lo as int, hi as int)[k - lo] == s@[k as int]);
            return false;
        }
        assert forall|j: int| 0 <= j < k + 1 - lo implies '0' <= #[trigger] s@.subrange(lo as int, k + 1)[j]
            && s@.subrange(lo as int, k + 1)[j] <= '9' by {
            if j < k - lo {
                assert(s@.subrange(lo as int, k + 1)[j] == s@.subrange(lo as int, k as int)[j]);
            }
        }
        k += 1;
    }
    true
}

fn find_between(s: &Vec<char>, lo: usize, hi: usize, a: char, b: char) -> (r: usize)
    requires
        lo <= hi <= s.len(),
    ensures
        lo <= r <= hi,
        forall|k: int| lo <= k < r ==> s@[k] != a && s@[k] != b,
        r < hi ==> (s@[r as int] == a || s@[r as int] == b),
{
    let mut k = lo;
    while k < hi
        invariant
            lo <= k <= hi,
            hi <= s.len(),
            forall|j: int| lo <= j < k ==> s@[j] != a && s@[j] != b,
        decreases hi - k,
    {
        if s[k] == a || s[k] == b {
            return k;
        }
        k += 1;
    }
    k
}

proof fn lemma_first_of_between(s: Seq<char>, lo: int, hi: int, a: char, b: char, r: int)
    requires
        0 <= lo <= r <= hi <= s.len(),
        forall|k: int| lo <= k < r ==> s[k] != a && s[k] != b,
        r < hi ==> (s[r] == a || s[r] == b),
    ensures
        first_of(s.subrange(lo, hi), a, b) == r - lo,
{
    let t = s.subrange(lo, hi);
    assert forall|k: int| 0 <= k < r - lo implies t[k] != a && t[k] != b by {
        assert(t[k] == s[lo + k]);
    }
    lemma_first_of(t, a, b, r - lo);
}

fn mantissa_between(s: &Vec<char>, lo: usize, hi: usize) -> (r: bool)
    requires
        lo <= hi <= s.len(),
    ensures
        r == mantissa_ok(s@.subrange(lo as int, hi as int)),
{
    let d = find_between(s, lo, hi, '.', '.');
    proof {
        lemma_first_of_between(s@, lo as int, hi as int, '.', '.', d as int);
    }
    let m = Ghost(s@.subrange(lo as int, hi as int));
    if d == hi {
        hi > lo && digits_between(s, lo, hi)
    } else {
        assert(m@.take(d - lo) =~= s@.subrange(lo as int, d as int));
        assert(m@.skip(d - lo + 1) =~= s@.subrange(d + 1, hi as int));
        let whole = digits_between(s, lo, d);
        let fraction = digits_between(s, d + 1, hi);
        whole && fraction && hi - lo > 1
    }
}

fn exponent_between(s: &Vec<char>, lo: usize, hi: usize) -> (r: bool)
    requires
        lo <= hi <= s.len(),
    ensures
        r == exponent_ok(s@.subrange(lo as int, hi as int)),
{
    let ghost t = s@.subrange(lo as int, hi as int);
    let start = if lo < hi && (s[lo] == '+' || s[lo] == '-') {
        assert(t[0] == s@[lo as int]);
        assert(t.skip(1) =~= s@.subrange(lo + 1, hi as int));
        lo + 1
    } else {
        lo
    };
    start < hi && digits_between(s, start, hi)
}

fn decimal_between(s: &Vec<char>, lo: usize, hi: usize) -> (r: bool)
    requires
        lo <= hi <= s.len(),
    ensures
        r == decimal_ok(s@.subrange(lo as int, hi as int)),
{
    let e = find_between(s, lo, hi, 'e', 'E');
    let ghost b = s@.subrange(lo as int, hi as int);
    proof {
        lemma_first_of_between(s@, lo as int, hi as int, 'e', 'E', e as int);
        assert(b.take(e - lo) =~= s@.subrange(lo as int, e as int));
    }
    if !mantissa_between(s, lo, e) {
        return false;
    }
    if e == hi {
        true
    } else {
        assert(b.skip(e - lo + 1) =~= s@.subrange(e + 1, hi as int));
        exponent_between(s, e + 1, hi)
    }
}

fn word_between(s: &Vec<char>, lo: usize, hi: usize, word: &[char]) -> (r: bool)
    requires
        lo <= hi <= s.len(),
        forall|k: int| 0 <= k < word@.len() ==> 'a' <= #[trigger] word@[k] && word@[k] <= 'z',
    ensures
        r == same_word(s@.subrange(lo as int, hi as int), word@),
{
    let ghost t = s@.subrange(lo as int, hi as int);
    if hi - lo != word.len() {
        return false;
    }
    let mut k: usize = 0;
    while k < word.len()
        invariant
            lo <= hi <= s.len(),
            hi - lo == word@.len(),
            t == s@.subrange(lo as int, hi as int),
            0 <= k <= word@.len(),
            forall|j: int| 0 <= j < k ==> same_letter(#[trigger] t[j], word@[j]),
        decreases word.len() - k,
    {
        let c = s[lo + k];
        let w = word[k];
        assert(t[k as int] == c);
        if !(c == w || ('A' <= c && c <= 'Z' && (c as u32) + 32 == (w as u32))) {
            return false;
        }
        k += 1;
    }
    true
}

/// Whether `s` is a floating-point literal (see [`float_literal`]).
pub fn is_float_literal(s: &Vec<char>) -> (r: bool)
    ensures
        r == float_literal(s@),
{
    let n = s.len();
    let lo: usize = if n > 0 && (s[0] == '+' || s[0] == '-') {
        assert(s@.skip(1) =~= s@.subrange(1, n as int));
        1
    } else {
        assert(s@ =~= s@.subrange(0, n as int));
        0
    };
    let inf: [char; 3] = ['i', 'n', 'f'];
    let infinity: [char; 8] = ['i', 'n', 'f', 'i', 'n', 'i', 't', 'y'];
    let nan: [char; 3] = ['n', 'a', 'n'];
    assert(inf@ =~= seq!['i', 'n', 'f']);
    assert(infinity@ =~= seq!['i', 'n', 'f', 'i', 'n', 'i', 't', 'y']);
    assert(nan@ =~= seq!['n', 'a', 'n']);
    word_between(s, lo, n, &inf) || word_between(s, lo, n, &infinity) || word_between(s, lo, n, &nan)
        || decimal_between(s, lo, n)
}

/// The lexeme of an operator or punctuation token, if it has one.
pub open spec fn symbol_lexeme<N>(k: TokenType) -> Option<LexemeView<N>> {
    match k {
        TokenType::Plus => Some(LexemeView::Plus),
        TokenType::Minus => Some(LexemeView::Minus),
        TokenType::Asterisk => Some(LexemeView::Multiply),
        TokenType::Slash => Some(LexemeView::Divide),
        TokenType::Percent => Some(LexemeView::Modulus),
        TokenType::LeftParenthesis => Some(LexemeView::LeftParenthesis),
        TokenType::RightParenthesis => Some(LexemeView::RightParenthesis),
        TokenType::LeftBracket => Some(LexemeView::LeftBracket),
        TokenType::RightBracket => Some(LexemeView::RightBracket),
        TokenType::ExclamationMark => Some(LexemeView::Not),
        TokenType::Ampersand => Some(LexemeView::And),
        TokenType::Pipe => Some(LexemeView::Or),
        TokenType::Comma => Some(LexemeView::Comma),
        _ => None,
    }
}

/// The state of lexing: position, whether a string is open, the text of the
/// open string, and the lexemes so far.
pub struct LexState {
    pub index: int,
    pub in_string: bool,
    pub buffer: Seq<char>,
    pub out: Seq<LexemeView<Seq<char>>>,
}

/// The text of the number starting at `i`, joined with its fraction when
/// followed by `. number`, and how many tokens it takes.
pub open spec fn number_at(ts: Seq<TokenView>, i: int) -> (Seq<char>, int) {
    let whole = ts[i].value->0;
    if i + 2 < ts.len() && ts[i + 1].kind == TokenType::Dot && ts[i + 2].kind == TokenType::Number
        && ts[i + 2].value is Some {
        (whole + seq!['.'] + ts[i + 2].value->0, 3)
    } else {
        (whole, 1)
    }
}

/// One step of lexing at `s.index`: the next state, or the error met.
pub open spec fn lex_step(ts: Seq<TokenView>, s: LexState) -> Result<LexState, LexerErrorView> {
    let i = s.index;
    let t = ts[i];
    if s.in_string && t.kind != TokenType::QuotationMark {
        Ok(LexState { index: i + 1, buffer: s.buffer + value_text(t), ..s })
    } else if t.kind == TokenType::Number {
        if t.value is None {
            Err(LexerErrorView::TokenMissingValue(t))
        } else {
            let (text, n) = number_at(ts, i);
            if float_literal(text) {
                Ok(LexState { index: i + n, out: s.out.push(LexemeView::Number(text)), ..s })
            } else {
                Err(LexerErrorView::ParseFloatError(t, if text.len() == 0 { FloatErrorKind::Empty } else { FloatErrorKind::Invalid }))
            }
        }
    } else if t.kind == TokenType::Identifier {
        if t.value is None {
            Err(LexerErrorView::TokenMissingValue(t))
        } else {
            Ok(LexState { index: i + 1, out: s.out.push(LexemeView::Identifier(t.value->0)), ..s })
        }
    } else if symbol_lexeme::<Seq<char>>(t.kind) is Some {
        Ok(LexState { index: i + 1, out: s.out.push(symbol_lexeme::<Seq<char>>(t.kind)->0), ..s })
    } else if t.kind == TokenType::QuotationMark {
        if s.in_string {
            Ok(LexState {
                index: i + 1,
                in_string: false,
                buffer: Seq::empty(),
                out: s.out.push(LexemeView::String(s.buffer)),
            })
        } else {
            Ok(LexState { index: i + 1, in_string: true, ..s })
        }
    } else {
        Err(LexerErrorView::NotExpectedToken(t))
    }
}

/// Lexing from state `s` to the end of the tokens.
pub open spec fn lex_run(ts: Seq<TokenView>, s: LexState) -> Result<LexState, LexerErrorView>
    decreases ts.len() - s.index,
{
    if s.index < 0 || s.index >= ts.len() {
        Ok(s)
    } else {
        match lex_step(ts, s) {
            Ok(next) => if next.index > s.index {
                lex_run(ts, next)
            } else {
                Ok(next)
            },
            Err(e) => Err(e),
        }
    }
}

/// The index at which lexing from `s` stops: the end, or the failing token.
pub open spec fn lex_stop(ts: Seq<TokenView>, s: LexState) -> LexState
    decreases ts.len() - s.index,
{
    if s.index < 0 || s.index >= ts.len() {
        s
    } else {
        match lex_step(ts, s) {
            Ok(next) => if next.index > s.index {
                lex_stop(ts, next)
            } else {
                next
            },
            Err(_) => s,
        }
    }
}

/// Every number among `out` is written as a float literal.
pub open spec fn numbers_are_literals(out: Seq<LexemeView<Seq<char>>>) -> bool {
    forall|k: int| 0 <= k < out.len() ==> (#[trigger] out[k] matches LexemeView::Number(text) ==> float_literal(text))
}

/// Lexing only ever gives numbers written as float literals: from a state
/// whose numbers are literals, the lexemes that a successful run ends with
/// hold no other number.
pub proof fn law_lexed_numbers_are_literals(ts: Seq<TokenView>, s: LexState)
    requires
        numbers_are_literals(s.out),
    ensures
        lex_run(ts, s) is Ok ==> numbers_are_literals(lex_run(ts, s)->Ok_0.out),
    decreases ts.len() - s.index,
{
    if 0 <= s.index < ts.len() {
        if let Ok(next) = lex_step(ts, s) {
            assert forall|k: int| 0 <= k < next.out.len() implies (#[trigger] next.out[k] matches LexemeView::Number(text) ==> float_literal(text)) by {
                if k < s.out.len() {
                    assert(next.out[k] == s.out[k]);
                }
            }
            if next.index > s.index {
                law_lexed_numbers_are_literals(ts, next);
            }
        }
    }
}

/// Reads tokens into lexemes.
#[derive(Debug)]
pub struct Lexer {
    tokens: Vec<Token>,
    current_index: usize,
    in_string: bool,
}

impl Lexer {
    pub closed spec fn input(&self) -> Seq<TokenView> {
        token_views(self.tokens@)
    }

    pub closed spec fn position(&self) -> int {
        self.current_index as int
    }

    pub closed spec fn inside_string(&self) -> bool {
        self.in_string
    }

    /// A lexer at the first of `tokens`, outside any string.
    pub fn new(tokens: Vec<Token>) -> (r: Self)
        ensures
            r.input() == token_views(tokens@),
            r.position() == 0,
            !r.inside_string(),
    {
        Self { tokens, current_index: 0, in_string: false }
    }

    /// The state that lexing from here starts in.
    pub open spec fn start_state(&self) -> LexState {
        LexState { index: self.position(), in_string: self.inside_string(), buffer: Seq::empty(), out: Seq::empty() }
    }

    /// Reads the tokens from the current position to the end into lexemes.
    /// A number followed by a dot and a number becomes one number; the tokens
    /// between two quotation marks become one string. Numbers are kept as
    /// their text, which is checked to be a float literal. Stops at the
    /// first token that cannot be read, and stays there.
    pub fn run(&mut self) -> (r: Result<Vec<Lexeme<String>>, LexerError>)
        ensures
            match lex_run(old(self).input(), old(self).start_state()) {
                Ok(s) => r is Ok && lexeme_text_views(r->Ok_0@) == s.out,
                Err(e) => r is Err && r->Err_0@ == e,
            },
            final(self).input() == old(self).input(),
            final(self).position() == lex_stop(old(self).input(), old(self).start_state()).index,
            final(self).inside_string() == lex_stop(old(self).input(), old(self).start_state()).in_string,
    {
        let ghost ts = self.input();
        let ghost start = self.start_state();
        let mut lexemes: Vec<Lexeme<String>> = Vec::new();
        let mut string_buffer = String::new();
        assert(lexeme_text_views(lexemes@) =~= Seq::<LexemeView<Seq<char>>>::empty());
        assert(string_buffer@ =~= Seq::<char>::empty());
        while self.current_index < self.tokens.len()
            invariant
                ts == self.input(),
                ts == old(self).input(),
                start == old(self).start_state(),
                ts == token_views(self.tokens@),
                ({
                    let cur = LexState {
                        index: self.current_index as int,
                        in_string: self.in_string,
                        buffer: string_buffer@,
                        out: lexeme_text_views(lexemes@),
                    };
                    &&& lex_run(ts, start) == lex_run(ts, cur)
                    &&& lex_stop(ts, start) == lex_stop(ts, cur)
                }),
            decreases self.tokens.len() - self.current_index,
        {
            let ghost cur = LexState {
                index: self.current_index as int,
                in_string: self.in_string,
                buffer: string_buffer@,
                out: lexeme_text_views(lexemes@),
            };
            let i = self.current_index;
            let token = &self.tokens[i];
            assert(ts[i as int] == token@);
            if self.in_string && token.kind != TokenType::QuotationMark {
                let text = token.display_value();
                push_str(&mut string_buffer, text.as_str());
                self.current_index += 1;
                proof {
                    let next = LexState { index: i + 1, buffer: cur.buffer + value_text(ts[i as int]), ..cur };
                    assert(lex_step(ts, cur) == Ok::<LexState, LexerErrorView>(next));
                }
                continue;
            }
            let mut step: usize = 1;
            let lexeme = match token.kind {
                TokenType::Number => {
                    let whole = match &token.value {
                        Some(v) => v,
                        None => {
                            return Err(LexerError::TokenMissingValue(token.clone()));
                        },
                    };
                    let mut number = whole.clone();
                    let mut joined = false;
                    if let Some(possible_dot) = self.peek_next() {
                        if possible_dot.kind == TokenType::Dot {
                            if let Some(fraction_token) = self.peek_next_by(2) {
                                if fraction_token.kind == TokenType::Number {
                                    if let Some(fraction) = &fraction_token.value {
                                        push_char(&mut number, '.');
                                        push_str(&mut number, fraction.as_str());
                                        step = 3;
                                        joined = true;
                                    }
                                }
                            }
                        }
                    }
                    proof {
                        let (text, n) = number_at(ts, i as int);
                        assert(number@ == text && step == n);
                    }
                    let chars = collect_chars(number.as_str());
                    if !is_float_literal(&chars) {
                        let kind = if chars.len() == 0 { FloatErrorKind::Empty } else { FloatErrorKind::Invalid };
                        return Err(LexerError::ParseFloatError(token.clone(), kind));
                    }
                    Lexeme::Number(number)
                },
                TokenType::Identifier => {
                    match &token.value {
                        Some(v) => Lexeme::Identifier(v.clone()),
                        None => {
                            return Err(LexerError::TokenMissingValue(token.clone()));
                        },
                    }
                },
                TokenType::Plus => Lexeme::Plus,
                TokenType::Minus => Lexeme::Minus,
                TokenType::Asterisk => Lexeme::Multiply,
                TokenType::Slash => Lexeme::Divide,
                TokenType::Percent => Lexeme::Modulus,
                TokenType::LeftParenthesis => Lexeme::LeftParenthesis,
                TokenType::RightParenthesis => Lexeme::RightParenthesis,
                TokenType::LeftBracket => Lexeme::LeftBracket,
                TokenType::RightBracket => Lexeme::RightBracket,
                TokenType::ExclamationMark => Lexeme::Not,
                TokenType::Ampersand => Lexeme::And,
                TokenType::Pipe => Lexeme::Or,
                TokenType::Comma => Lexeme::Comma,
                TokenType::QuotationMark => {
                    if self.in_string {
                        self.in_string = false;
                        let text = string_buffer;
                        string_buffer = String::new();
                        Lexeme::String(text)
                    } else {
                        self.in_string = true;
                        self.current_index += 1;
                        proof {
                            let next = LexState { index: i + 1, in_string: true, ..cur };
                            assert(lex_step(ts, cur) == Ok::<LexState, LexerErrorView>(next));
                        }
                        continue;
                    }
                },
                _ => {
                    return Err(LexerError::NotExpectedToken(token.clone()));
                },
            };
            let ghost before = lexemes@;
            let ghost lx = lexeme;
            lexemes.push(lexeme);
            self.current_index += step;
            proof {
                lemma_text_views_push(before, lx);
                let next = LexState {
                    index: self.current_index as int,
                    in_string: self.in_string,
                    buffer: string_buffer@,
                    out: lexeme_text_views(lexemes@),
                };
                assert(lex_step(ts, cur) == Ok::<LexState, LexerErrorView>(next));
            }
        }
        Ok(lexemes)
    }

    fn peek_next_by(&self, by: usize) -> (r: Option<&Token>)
        requires
            self.current_index < self.tokens.len(),
        ensures
            match r {
                Some(t) => self.current_index + by < self.tokens.len() && *t == self.tokens@[self.current_index + by],
                None => self.current_index + by >= self.tokens.len(),
            },
    {
        if by < self.tokens.len() - self.current_index {
            Some(&self.tokens[self.current_index + by])
        } else {
            None
        }
    }

    /// The next token, if there is one.
    fn peek_next(&self) -> (r: Option<&Token>)
        requires
            self.current_index < self.tokens.len(),
        ensures
            match r {
                Some(t) => self.current_index + 1 < self.tokens.len() && *t == self.tokens@[self.current_index + 1],
                None => self.current_index + 1 >= self.tokens.len(),
            },
    {
        self.peek_next_by(1)
    }
}

/// The character an operator or punctuation lexeme is written with.
pub open spec fn lexeme_symbol<N>(l: LexemeView<N>) -> Option<char> {
    match l {
        LexemeView::Plus => Some('+'),
        LexemeView::Minus => Some('-'),
        LexemeView::Multiply => Some('*'),
        LexemeView::Divide => Some('/'),
        LexemeView::Modulus => Some('%'),
        LexemeView::LeftParenthesis => Some('('),
        LexemeView::RightParenthesis => Some(')'),
        LexemeView::LeftBracket => Some('['),
        LexemeView::RightBracket => Some(']'),
        LexemeView::Not => Some('!'),
        LexemeView::And => Some('&'),
        LexemeView::Or => Some('|'),
        LexemeView::Comma => Some(','),
        _ => None,
    }
}

/// Outside a string, the token of a one-character operator or punctuation
/// mark `c` (any but the `.` of a fraction) becomes one lexeme written with
/// that same character: `%` is read as the remainder, `/` as division, and
/// no two symbols give the same lexeme.
pub proof fn law_symbols_keep_their_character(ts: Seq<TokenView>, s: LexState, c: char)
    requires
        0 <= s.index < ts.len(),
        !s.in_string,
        symbol_kind(c) is Some,
        c != '.',
        ts[s.index].kind == symbol_kind(c)->0,
    ensures
        lex_step(ts, s) is Ok,
        lex_step(ts, s)->Ok_0.index == s.index + 1,
        lex_step(ts, s)->Ok_0.out.len() == s.out.len() + 1,
        lex_step(ts, s)->Ok_0.out.take(s.out.len() as int) == s.out,
        lexeme_symbol(lex_step(ts, s)->Ok_0.out.last()) == Some(c),
{
    let r = lex_step(ts, s)->Ok_0;
    assert(r.out == s.out.push(symbol_lexeme::<Seq<char>>(ts[s.index].kind)->0));
    assert(r.out.take(s.out.len() as int) =~= s.out);
}

} // verus!
