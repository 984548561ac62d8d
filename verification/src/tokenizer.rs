//! The scanner: turns expression text into tokens with character positions.
use vstd::prelude::*;
use std::ops::Range;
use crate::text::{decimal, push_decimal};
use crate::chars::{push_str, 
    alphabetic, alphanumeric, collect_chars, is_alphabetic, is_alphanumeric, is_ascii_digit,
    is_numeric, is_whitespace, numeric, push_char, string_from_range, whitespace,
};

verus! {

/// Kinds of tokens the scanner produces.
#[derive(Debug, Clone, Copy, PartialEq, Eq, Structural)]
pub enum TokenType {
    Identifier,
    Number,
    Plus,
    Minus,
    Asterisk,
    Slash,
    Percent,
    LeftParenthesis,
    RightParenthesis,
    LeftBracket,
    RightBracket,
    ExclamationMark,
    Ampersand,
    Pipe,
    Dot,
    Comma,
    QuotationMark,
    Space,
    Tab,
    NewLine,
    Unknown,
}

/// A token: its kind, the range of character indices it covers in the
/// source, and its text for identifiers, numbers and unknown characters.
#[derive(Debug, PartialEq, Eq)]
pub struct Token {
    pub kind: TokenType,
    pub position: Range<usize>,
    pub value: Option<String>,
}

impl Clone for Token {
    fn clone(&self) -> (r: Self)
        ensures
            r@ == self@,
    {
        let value = match &self.value {
            Some(v) => Some(v.clone()),
            None => None,
        };
        Token { kind: self.kind, position: self.position.start..self.position.end, value }
    }
}

/// The mathematical content of a token.
pub struct TokenView {
    pub kind: TokenType,
    pub start: int,
    pub end: int,
    pub value: Option<Seq<char>>,
}

impl View for Token {
    type V = TokenView;

    open spec fn view(&self) -> TokenView {
        TokenView {
            kind: self.kind,
            start: self.position.start as int,
            end: self.position.end as int,
            value: match self.value {
                Some(v) => Some(v@),
                None => None,
            },
        }
    }
}

pub open spec fn token_views(tokens: Seq<Token>) -> Seq<TokenView> {
    tokens.map_values(|t: Token| t@)
}

pub proof fn lemma_token_views_push(s: Seq<Token>, t: Token)
    ensures
        token_views(s.push(t)) == token_views(s).push(t@),
{
    assert(token_views(s.push(t)) =~= token_views(s).push(t@));
}

/// The single-character token kind of `c`, if it has one.
pub open spec fn symbol_kind(c: char) -> Option<TokenType> {
    if c == '+' {
        Some(TokenType::Plus)
    } else if c == '-' {
        Some(TokenType::Minus)
    } else if c == '*' {
        Some(TokenType::Asterisk)
    } else if c == '/' {
        Some(TokenType::Slash)
    } else if c == '%' {
        Some(TokenType::Percent)
    } else if c == '(' {
        Some(TokenType::LeftParenthesis)
    } else if c == ')' {
        Some(TokenType::RightParenthesis)
    } else if c == '[' {
        Some(TokenType::LeftBracket)
    } else if c == ']' {
        Some(TokenType::RightBracket)
    } else if c == '!' {
        Some(TokenType::ExclamationMark)
    } else if c == '&' {
        Some(TokenType::Ampersand)
    } else if c == '|' {
        Some(TokenType::Pipe)
    } else if c == '.' {
        Some(TokenType::Dot)
    } else if c == ',' {
        Some(TokenType::Comma)
    } else {
        None
    }
}

pub open spec fn starts_identifier(c: char) -> bool {
    alphabetic(c) || c == '_'
}

pub open spec fn continues_identifier(c: char) -> bool {
    alphanumeric(c) || c == '_'
}

/// The end of the longest run, starting at `i`, of characters that satisfy `p`.
pub open spec fn run_end(chars: Seq<char>, i: int, p: spec_fn(char) -> bool) -> int
    decreases chars.len() - i,
{
    if 0 <= i < chars.len() && p(chars[i]) {
        run_end(chars, i + 1, p)
    } else {
        i
    }
}

pub open spec fn mk_token(kind: TokenType, start: int, end: int, value: Option<Seq<char>>) -> TokenView {
    TokenView { kind, start, end, value }
}

/// The tokens of `chars[i..]`, scanned from index `i`; `in_string` tells
/// whether a quotation mark is open (whitespace inside quotes is kept).
pub open spec fn scan(chars: Seq<char>, i: int, in_string: bool) -> Seq<TokenView>
    decreases chars.len() - i,
{
    if i < 0 || i >= chars.len() {
        Seq::empty()
    } else {
        let c = chars[i];
        if starts_identifier(c) {
            let e = run_end(chars, i + 1, |x: char| continues_identifier(x));
            proof {
                lemma_run_end_bounds(chars, i + 1, |x: char| continues_identifier(x));
            }
            seq![mk_token(TokenType::Identifier, i, e, Some(chars.subrange(i, e)))]
                + scan(chars, e, in_string)
        } else if is_ascii_digit(c) {
            let e = run_end(chars, i + 1, |x: char| numeric(x));
            proof {
                lemma_run_end_bounds(chars, i + 1, |x: char| numeric(x));
            }
            seq![mk_token(TokenType::Number, i, e, Some(chars.subrange(i, e)))]
                + scan(chars, e, in_string)
        } else if symbol_kind(c) is Some {
            seq![mk_token(symbol_kind(c)->0, i, i + 1, None)] + scan(chars, i + 1, in_string)
        } else if c == '"' {
            seq![mk_token(TokenType::QuotationMark, i, i + 1, None)] + scan(chars, i + 1, !in_string)
        } else if c == '\n' {
            seq![mk_token(TokenType::NewLine, i, i + 1, None)] + scan(chars, i + 1, in_string)
        } else if c == '\t' {
            seq![mk_token(TokenType::Tab, i, i + 1, None)] + scan(chars, i + 1, in_string)
        } else if whitespace(c) {
            if in_string {
                let e = run_end(chars, i + 1, |x: char| whitespace(x));
                proof {
                    lemma_run_end_bounds(chars, i + 1, |x: char| whitespace(x));
                }
                seq![mk_token(TokenType::Space, i, e, None)] + scan(chars, e, in_string)
            } else {
                scan(chars, i + 1, in_string)
            }
        } else {
            seq![mk_token(TokenType::Unknown, i, i + 1, Some(seq![c]))] + scan(chars, i + 1, in_string)
        }
    }
}

/// The tokens of a whole text.
pub open spec fn spec_tokenize(chars: Seq<char>) -> Seq<TokenView> {
    scan(chars, 0, false)
}

pub proof fn lemma_run_end_bounds(chars: Seq<char>, i: int, p: spec_fn(char) -> bool)
    requires
        0 <= i <= chars.len(),
    ensures
        i <= run_end(chars, i, p) <= chars.len(),
        forall|k: int| i <= k < run_end(chars, i, p) ==> #[trigger] p(chars[k]),
        run_end(chars, i, p) < chars.len() ==> !p(chars[run_end(chars, i, p)]),
    decreases chars.len() - i,
{
    if i < chars.len() && p(chars[i]) {
        lemma_run_end_bounds(chars, i + 1, p);
    }
}

/// A token is a faithful slice of the source: it covers a non-empty range of
/// the text, and the text it carries, if any, is exactly what it covers.
pub open spec fn slices_source(chars: Seq<char>, t: TokenView) -> bool {
    &&& 0 <= t.start < t.end <= chars.len()
    &&& (t.value is Some ==> t.value->0 == chars.subrange(t.start, t.end))
    &&& (t.value is Some <==> (t.kind == TokenType::Identifier || t.kind == TokenType::Number
        || t.kind == TokenType::Unknown))
}

/// Tokens come in source order and do not overlap.
pub open spec fn in_source_order(ts: Seq<TokenView>) -> bool {
    forall|k: int| 0 <= k < ts.len() - 1 ==> #[trigger] ts[k].end <= ts[k + 1].start
}

/// Some token covers character index `i`.
pub open spec fn covered(ts: Seq<TokenView>, i: int) -> bool {
    exists|k: int| 0 <= k < ts.len() && #[trigger] ts[k].start <= i < ts[k].end
}

proof fn lemma_scan_shape(chars: Seq<char>, i: int, in_string: bool)
    requires
        0 <= i,
    ensures
        forall|k: int| 0 <= k < scan(chars, i, in_string).len() ==>
            slices_source(chars, #[trigger] scan(chars, i, in_string)[k])
            && i <= scan(chars, i, in_string)[k].start,
        in_source_order(scan(chars, i, in_string)),
        forall|j: int| i <= j < chars.len() && !whitespace(chars[j]) ==>
            covered(scan(chars, i, in_string), j),
    decreases chars.len() - i,
{
    let ts = scan(chars, i, in_string);
    if i < chars.len() {
        let c = chars[i];
        let e: int;
        let st: bool;
        if starts_identifier(c) {
            e = run_end(chars, i + 1, |x: char| continues_identifier(x));
            st = in_string;
            lemma_run_end_bounds(chars, i + 1, |x: char| continues_identifier(x));
        } else if is_ascii_digit(c) {
            e = run_end(chars, i + 1, |x: char| numeric(x));
            st = in_string;
            lemma_run_end_bounds(chars, i + 1, |x: char| numeric(x));
        } else if symbol_kind(c) is Some || c == '\n' || c == '\t' {
            e = i + 1;
            st = in_string;
        } else if c == '"' {
            e = i + 1;
            st = !in_string;
        } else if whitespace(c) && in_string {
            e = run_end(chars, i + 1, |x: char| whitespace(x));
            st = in_string;
            lemma_run_end_bounds(chars, i + 1, |x: char| whitespace(x));
        } else {
            e = i + 1;
            st = in_string;
        }
        lemma_scan_shape(chars, e, st);
        let rest = scan(chars, e, st);
        if whitespace(c) && !in_string && !starts_identifier(c) && !is_ascii_digit(c)
            && symbol_kind(c) is None && c != '"' && c != '\n' && c != '\t' {
            assert(ts == rest);
        } else {
            assert(ts == seq![ts[0]] + rest);
            assert(ts[0].start == i && ts[0].end == e);
            assert forall|k: int| 0 <= k < ts.len() - 1 implies #[trigger] ts[k].end <= ts[k + 1].start by {
                if k > 0 {
                    assert(ts[k] == rest[k - 1]);
                    assert(ts[k + 1] == rest[k]);
                }
            }
            assert forall|j: int| i <= j < chars.len() && !whitespace(chars[j]) implies covered(ts, j) by {
                if j < e {
                    assert(ts[0].start <= j < ts[0].end);
                } else {
                    assert(e <= j < chars.len() && !whitespace(chars[j]));
                    assert(covered(rest, j));
                    let k = choose|k: int| 0 <= k < rest.len() && #[trigger] rest[k].start <= j < rest[k].end;
                    assert(ts[k + 1] == rest[k]);
                    assert(ts[k + 1].start <= j < ts[k + 1].end);
                }
            }
            assert forall|k: int| 0 <= k < ts.len() implies slices_source(chars, #[trigger] ts[k]) && i <= ts[k].start by {
                if k > 0 {
                    assert(ts[k] == rest[k - 1]);
                } else {
                    assert(chars.subrange(i, i + 1) =~= seq![c]);
                }
            }
        }
    }
}

/// Scanning laws: every token of `tokenize` covers a non-empty range of the
/// text and carries exactly the text it covers (identifiers, numbers and
/// unknown characters carry text, other tokens none); tokens follow the text
/// in order without overlapping; and every character that is not whitespace
/// belongs to some token.
pub proof fn law_tokens_slice_the_source(chars: Seq<char>)
    ensures
        forall|k: int| 0 <= k < spec_tokenize(chars).len() ==>
            slices_source(chars, #[trigger] spec_tokenize(chars)[k]),
        in_source_order(spec_tokenize(chars)),
        forall|j: int| 0 <= j < chars.len() && !whitespace(chars[j]) ==>
            covered(spec_tokenize(chars), j),
{
    lemma_scan_shape(chars, 0, false);
}

/// The text that shows where a token is, with 1-based positions:
/// `[Position: p]` for a single character, `[Position: a..b]` otherwise.
pub open spec fn position_text(t: TokenView) -> Seq<char> {
    if t.start + 1 == t.end {
        "[Position: "@ + decimal((t.start + 1) as nat) + "]"@
    } else {
        "[Position: "@ + decimal((t.start + 1) as nat) + ".."@ + decimal(t.end as nat) + "]"@
    }
}

/// The text that shows what a token is.
pub open spec fn value_text(t: TokenView) -> Seq<char> {
    if t.kind == TokenType::Identifier || t.kind == TokenType::Number {
        match t.value {
            Some(v) => v,
            None => "NONE"@,
        }
    } else {
        symbol_text(t.kind)
    }
}

/// The text of each token kind that has no text of its own.
pub open spec fn symbol_text(k: TokenType) -> Seq<char> {
    match k {
        TokenType::Plus => "+"@,
        TokenType::Minus => "-"@,
        TokenType::Asterisk => "*"@,
        TokenType::Slash => "/"@,
        TokenType::Percent => "%"@,
        TokenType::LeftParenthesis => "("@,
        TokenType::RightParenthesis => ")"@,
        TokenType::LeftBracket => "["@,
        TokenType::RightBracket => "]"@,
        TokenType::ExclamationMark => "!"@,
        TokenType::Ampersand => "&"@,
        TokenType::Pipe => "|"@,
        TokenType::Dot => "."@,
        TokenType::Comma => ","@,
        TokenType::QuotationMark => "\""@,
        TokenType::Space => " "@,
        TokenType::Tab => "\\t"@,
        TokenType::NewLine => "\\n"@,
        TokenType::Unknown => "<UNKNOWN>"@,
        _ => "NONE"@,
    }
}

/// The name of each token kind.
pub open spec fn kind_name(k: TokenType) -> Seq<char> {
    match k {
        TokenType::Identifier => "Identifier"@,
        TokenType::Number => "Number"@,
        TokenType::Plus => "Plus"@,
        TokenType::Minus => "Minus"@,
        TokenType::Asterisk => "Asterisk"@,
        TokenType::Slash => "Slash"@,
        TokenType::Percent => "Percent"@,
        TokenType::LeftParenthesis => "LeftParenthesis"@,
        TokenType::RightParenthesis => "RightParenthesis"@,
        TokenType::LeftBracket => "LeftBracket"@,
        TokenType::RightBracket => "RightBracket"@,
        TokenType::ExclamationMark => "ExclamationMark"@,
        TokenType::Ampersand => "Ampersand"@,
        TokenType::Pipe => "Pipe"@,
        TokenType::Dot => "Dot"@,
        TokenType::Comma => "Comma"@,
        TokenType::QuotationMark => "QuotationMark"@,
        TokenType::Space => "Space"@,
        TokenType::Tab => "Tab"@,
        TokenType::NewLine => "NewLine"@,
        TokenType::Unknown => "Unknown"@,
    }
}

impl TokenType {
    /// The name of the kind, such as `LeftParenthesis`.
    pub fn name(&self) -> (r: &'static str)
        ensures
            r@ == kind_name(*self),
    {
        match self {
            TokenType::Identifier => "Identifier",
            TokenType::Number => "Number",
            TokenType::Plus => "Plus",
            TokenType::Minus => "Minus",
            TokenType::Asterisk => "Asterisk",
            TokenType::Slash => "Slash",
            TokenType::Percent => "Percent",
            TokenType::LeftParenthesis => "LeftParenthesis",
            TokenType::RightParenthesis => "RightParenthesis",
            TokenType::LeftBracket => "LeftBracket",
            TokenType::RightBracket => "RightBracket",
            TokenType::ExclamationMark => "ExclamationMark",
            TokenType::Ampersand => "Ampersand",
            TokenType::Pipe => "Pipe",
            TokenType::Dot => "Dot",
            TokenType::Comma => "Comma",
            TokenType::QuotationMark => "QuotationMark",
            TokenType::Space => "Space",
            TokenType::Tab => "Tab",
            TokenType::NewLine => "NewLine",
            TokenType::Unknown => "Unknown",
        }
    }
}

impl Token {
    /// Where the token is, as `[Position: p]` or `[Position: a..b]`, 1-based.
    pub fn display_position(&self) -> (r: String)
        requires
            self.position.start < usize::MAX,
        ensures
            r@ == position_text(self@),
    {
        let mut s = String::new();
        push_str(&mut s, "[Position: ");
        push_decimal(&mut s, self.position.start + 1);
        if self.position.start + 1 != self.position.end {
            push_str(&mut s, "..");
            push_decimal(&mut s, self.position.end);
        }
        push_str(&mut s, "]");
        proof {
            assert(s@ =~= position_text(self@));
        }
        s
    }

    /// What the token is: its text for identifiers and numbers, its symbol
    /// otherwise.
    pub fn display_value(&self) -> (r: String)
        ensures
            r@ == value_text(self@),
    {
        let text: &str = match self.kind {
            TokenType::Identifier | TokenType::Number => match &self.value {
                Some(value) => value.as_str(),
                None => "NONE",
            },
            TokenType::Plus => "+",
            TokenType::Minus => "-",
            TokenType::Asterisk => "*",
            TokenType::Slash => "/",
            TokenType::Percent => "%",
            TokenType::LeftParenthesis => "(",
            TokenType::RightParenthesis => ")",
            TokenType::LeftBracket => "[",
            TokenType::RightBracket => "]",
            TokenType::ExclamationMark => "!",
            TokenType::Ampersand => "&",
            TokenType::Pipe => "|",
            TokenType::Dot => ".",
            TokenType::Comma => ",",
            TokenType::QuotationMark => "\"",
            TokenType::Space => " ",
            TokenType::Tab => "\\t",
            TokenType::NewLine => "\\n",
            TokenType::Unknown => "<UNKNOWN>",
        };
        let mut s = String::new();
        push_str(&mut s, text);
        proof {
            assert(s@ =~= value_text(self@));
        }
        s
    }
}

fn single(kind: TokenType, index: usize) -> (t: Token)
    requires
        index < usize::MAX,
    ensures
        t@ == mk_token(kind, index as int, index + 1, None),
{
    Token { kind, position: index..index + 1, value: None }
}

fn symbol_kind_of(c: char) -> (r: Option<TokenType>)
    ensures
        r == symbol_kind(c),
{
    if c == '+' {
        Some(TokenType::Plus)
    } else if c == '-' {
        Some(TokenType::Minus)
    } else if c == '*' {
        Some(TokenType::Asterisk)
    } else if c == '/' {
        Some(TokenType::Slash)
    } else if c == '%' {
        Some(TokenType::Percent)
    } else if c == '(' {
        Some(TokenType::LeftParenthesis)
    } else if c == ')' {
        Some(TokenType::RightParenthesis)
    } else if c == '[' {
        Some(TokenType::LeftBracket)
    } else if c == ']' {
        Some(TokenType::RightBracket)
    } else if c == '!' {
        Some(TokenType::ExclamationMark)
    } else if c == '&' {
        Some(TokenType::Ampersand)
    } else if c == '|' {
        Some(TokenType::Pipe)
    } else if c == '.' {
        Some(TokenType::Dot)
    } else if c == ',' {
        Some(TokenType::Comma)
    } else {
        None
    }
}

/// Splits `input` into tokens. Identifiers start with a letter or `_` and go
/// on over letters, digits and `_`; numbers start with an ASCII digit and go
/// on over numeric characters; whitespace is dropped outside quotation marks
/// and kept as `Space` tokens inside them; any other character that is not an
/// operator or punctuation becomes an `Unknown` token carrying that character.
/// Positions are character indices.
pub fn tokenize(input: &str) -> (tokens: Vec<Token>)
    ensures
        token_views(tokens@) == spec_tokenize(input@),
{
    let chars = collect_chars(input);
    let n = chars.len();
    let mut tokens: Vec<Token> = Vec::new();
    let mut in_string = false;
    let mut index: usize = 0;
    while index < n
        invariant
            n == chars.len(),
            chars@ == input@,
            index <= n,
            token_views(tokens@) + scan(chars@, index as int, in_string) == spec_tokenize(chars@),
        decreases n - index,
    {
        let c = chars[index];
        let ghost before = tokens@;
        let ghost rest = scan(chars@, index as int, in_string);
        let kind = symbol_kind_of(c);
        if is_alphabetic(c) || c == '_' {
            let mut end = index + 1;
            while end < n && (is_alphanumeric(chars[end]) || chars[end] == '_')
                invariant
                    index < end <= n == chars.len(),
                    run_end(chars@, end as int, |x: char| continues_identifier(x))
                        == run_end(chars@, index + 1, |x: char| continues_identifier(x)),
                decreases n - end,
            {
                end += 1;
            }
            let value = string_from_range(&chars, index, end);
            tokens.push(Token { kind: TokenType::Identifier, position: index..end, value: Some(value) });
            proof {
                lemma_run_end_bounds(chars@, index + 1, |x: char| continues_identifier(x));
            }
            index = end;
        } else if '0' <= c && c <= '9' {
            let mut end = index + 1;
            while end < n && is_numeric(chars[end])
                invariant
                    index < end <= n == chars.len(),
                    run_end(chars@, end as int, |x: char| numeric(x))
                        == run_end(chars@, index + 1, |x: char| numeric(x)),
                decreases n - end,
            {
                end += 1;
            }
            let value = string_from_range(&chars, index, end);
            tokens.push(Token { kind: TokenType::Number, position: index..end, value: Some(value) });
            proof {
                lemma_run_end_bounds(chars@, index + 1, |x: char| numeric(x));
            }
            index = end;
        } else if kind.is_some() {
            tokens.push(single(kind.unwrap(), index));
            index += 1;
        } else if c == '"' {
            in_string = !in_string;
            tokens.push(single(TokenType::QuotationMark, index));
            index += 1;
        } else if c == '\n' {
            tokens.push(single(TokenType::NewLine, index));
            index += 1;
        } else if c == '\t' {
            tokens.push(single(TokenType::Tab, index));
            index += 1;
        } else if is_whitespace(c) {
            if in_string {
                let mut end = index + 1;
                while end < n && is_whitespace(chars[end])
                    invariant
                        index < end <= n == chars.len(),
                        run_end(chars@, end as int, |x: char| whitespace(x))
                            == run_end(chars@, index + 1, |x: char| whitespace(x)),
                    decreases n - end,
                {
                    end += 1;
                }
                tokens.push(Token { kind: TokenType::Space, position: index..end, value: None });
                proof {
                    lemma_run_end_bounds(chars@, index + 1, |x: char| whitespace(x));
                }
                index = end;
            } else {
                index += 1;
            }
        } else {
            let mut text = String::new();
            push_char(&mut text, c);
            tokens.push(Token { kind: TokenType::Unknown, position: index..index + 1, value: Some(text) });
            index += 1;
        }
        proof {
            assert(token_views(tokens@) =~= token_views(before) + token_views(tokens@).skip(before.len() as int));
            assert(rest == token_views(tokens@).skip(before.len() as int) + scan(chars@, index as int, in_string));
        }
    }
    proof {
        assert(token_views(tokens@) + Seq::<TokenView>::empty() =~= token_views(tokens@));
    }
    tokens
}

} // verus!
