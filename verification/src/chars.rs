//! Character classes used by the scanner, and the conversion of text into
//! a sequence of characters.
use vstd::prelude::*;

verus! {

broadcast use vstd::string::group_string_axioms;

/// Whether `c` has the Unicode `Alphabetic` property (what `char::is_alphabetic` decides).
pub uninterp spec fn alphabetic(c: char) -> bool;

/// Whether `c` is in one of the Unicode numeric categories `Nd`, `Nl`, `No`
/// (what `char::is_numeric` decides).
pub uninterp spec fn numeric(c: char) -> bool;

/// Whether `c` has the Unicode `White_Space` property (what `char::is_whitespace` decides).
pub uninterp spec fn whitespace(c: char) -> bool;

pub open spec fn is_ascii(c: char) -> bool {
    (c as u32) < 128
}

pub open spec fn is_ascii_letter(c: char) -> bool {
    ('a' <= c && c <= 'z') || ('A' <= c && c <= 'Z')
}

pub open spec fn is_ascii_digit(c: char) -> bool {
    '0' <= c && c <= '9'
}

pub open spec fn is_ascii_space(c: char) -> bool {
    c == ' ' || c == '\t' || c == '\n' || c == '\r' || c == '\x0B' || c == '\x0C'
}

/// What `char::is_alphanumeric` decides: alphabetic or numeric.
pub open spec fn alphanumeric(c: char) -> bool {
    alphabetic(c) || numeric(c)
}

/// `char::is_alphabetic`. Claims that the result is the `Alphabetic` property
/// of `c`, and that among ASCII characters exactly the Latin letters have it.
#[verifier::external_body]
pub(crate) fn is_alphabetic(c: char) -> (r: bool)
    ensures
        r == alphabetic(c),
        is_ascii(c) ==> (r <==> is_ascii_letter(c)),
{
    c.is_alphabetic()
}

/// `char::is_numeric`. Claims that the result is the numeric-category test of
/// `c`, and that among ASCII characters exactly the digits `0`-`9` pass it.
#[verifier::external_body]
pub(crate) fn is_numeric(c: char) -> (r: bool)
    ensures
        r == numeric(c),
        is_ascii(c) ==> (r <==> is_ascii_digit(c)),
{
    c.is_numeric()
}

/// `char::is_alphanumeric`. Claims, as its documentation says, that the result
/// is `is_alphabetic(c) || is_numeric(c)`.
#[verifier::external_body]
pub(crate) fn is_alphanumeric(c: char) -> (r: bool)
    ensures
        r == alphanumeric(c),
{
    c.is_alphanumeric()
}

/// `char::is_whitespace`. Claims that the result is the `White_Space` property
/// of `c`, and that among ASCII characters exactly space, tab, line feed,
/// vertical tab, form feed and carriage return have it.
#[verifier::external_body]
pub(crate) fn is_whitespace(c: char) -> (r: bool)
    ensures
        r == whitespace(c),
        is_ascii(c) ==> (r <==> is_ascii_space(c)),
{
    c.is_whitespace()
}

/// The characters of `s`, in order.
pub fn collect_chars(s: &str) -> (r: Vec<char>)
    ensures
        r@ == s@,
{
    let mut out: Vec<char> = Vec::new();
    for c in it: s.chars()
        invariant
            out@ == it.seq().take(it.index() as int),
    {
        out.push(c);
    }
    out
}

/// The text made of `chars[start..end]`.
pub fn string_from_range(chars: &Vec<char>, start: usize, end: usize) -> (r: String)
    requires
        start <= end <= chars.len(),
    ensures
        r@ == chars@.subrange(start as int, end as int),
{
    let mut out = String::new();
    let mut k = start;
    while k < end
        invariant
            start <= k <= end <= chars.len(),
            out@ == chars@.subrange(start as int, k as int),
        decreases end - k,
    {
        push_char(&mut out, chars[k]);
        k += 1;
    }
    out
}

/// `String::push`. Claims that the character is appended at the end.
#[verifier::external_body]
pub(crate) fn push_char(s: &mut String, c: char)
    ensures
        final(s)@ == old(s)@.push(c),
{
    s.push(c);
}

/// `String::push_str`. Claims that the text is appended at the end.
#[verifier::external_body]
pub(crate) fn push_str(s: &mut String, t: &str)
    ensures
        final(s)@ == old(s)@ + t@,
{
    s.push_str(t);
}

} // verus!
