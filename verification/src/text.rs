//! Text building: decimal numbers, padding, in-place character replacement
//! and line buffers for reports.
use vstd::prelude::*;
use crate::chars::{collect_chars, push_char, push_str};

verus! {

broadcast use vstd::string::group_string_axioms;

pub open spec fn digit_char(d: nat) -> char {
    if d == 0 {
        '0'
    } else if d == 1 {
        '1'
    } else if d == 2 {
        '2'
    } else if d == 3 {
        '3'
    } else if d == 4 {
        '4'
    } else if d == 5 {
        '5'
    } else if d == 6 {
        '6'
    } else if d == 7 {
        '7'
    } else if d == 8 {
        '8'
    } else {
        '9'
    }
}

/// The decimal digits of `n`, most significant first, without leading zeros.
pub open spec fn decimal(n: nat) -> Seq<char>
    decreases n,
{
    if n < 10 {
        seq![digit_char(n)]
    } else {
        decimal(n / 10).push(digit_char(n % 10))
    }
}

fn digit(d: usize) -> (c: char)
    requires
        d < 10,
    ensures
        c == digit_char(d as nat),
{
    if d == 0 {
        '0'
    } else if d == 1 {
        '1'
    } else if d == 2 {
        '2'
    } else if d == 3 {
        '3'
    } else if d == 4 {
        '4'
    } else if d == 5 {
        '5'
    } else if d == 6 {
        '6'
    } else if d == 7 {
        '7'
    } else if d == 8 {
        '8'
    } else {
        '9'
    }
}

/// Appends the decimal digits of `n`.
pub fn push_decimal(s: &mut String, n: usize)
    ensures
        final(s)@ == old(s)@ + decimal(n as nat),
    decreases n,
{
    if n >= 10 {
        push_decimal(s, n / 10);
    }
    push_char(s, digit(n % 10));
    proof {
        if n >= 10 {
            assert(old(s)@ + decimal((n / 10) as nat) + seq![digit_char((n % 10) as nat)] =~= old(s)@ + decimal(n as nat));
        } else {
            assert(old(s)@ + seq![digit_char(n as nat)] =~= old(s)@ + decimal(n as nat));
        }
    }
}

/// The decimal representation of `n`.
pub fn decimal_string(n: usize) -> (r: String)
    ensures
        r@ == decimal(n as nat),
{
    let mut s = String::new();
    push_decimal(&mut s, n);
    proof {
        assert(Seq::<char>::empty() + decimal(n as nat) =~= decimal(n as nat));
    }
    s
}

/// `n` copies of `c`.
pub open spec fn repeat_char(c: char, n: nat) -> Seq<char> {
    Seq::new(n, |_i: int| c)
}

/// `s` followed by spaces up to `width` characters (no spaces if `s` is
/// already that long).
pub open spec fn padded(s: Seq<char>, width: nat) -> Seq<char> {
    if s.len() < width {
        s + repeat_char(' ', (width - s.len()) as nat)
    } else {
        s
    }
}

/// Appends `n` copies of `c`.
pub fn push_repeated(s: &mut String, c: char, n: usize)
    ensures
        final(s)@ == old(s)@ + repeat_char(c, n as nat),
{
    let mut k: usize = 0;
    while k < n
        invariant
            k <= n,
            s@ == old(s)@ + repeat_char(c, k as nat),
        decreases n - k,
    {
        push_char(s, c);
        k += 1;
        proof {
            assert(s@ =~= old(s)@ + repeat_char(c, k as nat));
        }
    }
}

/// `c` repeated `n` times.
pub fn repeated(c: char, n: usize) -> (r: String)
    ensures
        r@ == repeat_char(c, n as nat),
{
    let mut s = String::new();
    push_repeated(&mut s, c, n);
    proof {
        assert(Seq::<char>::empty() + repeat_char(c, n as nat) =~= repeat_char(c, n as nat));
    }
    s
}

/// Appends `t` padded with spaces to `width` characters.
pub fn push_padded(s: &mut String, t: &str, width: usize)
    ensures
        final(s)@ == old(s)@ + padded(t@, width as nat),
{
    let len = collect_chars(t).len();
    push_str(s, t);
    if len < width {
        push_repeated(s, ' ', width - len);
    }
    proof {
        assert(final(s)@ =~= old(s)@ + padded(t@, width as nat)) by {
            if len < width {
                assert(old(s)@ + t@ + repeat_char(' ', (width - len) as nat) =~= old(s)@ + (t@
                    + repeat_char(' ', (width - t@.len()) as nat)));
            }
        }
    }
}

/// The number of bytes of the UTF-8 encoding of `s`, as `str::len` reports it.
pub open spec fn byte_len(s: Seq<char>) -> usize {
    vstd::utf8::encode_utf8(s).len() as usize
}

/// A text has at least as many bytes as characters.
pub proof fn lemma_bytes_at_least_chars(s: Seq<char>)
    ensures
        vstd::utf8::encode_utf8(s).len() >= s.len(),
    decreases s.len(),
{
    if s.len() > 0 {
        lemma_bytes_at_least_chars(s.drop_first());
    }
}

/// Replacement of a single character, addressed by its index.
pub trait StringExtension: View<V = Seq<char>> {
    /// Replaces the character at `index` with `ch` when `index` is below the
    /// byte length of the text. The character after `index` must exist.
    fn replace_char(&mut self, index: usize, ch: char)
        requires
            index < byte_len(old(self)@) ==> index + 1 < old(self)@.len(),
        ensures
            index < byte_len(old(self)@) ==> final(self)@ == old(self)@.update(index as int, ch),
            index >= byte_len(old(self)@) ==> final(self)@ == old(self)@,
    ;
}

impl StringExtension for String {
    fn replace_char(&mut self, index: usize, ch: char) {
        if index < self.as_str().len() {
            let chars = collect_chars(self.as_str());
            let mut out = String::new();
            let mut k: usize = 0;
            while k < chars.len()
                invariant
                    k <= chars.len(),
                    chars@ == old(self)@,
                    index < chars.len(),
                    out@ == chars@.update(index as int, ch).take(k as int),
                decreases chars.len() - k,
            {
                if k == index {
                    push_char(&mut out, ch);
                } else {
                    push_char(&mut out, chars[k]);
                }
                k += 1;
                proof {
                    assert(out@ =~= chars@.update(index as int, ch).take(k as int));
                }
            }
            proof {
                assert(chars@.update(index as int, ch).take(k as int) =~= chars@.update(index as int, ch));
            }
            *self = out;
        }
    }
}

/// Accumulates text.
pub struct StringBuffer {
    buffer: String,
}

impl Default for StringBuffer {
    /// Nothing collected yet.
    fn default() -> (r: Self)
        ensures
            r@ == Seq::<char>::empty(),
    {
        StringBuffer { buffer: String::new() }
    }
}

impl View for StringBuffer {
    type V = Seq<char>;

    closed spec fn view(&self) -> Seq<char> {
        self.buffer@
    }
}

impl StringBuffer {
    /// An empty buffer.
    pub fn new() -> (r: Self)
        ensures
            r@ == Seq::<char>::empty(),
    {
        StringBuffer { buffer: String::new() }
    }

    /// Appends `str`.
    pub fn add(&mut self, str: String)
        ensures
            final(self)@ == old(self)@ + str@,
    {
        push_str(&mut self.buffer, str.as_str());
    }

    /// Appends `line` and a line break.
    pub fn add_line(&mut self, line: String)
        ensures
            final(self)@ == old(self)@ + line@ + seq!['\n'],
    {
        push_str(&mut self.buffer, line.as_str());
        push_char(&mut self.buffer, '\n');
    }

    /// The accumulated text.
    pub fn get(self) -> (r: String)
        ensures
            r@ == self@,
    {
        self.buffer
    }
}

} // verus!
