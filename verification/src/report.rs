//! Text reports of the compiler stages.
use vstd::prelude::*;
use crate::chars::{push_char, push_str, string_from_range};
use crate::layout::{pointer, pointer_line, put_ok, underline, underline_ok, underlines};
use crate::syntax::{ErrorView, SyntaxError, error_views, message_text};
use crate::text::{byte_len, decimal, padded, push_decimal, push_padded, repeat_char};
use crate::tokenizer::{Token, TokenView, position_text, token_views};

verus! {

broadcast use vstd::string::group_string_axioms;

/// The tokens of a sequence of errors.
pub open spec fn error_tokens(es: Seq<ErrorView>) -> Seq<TokenView> {
    es.map_values(|e: ErrorView| e.token)
}

/// One line per error: the message padded to 50 characters and the position.
pub open spec fn plain_lines(es: Seq<ErrorView>) -> Seq<char>
    decreases es.len(),
{
    if es.len() == 0 {
        Seq::empty()
    } else {
        plain_lines(es.drop_last()) + padded(message_text(es.last()), 50) + seq![' ']
            + position_text(es.last().token) + seq!['\n']
    }
}

/// The pointer lines of `es[k - 1]` down to `es[0]`, each followed by the
/// message of its error.
pub open spec fn pointer_lines(len: int, es: Seq<ErrorView>, k: int) -> Seq<char>
    decreases k,
{
    if k <= 0 {
        Seq::empty()
    } else {
        pointer_line(len, error_tokens(es), es[k - 1].token) + message_text(es[k - 1]) + seq!['\n']
            + pointer_lines(len, es, k - 1)
    }
}

/// The source, a line of marks under the errors' tokens, then one pointer line
/// per error, from the last to the first.
pub open spec fn pretty_lines(code: Seq<char>, len: int, es: Seq<ErrorView>) -> Seq<char> {
    seq!['\n'] + code + seq!['\n'] + underlines(repeat_char(' ', len as nat), error_tokens(es))
        + seq!['\n'] + pointer_lines(len, es, es.len() as int)
}

/// The heading of the syntax report.
pub open spec fn syntax_heading(n: nat) -> Seq<char> {
    if n == 0 {
        "Tokenization & syntax analysis: OK!\n"@
    } else {
        "Syntax analysis: Found "@ + decimal(n) + " errors.\n"@
    }
}

/// The syntax report of `code` with errors `es`.
pub open spec fn syntax_report(code: Seq<char>, pretty: bool, es: Seq<ErrorView>) -> Seq<char> {
    let head = syntax_heading(es.len()) + seq!['\n'];
    if es.len() == 0 {
        head
    } else if pretty {
        head + pretty_lines(code, byte_len(code) as int, es)
    } else {
        head + plain_lines(es)
    }
}

/// The marks and pointer lines of the report can be drawn for a source of
/// `len` bytes.
pub open spec fn drawable(len: int, es: Seq<ErrorView>) -> bool {
    &&& len + 2 <= usize::MAX
    &&& forall|k: int| 0 <= k < es.len() ==> underline_ok(len, #[trigger] es[k].token)
        && put_ok(len + 2, es[k].token.start)
}

/// The equivalent-forms report: a count, then the numbered forms.
pub open spec fn forms_report(forms: Seq<Seq<char>>) -> Seq<char> {
    "Found "@ + decimal(forms.len()) + " equivalent forms!\n"@ + seq!['\n'] + numbered(forms, 0)
}

/// `forms` numbered from `first + 1`, one per line.
pub open spec fn numbered(forms: Seq<Seq<char>>, first: nat) -> Seq<char>
    decreases forms.len(),
{
    if forms.len() == 0 {
        Seq::empty()
    } else {
        decimal(first + 1) + ") "@ + forms[0] + seq!['\n'] + numbered(forms.drop_first(), first + 1)
    }
}

/// Collects report lines.
pub struct Reporter {
    buffer: String,
}

impl Default for Reporter {
    /// Nothing collected yet.
    fn default() -> (r: Self)
        ensures
            r@ == Seq::<char>::empty(),
    {
        Reporter { buffer: String::new() }
    }
}

impl View for Reporter {
    type V = Seq<char>;

    closed spec fn view(&self) -> Seq<char> {
        self.buffer@
    }
}

fn text_of(chars: &Vec<char>) -> (r: String)
    ensures
        r@ == chars@,
{
    let r = string_from_range(chars, 0, chars.len());
    proof {
        assert(chars@.subrange(0, chars@.len() as int) =~= chars@);
    }
    r
}

impl Reporter {
    /// A reporter with no lines.
    pub fn new() -> (r: Self)
        ensures
            r@ == Seq::<char>::empty(),
    {
        Reporter { buffer: String::new() }
    }

    /// Appends `line` and a line break.
    pub fn add_line(&mut self, line: String)
        ensures
            final(self)@ == old(self)@ + line@ + seq!['\n'],
    {
        push_str(&mut self.buffer, line.as_str());
        push_char(&mut self.buffer, '\n');
    }

    /// All lines collected so far.
    pub fn get_report(self) -> (r: String)
        ensures
            r@ == self@,
    {
        self.buffer
    }

    /// The note that computation reduced the tree to a single number.
    pub fn computing_finalization(&self) -> (r: String)
        ensures
            r@ == "Tree is fully solved by computation. Further optimization is not needed"@,
    {
        let mut s = String::new();
        push_str(&mut s, "Tree is fully solved by computation. Further optimization is not needed");
        proof {
            assert(s@ =~= "Tree is fully solved by computation. Further optimization is not needed"@);
        }
        s
    }

    /// The list of equivalent forms, numbered from 1.
    pub fn finding_equivalent_form(&self, forms: &[String]) -> (r: String)
        ensures
            r@ == forms_report(forms@.map_values(|f: String| f@)),
    {
        let ghost fs = forms@.map_values(|f: String| f@);
        let mut s = String::new();
        push_str(&mut s, "Found ");
        push_decimal(&mut s, forms.len());
        push_str(&mut s, " equivalent forms!\n");
        push_char(&mut s, '\n');
        let ghost head = s@;
        let mut k: usize = 0;
        proof {
            assert(fs.skip(0) =~= fs);
        }
        while k < forms.len()
            invariant
                k <= forms@.len(),
                fs == forms@.map_values(|f: String| f@),
                s@ + numbered(fs.skip(k as int), k as nat) == head + numbered(fs, 0),
            decreases forms.len() - k,
        {
            let ghost before = s@;
            push_decimal(&mut s, k + 1);
            push_str(&mut s, ") ");
            push_str(&mut s, forms[k].as_str());
            push_char(&mut s, '\n');
            proof {
                assert(fs.skip(k as int).drop_first() =~= fs.skip(k + 1));
                assert(fs.skip(k as int)[0] == forms@[k as int]@);
                assert(s@ + numbered(fs.skip(k + 1), (k + 1) as nat) =~= before + numbered(fs.skip(k as int), k as nat));
            }
            k += 1;
        }
        proof {
            assert(fs.skip(k as int) =~= Seq::<Seq<char>>::empty());
            assert(s@ + Seq::<char>::empty() =~= s@);
            assert(head =~= "Found "@ + decimal(forms@.len()) + " equivalent forms!\n"@ + seq!['\n']);
        }
        s
    }

    /// The syntax report: a heading with the number of errors, then, when
    /// there are errors, either the source with marks and a pointer line per
    /// error (`pretty_output`), or one line per error with its message and
    /// position.
    pub fn syntax(&self, code: &str, pretty_output: bool, syntax_errors: &[SyntaxError]) -> (r: String)
        requires
            forall|k: int| 0 <= k < syntax_errors@.len() ==> #[trigger] syntax_errors@[k].token.position.start
                < usize::MAX,
            pretty_output ==> drawable(byte_len(code@) as int, error_views(syntax_errors@)),
        ensures
            r@ == syntax_report(code@, pretty_output, error_views(syntax_errors@)),
    {
        let ghost es = error_views(syntax_errors@);
        let n = syntax_errors.len();
        let mut s = String::new();
        if n == 0 {
            push_str(&mut s, "Tokenization & syntax analysis: OK!\n");
        } else {
            push_str(&mut s, "Syntax analysis: Found ");
            push_decimal(&mut s, n);
            push_str(&mut s, " errors.\n");
        }
        push_char(&mut s, '\n');
        proof {
            assert(s@ =~= syntax_heading(es.len()) + seq!['\n']);
        }
        if n == 0 {
            return s;
        }
        let mut tokens: Vec<Token> = Vec::new();
        let mut k: usize = 0;
        while k < n
            invariant
                k <= n == syntax_errors@.len(),
                es == error_views(syntax_errors@),
                token_views(tokens@) == error_tokens(es).take(k as int),
            decreases n - k,
        {
            let t = syntax_errors[k].token.clone();
            let ghost old_tokens = tokens@;
            tokens.push(t);
            proof {
                crate::tokenizer::lemma_token_views_push(old_tokens, t);
                assert(token_views(tokens@) =~= error_tokens(es).take(k + 1));
            }
            k += 1;
        }
        proof {
            assert(error_tokens(es).take(k as int) =~= error_tokens(es));
            assert forall|i: int| 0 <= i < tokens@.len() implies #[trigger] tokens@[i]@ == es[i].token by {
                assert(token_views(tokens@)[i] == tokens@[i]@);
                assert(error_tokens(es)[i] == es[i].token);
            }
        }
        if pretty_output {
            let len = code.len();
            let ghost head = s@;
            push_char(&mut s, '\n');
            push_str(&mut s, code);
            push_char(&mut s, '\n');
            let marks = underline(len, false, &tokens);
            let marks_text = text_of(&marks);
            push_str(&mut s, marks_text.as_str());
            push_char(&mut s, '\n');
            let ghost mid = s@;
            let mut j = n;
            while j > 0
                invariant
                    j <= n == syntax_errors@.len() == tokens@.len(),
                    es == error_views(syntax_errors@),
                    token_views(tokens@) == error_tokens(es),
                    forall|i: int| 0 <= i < tokens@.len() ==> #[trigger] tokens@[i]@ == es[i].token,
                    len == byte_len(code@),
                    drawable(len as int, es),
                    s@ + pointer_lines(len as int, es, j as int) == mid + pointer_lines(len as int, es, n as int),
                decreases j,
            {
                let ghost before = s@;
                assert(tokens@[j - 1]@ == es[j - 1].token);
                let line = pointer(len, &tokens, j - 1);
                let line_text = text_of(&line);
                push_str(&mut s, line_text.as_str());
                let message = syntax_errors[j - 1].message();
                push_str(&mut s, message.as_str());
                push_char(&mut s, '\n');
                proof {
                    assert(tokens@[j - 1]@ == es[j - 1].token);
                    assert(s@ + pointer_lines(len as int, es, j - 1) =~= before + pointer_lines(len as int, es, j as int));
                }
                j -= 1;
            }
            proof {
                assert(s@ + Seq::<char>::empty() =~= s@);
                assert(s@ =~= head + pretty_lines(code@, len as int, es));
            }
        } else {
            let ghost head = s@;
            let mut j: usize = 0;
            while j < n
                invariant
                    j <= n == syntax_errors@.len(),
                    es == error_views(syntax_errors@),
                    forall|k: int| 0 <= k < syntax_errors@.len() ==> #[trigger] syntax_errors@[k].token.position.start
                        < usize::MAX,
                    s@ == head + plain_lines(es.take(j as int)),
                decreases n - j,
            {
                let message = syntax_errors[j].message();
                push_padded(&mut s, message.as_str(), 50);
                push_char(&mut s, ' ');
                let position = syntax_errors[j].token.display_position();
                push_str(&mut s, position.as_str());
                push_char(&mut s, '\n');
                proof {
                    assert(es.take(j + 1).drop_last() =~= es.take(j as int));
                    assert(s@ =~= head + plain_lines(es.take(j + 1)));
                }
                j += 1;
            }
            proof {
                assert(es.take(j as int) =~= es);
            }
        }
        s
    }
}

/// Whether a mark can be placed at `i` on a line of `len` characters (see
/// [`put_ok`]).
fn can_put(len: usize, i: usize) -> (r: bool)
    ensures
        r == put_ok(len as int, i as int),
{
    !(i < len) || i + 1 < len
}

/// Whether the marks of `t` can be placed on a line of `len` characters
/// (see [`underline_ok`]).
fn can_underline(len: usize, t: &Token) -> (r: bool)
    ensures
        r == underline_ok(len as int, t@),
{
    let start = t.position.start;
    let end = t.position.end;
    if !(start <= end && 1 <= end && start < usize::MAX) {
        return false;
    }
    if end - start == 1 {
        can_put(len, start)
    } else {
        let inner = len == 0 || !(start + 1 <= len - 1 && len - 1 < end - 1);
        proof {
            if !inner {
                let k = len - 1;
                assert(start + 1 <= k < end - 1 && !put_ok(len as int, k as int));
            }
        }
        inner && can_put(len, start) && can_put(len, end - 1)
    }
}

/// Whether the pretty syntax report of a source of `len` bytes can mark
/// every error of `errors` (see [`drawable`]).
pub fn can_draw(len: usize, errors: &[SyntaxError]) -> (r: bool)
    ensures
        r == drawable(len as int, error_views(errors@)),
{
    let ghost es = error_views(errors@);
    if len > usize::MAX - 2 {
        return false;
    }
    let mut k: usize = 0;
    while k < errors.len()
        invariant
            es == error_views(errors@),
            es.len() == errors@.len(),
            len + 2 <= usize::MAX,
            k <= errors.len(),
            forall|j: int| 0 <= j < k ==> underline_ok(len as int, #[trigger] es[j].token) && put_ok(
                len + 2,
                es[j].token.start,
            ),
        decreases errors.len() - k,
    {
        assert(es[k as int].token == errors@[k as int].token@);
        if !can_underline(len, &errors[k].token) || !can_put(len + 2, errors[k].token.position.start) {
            return false;
        }
        k += 1;
    }
    true
}

} // verus!
