//! Layout of error reports: lines of marks under the source text that point
//! at the tokens of the errors.
use vstd::prelude::*;
use crate::tokenizer::{Token, TokenView};
use crate::text::repeat_char;

verus! {

/// `line` with `c` at index `i`, when `i` is inside the line.
pub open spec fn put(line: Seq<char>, i: int, c: char) -> Seq<char> {
    if 0 <= i < line.len() {
        line.update(i, c)
    } else {
        line
    }
}

/// Placing a mark at `i` on a line of `len` characters is possible: a mark
/// inside the line must not fall on its last character.
pub open spec fn put_ok(len: int, i: int) -> bool {
    0 <= i < len ==> i + 1 < len
}

/// `line` with `c` at every index in `a..b` inside the line.
pub open spec fn fill(line: Seq<char>, a: int, b: int, c: char) -> Seq<char> {
    Seq::new(line.len(), |k: int| if a <= k < b { c } else { line[k] })
}

/// The marks of one token: `^` under a one-character token; otherwise `^`
/// under its first and last characters and `-` between them.
pub open spec fn underline_token(line: Seq<char>, t: TokenView) -> Seq<char> {
    if t.end - t.start == 1 {
        put(line, t.start, '^')
    } else {
        put(put(fill(line, t.start + 1, t.end - 1, '-'), t.start, '^'), t.end - 1, '^')
    }
}

/// The marks of `t` can be placed on a line of `len` characters.
pub open spec fn underline_ok(len: int, t: TokenView) -> bool {
    &&& 0 <= t.start <= t.end
    &&& 1 <= t.end
    &&& t.start + 1 <= usize::MAX
    &&& if t.end - t.start == 1 {
        put_ok(len, t.start)
    } else {
        &&& forall|k: int| t.start + 1 <= k < t.end - 1 ==> put_ok(len, k)
        &&& put_ok(len, t.start)
        &&& put_ok(len, t.end - 1)
    }
}

/// The marks of all tokens in order, on `line`.
pub open spec fn underlines(line: Seq<char>, ts: Seq<TokenView>) -> Seq<char>
    decreases ts.len(),
{
    if ts.len() == 0 {
        line
    } else {
        underline_token(underlines(line, ts.drop_last()), ts.last())
    }
}

/// `|` under the start of every token, on `line`.
pub open spec fn bars(line: Seq<char>, ts: Seq<TokenView>) -> Seq<char>
    decreases ts.len(),
{
    if ts.len() == 0 {
        line
    } else {
        put(bars(line, ts.drop_last()), ts.last().start, '|')
    }
}

/// The pointer line of token `t` among `ts`, for a source of `len` bytes:
/// `|` under every token's start and `_` from just after `t`'s start to the
/// end of the source.
pub open spec fn pointer_line(len: int, ts: Seq<TokenView>, t: TokenView) -> Seq<char> {
    fill(bars(repeat_char(' ', (len + 2) as nat), ts), t.start + 1, len + 1, '_')
}

fn put_char(line: &mut Vec<char>, i: usize, c: char)
    ensures
        final(line)@ == put(old(line)@, i as int, c),
{
    if i < line.len() {
        line.set(i, c);
    }
}

fn underline_one(line: &mut Vec<char>, t: &Token)
    requires
        underline_ok(old(line)@.len() as int, t@),
    ensures
        final(line)@ == underline_token(old(line)@, t@),
        final(line)@.len() == old(line)@.len(),
{
    let start = t.position.start;
    let end = t.position.end;
    if end - start == 1 {
        put_char(line, start, '^');
    } else {
        let mut k = start + 1;
        while k < end - 1
            invariant
                start + 1 <= k,
                end >= 1,
                line@.len() == old(line)@.len(),
                k <= end - 1 || k == start + 1,
                line@ == fill(old(line)@, start + 1, k as int, '-'),
            decreases end - k,
        {
            put_char(line, k, '-');
            k += 1;
            proof {
                assert(line@ =~= fill(old(line)@, start + 1, k as int, '-'));
            }
        }
        proof {
            assert(line@ =~= fill(old(line)@, start + 1, end - 1, '-'));
        }
        put_char(line, start, '^');
        put_char(line, end - 1, '^');
    }
}

/// Marks every token of `ts` on a line of spaces, one longer than `len` when
/// `newline` holds (the last character is then a line break).
pub fn underline(len: usize, newline: bool, ts: &Vec<Token>) -> (r: Vec<char>)
    requires
        len < usize::MAX,
        forall|k: int| 0 <= k < ts@.len() ==> underline_ok(
            if newline { len + 1 } else { len as int },
            #[trigger] ts@[k]@,
        ),
    ensures
        r@ == underlines(
            if newline { repeat_char(' ', len as nat).push('\n') } else { repeat_char(' ', len as nat) },
            crate::tokenizer::token_views(ts@),
        ),
{
    let mut line: Vec<char> = Vec::new();
    let mut k: usize = 0;
    while k < len
        invariant
            k <= len,
            line@ == repeat_char(' ', k as nat),
        decreases len - k,
    {
        line.push(' ');
        k += 1;
        proof {
            assert(line@ =~= repeat_char(' ', k as nat));
        }
    }
    if newline {
        line.push('\n');
    }
    let ghost base = line@;
    let ghost views = crate::tokenizer::token_views(ts@);
    let mut j: usize = 0;
    while j < ts.len()
        invariant
            j <= ts@.len(),
            views == crate::tokenizer::token_views(ts@),
            line@.len() == base.len(),
            base.len() == (if newline { len + 1 } else { len as int }),
            forall|k: int| 0 <= k < ts@.len() ==> underline_ok(base.len() as int, #[trigger] ts@[k]@),
            line@ == underlines(base, views.take(j as int)),
        decreases ts.len() - j,
    {
        underline_one(&mut line, &ts[j]);
        proof {
            assert(views.take(j + 1).drop_last() =~= views.take(j as int));
        }
        j += 1;
    }
    proof {
        assert(views.take(j as int) =~= views);
    }
    line
}

/// The pointer line of `ts[which]`, for a source of `len` bytes.
pub fn pointer(len: usize, ts: &Vec<Token>, which: usize) -> (r: Vec<char>)
    requires
        len + 2 <= usize::MAX,
        which < ts@.len(),
        ts@[which as int].position.start < usize::MAX,
    ensures
        r@ == pointer_line(len as int, crate::tokenizer::token_views(ts@), ts@[which as int]@),
{
    let mut line: Vec<char> = Vec::new();
    let mut k: usize = 0;
    while k < len + 2
        invariant
            len + 2 <= usize::MAX,
            k <= len + 2,
            line@ == repeat_char(' ', k as nat),
        decreases len + 2 - k,
    {
        line.push(' ');
        k += 1;
        proof {
            assert(line@ =~= repeat_char(' ', k as nat));
        }
    }
    let ghost base = line@;
    let ghost views = crate::tokenizer::token_views(ts@);
    let mut j: usize = 0;
    while j < ts.len()
        invariant
            j <= ts@.len(),
            views == crate::tokenizer::token_views(ts@),
            line@.len() == base.len(),
            line@ == bars(base, views.take(j as int)),
        decreases ts.len() - j,
    {
        put_char(&mut line, ts[j].position.start, '|');
        proof {
            assert(views.take(j + 1).drop_last() =~= views.take(j as int));
        }
        j += 1;
    }
    proof {
        assert(views.take(j as int) =~= views);
    }
    let ghost barred = line@;
    let start = ts[which].position.start;
    let mut i = start + 1;
    while i < len + 1
        invariant
            len + 2 <= usize::MAX,
            start + 1 <= i,
            line@.len() == barred.len(),
            barred.len() == len + 2,
            i >= len + 1 ==> (i == start + 1 || i == len + 1),
            line@ == fill(barred, start + 1, if i <= len + 1 { i as int } else { len + 1 }, '_'),
        decreases len + 1 - i,
    {
        put_char(&mut line, i, '_');
        i += 1;
        proof {
            assert(line@ =~= fill(barred, start + 1, i as int, '_'));
        }
    }
    proof {
        assert(line@ =~= fill(barred, start + 1, len + 1, '_'));
    }
    line
}

} // verus!
