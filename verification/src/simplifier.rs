//! Joins `number . number` token triples into single decimal number tokens.
use vstd::prelude::*;
use crate::chars::{push_char, push_str};
use crate::tokenizer::{Token, TokenType, TokenView, lemma_token_views_push, token_views};

verus! {

/// Why simplification stopped.
#[derive(Debug, Clone, Copy, PartialEq, Eq)]
pub enum SimplifierError {
    NumberTokenWithoutValue,
}

impl SimplifierError {
    /// The error's message.
    pub fn message(&self) -> (r: &'static str)
        ensures
            r@ == "Number token is missing a value"@,
    {
        "Number token is missing a value"
    }
}

/// Whether the tokens from `i` on start with `number . number`, each number
/// carrying its text.
pub open spec fn decimal_at(ts: Seq<TokenView>, i: int) -> bool {
    &&& 0 <= i && i + 2 < ts.len()
    &&& ts[i].kind == TokenType::Number
    &&& ts[i].value is Some
    &&& ts[i + 1].kind == TokenType::Dot
    &&& ts[i + 2].kind == TokenType::Number
    &&& ts[i + 2].value is Some
}

/// The number token that `number . number` at `i` becomes.
pub open spec fn joined(ts: Seq<TokenView>, i: int) -> TokenView {
    TokenView {
        kind: TokenType::Number,
        start: ts[i].start,
        end: ts[i + 2].end,
        value: Some(ts[i].value->0 + seq!['.'] + ts[i + 2].value->0),
    }
}

/// The simplified tokens from index `i` on, or the error met on the way.
pub open spec fn simplified(ts: Seq<TokenView>, i: int) -> Result<Seq<TokenView>, SimplifierError>
    decreases ts.len() - i,
{
    if i < 0 || i >= ts.len() {
        Ok(Seq::empty())
    } else if ts[i].kind == TokenType::Number && ts[i].value is None {
        Err(SimplifierError::NumberTokenWithoutValue)
    } else if decimal_at(ts, i) {
        match simplified(ts, i + 3) {
            Ok(rest) => Ok(seq![joined(ts, i)] + rest),
            Err(e) => Err(e),
        }
    } else {
        match simplified(ts, i + 1) {
            Ok(rest) => Ok(seq![ts[i]] + rest),
            Err(e) => Err(e),
        }
    }
}

/// The index at which simplification from `i` stops: the end of the tokens,
/// or the number token without text.
pub open spec fn stop_index(ts: Seq<TokenView>, i: int) -> int
    decreases ts.len() - i,
{
    if i < 0 || i >= ts.len() {
        i
    } else if ts[i].kind == TokenType::Number && ts[i].value is None {
        i
    } else if decimal_at(ts, i) {
        stop_index(ts, i + 3)
    } else {
        stop_index(ts, i + 1)
    }
}

/// Reads a token sequence, joining decimal numbers.
#[derive(Debug)]
pub struct Simplifier {
    tokens: Vec<Token>,
    current_index: usize,
}

impl Simplifier {
    pub closed spec fn input(&self) -> Seq<TokenView> {
        token_views(self.tokens@)
    }

    pub closed spec fn position(&self) -> int {
        self.current_index as int
    }

    /// A simplifier positioned at the first of `tokens`.
    pub fn new(tokens: Vec<Token>) -> (r: Self)
        ensures
            r.input() == token_views(tokens@),
            r.position() == 0,
    {
        Simplifier { tokens, current_index: 0 }
    }

    /// Returns the tokens from the current position on, each
    /// `number . number` joined into one number token whose text is
    /// `whole.fraction` and whose range spans all three; or the error for a
    /// number token without text, where reading stops.
    pub fn simplify(&mut self) -> (r: Result<Vec<Token>, SimplifierError>)
        ensures
            final(self).input() == old(self).input(),
            final(self).position() == stop_index(old(self).input(), old(self).position()),
            match r {
                Ok(v) => simplified(old(self).input(), old(self).position()) == Ok::<
                    Seq<TokenView>,
                    SimplifierError,
                >(token_views(v@)),
                Err(e) => simplified(old(self).input(), old(self).position()) == Err::<
                    Seq<TokenView>,
                    SimplifierError,
                >(e),
            },
    {
        let ghost ts = self.input();
        let ghost start = self.current_index as int;
        let mut tokens: Vec<Token> = Vec::new();
        let n = self.tokens.len();
        while self.current_index < n
            invariant
                self.input() == ts,
                ts == old(self).input(),
                start == old(self).position(),
                n == self.tokens.len(),
                stop_index(ts, self.current_index as int) == stop_index(ts, start),
                simplified(ts, start) == (match simplified(ts, self.current_index as int) {
                    Ok(rest) => Ok(token_views(tokens@) + rest),
                    Err(e) => Err(e),
                }),
            decreases n - self.current_index,
        {
            let i = self.current_index;
            let ghost before = tokens@;
            let token = &self.tokens[i];
            if token.kind == TokenType::Number {
                let whole = match &token.value {
                    Some(v) => v,
                    None => {
                        return Err(SimplifierError::NumberTokenWithoutValue);
                    },
                };
                if n - i > 2 && self.tokens[i + 1].kind == TokenType::Dot && self.tokens[i + 2].kind
                    == TokenType::Number && self.tokens[i + 2].value.is_some() {
                    let fraction = match &self.tokens[i + 2].value {
                        Some(f) => f,
                        None => whole,
                    };
                    let mut text = String::new();
                    push_str(&mut text, whole.as_str());
                    push_char(&mut text, '.');
                    push_str(&mut text, fraction.as_str());
                    let t = Token {
                        kind: TokenType::Number,
                        position: token.position.start..self.tokens[i + 2].position.end,
                        value: Some(text),
                    };
                    proof {
                        assert(text@ =~= ts[i as int].value->0 + seq!['.'] + ts[i + 2].value->0);
                        assert(t@ == joined(ts, i as int));
                        lemma_token_views_push(before, t);
                    }
                    tokens.push(t);
                    self.current_index = i + 3;
                    proof {
                        assert(seq![joined(ts, i as int)] + simplified(ts, i + 3)->Ok_0 =~= simplified(
                            ts,
                            i as int,
                        )->Ok_0 || simplified(ts, i + 3) is Err);
                        assert(token_views(before) + seq![joined(ts, i as int)] == token_views(tokens@));
                        if simplified(ts, i + 3) is Ok {
                            assert(token_views(before) + simplified(ts, i as int)->Ok_0 =~= token_views(tokens@)
                                + simplified(ts, i + 3)->Ok_0);
                        }
                    }
                    continue;
                }
            }
            let t = token.clone();
            proof {
                lemma_token_views_push(before, t);
            }
            tokens.push(t);
            self.current_index = i + 1;
            proof {
                if simplified(ts, i + 1) is Ok {
                    assert(token_views(before) + simplified(ts, i as int)->Ok_0 =~= token_views(tokens@)
                        + simplified(ts, i + 1)->Ok_0);
                }
            }
        }
        proof {
            assert(token_views(tokens@) + Seq::<TokenView>::empty() =~= token_views(tokens@));
        }
        Ok(tokens)
    }
}

} // verus!
