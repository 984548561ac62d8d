//! A recursive-descent parser from lexemes to an expression tree.
//!
//! Precedence, from loosest to tightest: `|`, `&`, `+ -`, `* /`, prefix
//! `- !`, then numbers, names, strings, parentheses, calls `f(a, b)` and
//! indexing `a[i][j]`. Binary operators group to the left.
use vstd::prelude::*;
use crate::ast::{AbstractSyntaxTree, AstError, AstErrorView, AstNode, Node, views, lemma_views_push};
use crate::lexer::{Lexeme, LexemeView, lexeme_views};
use crate::operations::{BinaryOperationKind, UnaryOperationKind};

verus! {

/// The lexeme at `i`, if there is one.
pub open spec fn at<N>(ls: Seq<LexemeView<N>>, i: int) -> Option<LexemeView<N>> {
    if 0 <= i < ls.len() {
        Some(ls[i])
    } else {
        None
    }
}

/// What a parsing step gives: a node or an error, and the position after it.
pub struct Parsed<N> {
    pub outcome: Result<Node<N>, AstErrorView<N>>,
    pub next: int,
}

pub open spec fn ok<N>(n: Node<N>, next: int) -> Parsed<N> {
    Parsed { outcome: Ok(n), next }
}

pub open spec fn fail<N>(e: AstErrorView<N>, next: int) -> Parsed<N> {
    Parsed { outcome: Err(e), next }
}

/// Whether a parsing step from `i` succeeded and moved forward within the input.
pub open spec fn advanced<N>(ls: Seq<LexemeView<N>>, i: int, p: Parsed<N>) -> bool {
    p.outcome is Ok && i < p.next <= ls.len()
}

/// `a | b | ...`
pub open spec fn parse_or<N>(ls: Seq<LexemeView<N>>, i: int) -> Parsed<N>
    decreases ls.len() - i, 5int,
{
    let first = parse_and(ls, i);
    if advanced(ls, i, first) {
        or_tail(ls, first.next, first.outcome->Ok_0)
    } else {
        first
    }
}

pub open spec fn or_tail<N>(ls: Seq<LexemeView<N>>, j: int, left: Node<N>) -> Parsed<N>
    decreases ls.len() - j, 5int,
{
    if at(ls, j) == Some(LexemeView::<N>::Or) {
        let right = parse_and(ls, j + 1);
        if advanced(ls, j + 1, right) {
            or_tail(ls, right.next, Node::Binary(BinaryOperationKind::Or, Box::new(left), Box::new(right.outcome->Ok_0)))
        } else {
            right
        }
    } else {
        ok(left, j)
    }
}

/// `a & b & ...`
pub open spec fn parse_and<N>(ls: Seq<LexemeView<N>>, i: int) -> Parsed<N>
    decreases ls.len() - i, 4int,
{
    let first = parse_expression(ls, i);
    if advanced(ls, i, first) {
        and_tail(ls, first.next, first.outcome->Ok_0)
    } else {
        first
    }
}

pub open spec fn and_tail<N>(ls: Seq<LexemeView<N>>, j: int, left: Node<N>) -> Parsed<N>
    decreases ls.len() - j, 4int,
{
    if at(ls, j) == Some(LexemeView::<N>::And) {
        let right = parse_expression(ls, j + 1);
        if advanced(ls, j + 1, right) {
            and_tail(ls, right.next, Node::Binary(BinaryOperationKind::And, Box::new(left), Box::new(right.outcome->Ok_0)))
        } else {
            right
        }
    } else {
        ok(left, j)
    }
}

/// `a + b - c ...`
pub open spec fn parse_expression<N>(ls: Seq<LexemeView<N>>, i: int) -> Parsed<N>
    decreases ls.len() - i, 3int,
{
    let first = parse_term(ls, i);
    if advanced(ls, i, first) {
        expression_tail(ls, first.next, first.outcome->Ok_0)
    } else {
        first
    }
}

pub open spec fn expression_tail<N>(ls: Seq<LexemeView<N>>, j: int, left: Node<N>) -> Parsed<N>
    decreases ls.len() - j, 3int,
{
    if at(ls, j) == Some(LexemeView::<N>::Plus) || at(ls, j) == Some(LexemeView::<N>::Minus) {
        let op = if at(ls, j) == Some(LexemeView::<N>::Plus) {
            BinaryOperationKind::Plus
        } else {
            BinaryOperationKind::Minus
        };
        let right = parse_term(ls, j + 1);
        if advanced(ls, j + 1, right) {
            expression_tail(ls, right.next, Node::Binary(op, Box::new(left), Box::new(right.outcome->Ok_0)))
        } else {
            right
        }
    } else {
        ok(left, j)
    }
}

/// `a * b / c ...`
pub open spec fn parse_term<N>(ls: Seq<LexemeView<N>>, i: int) -> Parsed<N>
    decreases ls.len() - i, 2int,
{
    let first = parse_unary(ls, i);
    if advanced(ls, i, first) {
        term_tail(ls, first.next, first.outcome->Ok_0)
    } else {
        first
    }
}

pub open spec fn term_tail<N>(ls: Seq<LexemeView<N>>, j: int, left: Node<N>) -> Parsed<N>
    decreases ls.len() - j, 2int,
{
    if at(ls, j) == Some(LexemeView::<N>::Multiply) || at(ls, j) == Some(LexemeView::<N>::Divide) {
        let op = if at(ls, j) == Some(LexemeView::<N>::Multiply) {
            BinaryOperationKind::Multiply
        } else {
            BinaryOperationKind::Divide
        };
        let right = parse_unary(ls, j + 1);
        if advanced(ls, j + 1, right) {
            term_tail(ls, right.next, Node::Binary(op, Box::new(left), Box::new(right.outcome->Ok_0)))
        } else {
            right
        }
    } else {
        ok(left, j)
    }
}

/// `-a`, `!a`, or a primary expression.
pub open spec fn parse_unary<N>(ls: Seq<LexemeView<N>>, i: int) -> Parsed<N>
    decreases ls.len() - i, 1int,
{
    if at(ls, i) == Some(LexemeView::<N>::Not) || at(ls, i) == Some(LexemeView::<N>::Minus) {
        let op = if at(ls, i) == Some(LexemeView::<N>::Not) {
            UnaryOperationKind::Not
        } else {
            UnaryOperationKind::Minus
        };
        let child = parse_unary(ls, i + 1);
        match child.outcome {
            Ok(n) => ok(Node::Unary(op, Box::new(n)), child.next),
            Err(_) => child,
        }
    } else {
        parse_primary(ls, i)
    }
}

/// A string literal stands only right after or right before a comma.
pub open spec fn string_allowed<N>(ls: Seq<LexemeView<N>>, i: int) -> bool {
    at(ls, i + 1) == Some(LexemeView::<N>::Comma) || at(ls, i - 1) == Some(LexemeView::<N>::Comma)
}

/// A number, name, string, parenthesised expression, call or indexing.
pub open spec fn parse_primary<N>(ls: Seq<LexemeView<N>>, i: int) -> Parsed<N>
    decreases ls.len() - i, 0int,
{
    match at(ls, i) {
        None => fail(AstErrorView::NotExpectedEndOfExpression, i),
        Some(l) => match l {
            LexemeView::Number(v) => ok(Node::Number(v), i + 1),
            LexemeView::String(s) => if string_allowed(ls, i) {
                ok(Node::StringLiteral(s), i + 1)
            } else {
                fail(AstErrorView::StringOutsideFunction(s), i + 1)
            },
            LexemeView::LeftParenthesis => {
                let inner = parse_or(ls, i + 1);
                match inner.outcome {
                    Ok(n) => if at(ls, inner.next) == Some(LexemeView::<N>::RightParenthesis) {
                        ok(n, inner.next + 1)
                    } else {
                        fail(AstErrorView::ExpectedRightParenthesis, inner.next)
                    },
                    Err(_) => inner,
                }
            },
            LexemeView::Identifier(name) => if at(ls, i + 1) == Some(LexemeView::<N>::LeftParenthesis) {
                if at(ls, i + 2) == Some(LexemeView::<N>::RightParenthesis) {
                    ok(Node::Call(name, Seq::empty()), i + 3)
                } else {
                    call_arguments(ls, i + 2, name, Seq::empty())
                }
            } else if at(ls, i + 1) == Some(LexemeView::<N>::LeftBracket) {
                array_indices(ls, i + 1, name, Seq::empty())
            } else {
                ok(Node::Identifier(name), i + 1)
            },
            _ => fail(AstErrorView::NotExpectedLexeme(l), i + 1),
        },
    }
}

/// The arguments of a call from `k`, after those already read.
pub open spec fn call_arguments<N>(ls: Seq<LexemeView<N>>, k: int, name: Seq<char>, args: Seq<Node<N>>) -> Parsed<N>
    decreases ls.len() - k, 6int,
{
    let a = parse_or(ls, k);
    if advanced(ls, k, a) {
        let more = args.push(a.outcome->Ok_0);
        match at(ls, a.next) {
            Some(LexemeView::Comma) => call_arguments(ls, a.next + 1, name, more),
            Some(LexemeView::RightParenthesis) => ok(Node::Call(name, more), a.next + 1),
            None => fail(AstErrorView::NotExpectedEndOfExpression, a.next),
            Some(l) => fail(AstErrorView::ExpectedCommaOrRightParenthesis(l), a.next),
        }
    } else {
        a
    }
}

/// The indices `[e]...` of an array access from `k`, after those already
/// read; the access ends at the first position that is not `[`.
pub open spec fn array_indices<N>(ls: Seq<LexemeView<N>>, k: int, name: Seq<char>, idx: Seq<Node<N>>) -> Parsed<N>
    decreases ls.len() - k, 7int,
{
    if at(ls, k) == Some(LexemeView::<N>::LeftBracket) {
        let e = parse_or(ls, k + 1);
        if advanced(ls, k + 1, e) {
            if at(ls, e.next) == Some(LexemeView::<N>::RightBracket) {
                array_indices(ls, e.next + 1, name, idx.push(e.outcome->Ok_0))
            } else {
                fail(AstErrorView::ExpectedRightBracket, e.next)
            }
        } else {
            e
        }
    } else {
        ok(Node::Access(name, idx), k)
    }
}

/// A whole expression from `i`: anything left over is an error.
pub open spec fn parse_all<N>(ls: Seq<LexemeView<N>>, i: int) -> Parsed<N> {
    let r = parse_or(ls, i);
    if r.outcome is Ok && 0 <= r.next < ls.len() {
        fail(AstErrorView::NotExpectedLexeme(ls[r.next]), r.next + 1)
    } else {
        r
    }
}


/// Parsing from the start cannot meet a string literal first unless a
/// comma follows it: there the check of the lexeme before it would look
/// before the first lexeme.
pub open spec fn safe_start<N>(ls: Seq<LexemeView<N>>) -> bool {
    !(ls.len() > 0 && ls[0] is String && at(ls, 1) != Some(LexemeView::<N>::Comma))
}

pub open spec fn result_view<N>(r: Result<AstNode<N>, AstError<N>>) -> Result<Node<N>, AstErrorView<N>> {
    match r {
        Ok(n) => Ok(n.view_node()),
        Err(e) => Err(e.error_view()),
    }
}

/// The result of a parsing function agrees with its specification from `i`,
/// and the parser stands at `after`.
pub open spec fn follows<N>(
    r: Result<AstNode<N>, AstError<N>>,
    p: Parsed<N>,
    ls: Seq<LexemeView<N>>,
    i: int,
    after: int,
) -> bool {
    &&& result_view(r) == p.outcome
    &&& after == p.next
    &&& r is Ok ==> i < after <= ls.len()
}

pub open spec fn option_view<N>(r: Option<&Lexeme<N>>) -> Option<LexemeView<N>> {
    match r {
        Some(l) => Some(l.lexeme_view()),
        None => None,
    }
}

/// A copy of a lexeme.
fn copy_lexeme<N: Copy>(l: &Lexeme<N>) -> (r: Lexeme<N>)
    ensures
        r.lexeme_view() == l.lexeme_view(),
{
    match l {
        Lexeme::Identifier(s) => Lexeme::Identifier(s.clone()),
        Lexeme::Number(n) => Lexeme::Number(*n),
        Lexeme::Plus => Lexeme::Plus,
        Lexeme::Minus => Lexeme::Minus,
        Lexeme::Multiply => Lexeme::Multiply,
        Lexeme::Divide => Lexeme::Divide,
        Lexeme::Modulus => Lexeme::Modulus,
        Lexeme::LeftParenthesis => Lexeme::LeftParenthesis,
        Lexeme::RightParenthesis => Lexeme::RightParenthesis,
        Lexeme::LeftBracket => Lexeme::LeftBracket,
        Lexeme::RightBracket => Lexeme::RightBracket,
        Lexeme::Not => Lexeme::Not,
        Lexeme::And => Lexeme::And,
        Lexeme::Or => Lexeme::Or,
        Lexeme::Comma => Lexeme::Comma,
        Lexeme::String(s) => Lexeme::String(s.clone()),
    }
}

/// Builds a tree from lexemes.
pub struct AstParser<N> {
    lexemes: Vec<Lexeme<N>>,
    current_index: usize,
}

impl<N: Copy> AstParser<N> {
    pub closed spec fn input(&self) -> Seq<LexemeView<N>> {
        lexeme_views(self.lexemes@)
    }

    pub closed spec fn position(&self) -> int {
        self.current_index as int
    }

    /// A parser at the first of `lexemes`.
    pub fn new(lexemes: Vec<Lexeme<N>>) -> (r: Self)
        ensures
            r.input() == lexeme_views(lexemes@),
            r.position() == 0,
    {
        Self { lexemes, current_index: 0 }
    }

    /// Parses the whole input from the current position into one tree; a
    /// lexeme left over after the expression is an error.
    pub fn parse(&mut self) -> (r: Result<AbstractSyntaxTree<N>, AstError<N>>)
        requires
            old(self).position() == 0 ==> safe_start(old(self).input()),
        ensures
            final(self).input() == old(self).input(),
            final(self).position() == parse_all(old(self).input(), old(self).position()).next,
            match r {
                Ok(t) => parse_all(old(self).input(), old(self).position()).outcome == Ok::<Node<N>, AstErrorView<N>>(t.peek.view_node()),
                Err(e) => parse_all(old(self).input(), old(self).position()).outcome == Err::<Node<N>, AstErrorView<N>>(e.error_view()),
            },
    {
        let node = match self.parse_logical_or() {
            Ok(n) => n,
            Err(e) => return Err(e),
        };
        if self.current_index < self.lexemes.len() {
            let lexeme = self.consume();
            match lexeme {
                Some(l) => Err(AstError::NotExpectedLexeme(l)),
                None => Ok(AbstractSyntaxTree::from_node(node)),
            }
        } else {
            Ok(AbstractSyntaxTree::from_node(node))
        }
    }

    fn parse_logical_or(&mut self) -> (r: Result<AstNode<N>, AstError<N>>)
        requires
            old(self).position() == 0 ==> safe_start(old(self).input()),
        ensures
            final(self).input() == old(self).input(),
            follows(r, parse_or(old(self).input(), old(self).position()), old(self).input(), old(self).position(), final(self).position()),
        decreases old(self).input().len() - old(self).position(), 5int,
    {
        let ghost ls = self.input();
        let ghost i = self.position();
        let mut left = match self.parse_logical_and() {
            Ok(n) => n,
            Err(e) => return Err(e),
        };
        loop
            invariant
                self.input() == ls,
                ls == old(self).input(),
                i == old(self).position(),
                i < self.position() <= ls.len(),
                parse_or(ls, i) == or_tail(ls, self.position(), left.view_node()),
            decreases ls.len() - self.position(),
        {
            let is_or = match self.peek() {
                Some(Lexeme::Or) => true,
                _ => false,
            };
            if !is_or {
                return Ok(left);
            }
            let ghost j = self.position();
            self.consume();
            let right = match self.parse_logical_and() {
                Ok(n) => n,
                Err(e) => return Err(e),
            };
            left = AstNode::BinaryOperation {
                operation: BinaryOperationKind::Or,
                left: Box::new(left),
                right: Box::new(right),
            };
        }
    }

    fn parse_logical_and(&mut self) -> (r: Result<AstNode<N>, AstError<N>>)
        requires
            old(self).position() == 0 ==> safe_start(old(self).input()),
        ensures
            final(self).input() == old(self).input(),
            follows(r, parse_and(old(self).input(), old(self).position()), old(self).input(), old(self).position(), final(self).position()),
        decreases old(self).input().len() - old(self).position(), 4int,
    {
        let ghost ls = self.input();
        let ghost i = self.position();
        let mut left = match self.parse_expression() {
            Ok(n) => n,
            Err(e) => return Err(e),
        };
        loop
            invariant
                self.input() == ls,
                ls == old(self).input(),
                i == old(self).position(),
                i < self.position() <= ls.len(),
                parse_and(ls, i) == and_tail(ls, self.position(), left.view_node()),
            decreases ls.len() - self.position(),
        {
            let is_and = match self.peek() {
                Some(Lexeme::And) => true,
                _ => false,
            };
            if !is_and {
                return Ok(left);
            }
            self.consume();
            let right = match self.parse_expression() {
                Ok(n) => n,
                Err(e) => return Err(e),
            };
            left = AstNode::BinaryOperation {
                operation: BinaryOperationKind::And,
                left: Box::new(left),
                right: Box::new(right),
            };
        }
    }

    fn parse_expression(&mut self) -> (r: Result<AstNode<N>, AstError<N>>)
        requires
            old(self).position() == 0 ==> safe_start(old(self).input()),
        ensures
            final(self).input() == old(self).input(),
            follows(r, parse_expression(old(self).input(), old(self).position()), old(self).input(), old(self).position(), final(self).position()),
        decreases old(self).input().len() - old(self).position(), 3int,
    {
        let ghost ls = self.input();
        let ghost i = self.position();
        let mut left = match self.parse_term() {
            Ok(n) => n,
            Err(e) => return Err(e),
        };
        loop
            invariant
                self.input() == ls,
                ls == old(self).input(),
                i == old(self).position(),
                i < self.position() <= ls.len(),
                parse_expression(ls, i) == expression_tail(ls, self.position(), left.view_node()),
            decreases ls.len() - self.position(),
        {
            let operation = match self.peek() {
                Some(Lexeme::Plus) => BinaryOperationKind::Plus,
                Some(Lexeme::Minus) => BinaryOperationKind::Minus,
                _ => {
                    return Ok(left);
                },
            };
            self.consume();
            let right = match self.parse_term() {
                Ok(n) => n,
                Err(e) => return Err(e),
            };
            left = AstNode::BinaryOperation { operation, left: Box::new(left), right: Box::new(right) };
        }
    }

    fn parse_term(&mut self) -> (r: Result<AstNode<N>, AstError<N>>)
        requires
            old(self).position() == 0 ==> safe_start(old(self).input()),
        ensures
            final(self).input() == old(self).input(),
            follows(r, parse_term(old(self).input(), old(self).position()), old(self).input(), old(self).position(), final(self).position()),
        decreases old(self).input().len() - old(self).position(), 2int,
    {
        let ghost ls = self.input();
        let ghost i = self.position();
        let mut left = match self.parse_unary() {
            Ok(n) => n,
            Err(e) => return Err(e),
        };
        loop
            invariant
                self.input() == ls,
                ls == old(self).input(),
                i == old(self).position(),
                i < self.position() <= ls.len(),
                parse_term(ls, i) == term_tail(ls, self.position(), left.view_node()),
            decreases ls.len() - self.position(),
        {
            let operation = match self.peek() {
                Some(Lexeme::Multiply) => BinaryOperationKind::Multiply,
                Some(Lexeme::Divide) => BinaryOperationKind::Divide,
                _ => {
                    return Ok(left);
                },
            };
            self.consume();
            let right = match self.parse_unary() {
                Ok(n) => n,
                Err(e) => return Err(e),
            };
            left = AstNode::BinaryOperation { operation, left: Box::new(left), right: Box::new(right) };
        }
    }

    fn parse_unary(&mut self) -> (r: Result<AstNode<N>, AstError<N>>)
        requires
            old(self).position() == 0 ==> safe_start(old(self).input()),
        ensures
            final(self).input() == old(self).input(),
            follows(r, parse_unary(old(self).input(), old(self).position()), old(self).input(), old(self).position(), final(self).position()),
        decreases old(self).input().len() - old(self).position(), 1int,
    {
        let operation = match self.peek() {
            Some(Lexeme::Not) => UnaryOperationKind::Not,
            Some(Lexeme::Minus) => UnaryOperationKind::Minus,
            _ => {
                return self.parse_primary();
            },
        };
        self.consume();
        let child = match self.parse_unary() {
            Ok(n) => n,
            Err(e) => return Err(e),
        };
        Ok(AstNode::UnaryOperation { operation, expression: Box::new(child) })
    }

    fn parse_primary(&mut self) -> (r: Result<AstNode<N>, AstError<N>>)
        requires
            old(self).position() == 0 ==> safe_start(old(self).input()),
        ensures
            final(self).input() == old(self).input(),
            follows(r, parse_primary(old(self).input(), old(self).position()), old(self).input(), old(self).position(), final(self).position()),
        decreases old(self).input().len() - old(self).position(), 0int,
    {
        let ghost ls = self.input();
        let ghost i = self.position();
        let lexeme = match self.consume() {
            Some(l) => l,
            None => return Err(AstError::NotExpectedEndOfExpression),
        };
        match lexeme {
            Lexeme::Number(value) => Ok(AstNode::Number(value)),
            Lexeme::String(value) => {
                let next_is_comma = match self.peek() {
                    Some(Lexeme::Comma) => true,
                    _ => false,
                };
                if next_is_comma {
                    return Ok(AstNode::StringLiteral(value));
                }
                let previous_is_comma = match self.peek_previous_by(2) {
                    Some(Lexeme::Comma) => true,
                    _ => false,
                };
                if previous_is_comma {
                    Ok(AstNode::StringLiteral(value))
                } else {
                    Err(AstError::StringOutsideFunction(value))
                }
            },
            Lexeme::LeftParenthesis => {
                let inner = match self.parse_logical_or() {
                    Ok(n) => n,
                    Err(e) => return Err(e),
                };
                let closed = match self.peek() {
                    Some(Lexeme::RightParenthesis) => true,
                    _ => false,
                };
                if closed {
                    self.consume();
                    Ok(inner)
                } else {
                    Err(AstError::ExpectedRightParenthesis)
                }
            },
            Lexeme::Identifier(name) => {
                let call = match self.peek() {
                    Some(Lexeme::LeftParenthesis) => true,
                    _ => false,
                };
                let indexed = match self.peek() {
                    Some(Lexeme::LeftBracket) => true,
                    _ => false,
                };
                if call {
                    self.consume();
                    self.parse_call_arguments(name)
                } else if indexed {
                    self.parse_array_indices(name)
                } else {
                    Ok(AstNode::Identifier(name))
                }
            },
            _ => Err(AstError::NotExpectedLexeme(lexeme)),
        }
    }

    /// The arguments of a call, from just after its `(`.
    fn parse_call_arguments(&mut self, name: String) -> (r: Result<AstNode<N>, AstError<N>>)
        requires
            old(self).position() >= 2,
            at(old(self).input(), old(self).position() - 1) == Some(LexemeView::<N>::LeftParenthesis),
        ensures
            final(self).input() == old(self).input(),
            follows(
                r,
                if at(old(self).input(), old(self).position()) == Some(LexemeView::<N>::RightParenthesis) {
                    ok(Node::Call(name@, Seq::empty()), old(self).position() + 1)
                } else {
                    call_arguments(old(self).input(), old(self).position(), name@, Seq::empty())
                },
                old(self).input(),
                old(self).position(),
                final(self).position(),
            ),
        decreases old(self).input().len() - old(self).position(), 6int,
    {
        let ghost ls = self.input();
        let ghost k = self.position();
        let mut args: Vec<AstNode<N>> = Vec::new();
        let empty = match self.peek() {
            Some(Lexeme::RightParenthesis) => true,
            _ => false,
        };
        if empty {
            self.consume();
            return Ok(AstNode::FunctionCall { name, arguments: args });
        }
        loop
            invariant
                self.input() == ls,
                ls == old(self).input(),
                k == old(self).position(),
                k >= 2,
                k <= self.position() <= ls.len(),
                self.position() > k ==> at(ls, self.position() - 1) == Some(LexemeView::<N>::Comma),
                at(ls, k) != Some(LexemeView::<N>::RightParenthesis),
                call_arguments(ls, k, name@, Seq::empty()) == call_arguments(ls, self.position(), name@, views(args@)),
            decreases ls.len() - self.position(),
        {
            let argument = match self.parse_logical_or() {
                Ok(n) => n,
                Err(e) => return Err(e),
            };
            proof {
                lemma_views_push(args@, argument);
            }
            args.push(argument);
            let step = match self.peek() {
                Some(Lexeme::Comma) => 0u8,
                Some(Lexeme::RightParenthesis) => 1u8,
                None => 2u8,
                Some(_) => 3u8,
            };
            if step == 0 {
                self.consume();
            } else if step == 1 {
                self.consume();
                return Ok(AstNode::FunctionCall { name, arguments: args });
            } else if step == 2 {
                return Err(AstError::NotExpectedEndOfExpression);
            } else {
                let found = match self.peek() {
                    Some(l) => copy_lexeme(l),
                    None => Lexeme::Comma,
                };
                return Err(AstError::ExpectedCommaOrRightParenthesis(found));
            }
        }
    }

    /// The indices of an array access, from its first `[`.
    fn parse_array_indices(&mut self, identifier: String) -> (r: Result<AstNode<N>, AstError<N>>)
        requires
            old(self).position() >= 1,
            at(old(self).input(), old(self).position()) == Some(LexemeView::<N>::LeftBracket),
        ensures
            final(self).input() == old(self).input(),
            follows(
                r,
                array_indices(old(self).input(), old(self).position(), identifier@, Seq::empty()),
                old(self).input(),
                old(self).position(),
                final(self).position(),
            ),
        decreases old(self).input().len() - old(self).position(), 7int,
    {
        let ghost ls = self.input();
        let ghost k = self.position();
        let mut indices: Vec<AstNode<N>> = Vec::new();
        loop
            invariant
                self.input() == ls,
                ls == old(self).input(),
                k == old(self).position(),
                k >= 1,
                k <= self.position() < ls.len(),
                at(ls, self.position()) == Some(LexemeView::<N>::LeftBracket),
                array_indices(ls, k, identifier@, Seq::empty()) == array_indices(ls, self.position(), identifier@, views(indices@)),
            decreases ls.len() - self.position(),
        {
            self.consume();
            let index = match self.parse_logical_or() {
                Ok(n) => n,
                Err(e) => return Err(e),
            };
            let closed = match self.peek() {
                Some(Lexeme::RightBracket) => true,
                _ => false,
            };
            if !closed {
                return Err(AstError::ExpectedRightBracket);
            }
            self.consume();
            proof {
                lemma_views_push(indices@, index);
            }
            indices.push(index);
            let more = match self.peek() {
                Some(Lexeme::LeftBracket) => true,
                _ => false,
            };
            if !more {
                return Ok(AstNode::ArrayAccess { identifier, indices });
            }
        }
    }

    /// Takes the lexeme at the current position, if there is one.
    fn consume(&mut self) -> (r: Option<Lexeme<N>>)
        ensures
            final(self).input() == old(self).input(),
            match r {
                Some(l) => at(old(self).input(), old(self).position()) == Some(l.lexeme_view())
                    && final(self).position() == old(self).position() + 1,
                None => at(old(self).input(), old(self).position()) is None
                    && final(self).position() == old(self).position(),
            },
    {
        if self.current_index < self.lexemes.len() {
            let lexeme = copy_lexeme(&self.lexemes[self.current_index]);
            self.current_index += 1;
            Some(lexeme)
        } else {
            None
        }
    }

    /// The lexeme at the current position, if there is one.
    fn peek(&self) -> (r: Option<&Lexeme<N>>)
        ensures
            option_view(r) == at(self.input(), self.position()),
    {
        if self.current_index < self.lexemes.len() {
            Some(&self.lexemes[self.current_index])
        } else {
            None
        }
    }

    /// The lexeme `by` places before the current position, if there is one.
    fn peek_previous_by(&self, by: usize) -> (r: Option<&Lexeme<N>>)
        requires
            by <= self.position(),
        ensures
            option_view(r) == at(self.input(), self.position() - by),
    {
        let k = self.current_index - by;
        if k < self.lexemes.len() {
            Some(&self.lexemes[k])
        } else {
            None
        }
    }
}

} // verus!
