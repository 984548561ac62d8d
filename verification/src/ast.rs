//! Expression trees: nodes, their mathematical view, and the errors met
//! while building or reshaping them.
use vstd::prelude::*;
use crate::lexer::{Lexeme, LexemeView, lexeme_type_name};
use crate::operations::{BinaryOperationKind, UnaryOperationKind};
use crate::chars::push_str;

verus! {

/// A node of an expression tree; `N` is how numbers are held.
#[derive(Debug, PartialEq)]
pub enum AstNode<N> {
    Number(N),
    Identifier(String),
    StringLiteral(String),
    UnaryOperation { operation: UnaryOperationKind, expression: Box<AstNode<N>> },
    BinaryOperation { operation: BinaryOperationKind, left: Box<AstNode<N>>, right: Box<AstNode<N>> },
    FunctionCall { name: String, arguments: Vec<AstNode<N>> },
    ArrayAccess { identifier: String, indices: Vec<AstNode<N>> },
}

/// The mathematical content of a node.
pub enum Node<N> {
    Number(N),
    Identifier(Seq<char>),
    StringLiteral(Seq<char>),
    Unary(UnaryOperationKind, Box<Node<N>>),
    Binary(BinaryOperationKind, Box<Node<N>>, Box<Node<N>>),
    Call(Seq<char>, Seq<Node<N>>),
    Access(Seq<char>, Seq<Node<N>>),
}

impl<N> AstNode<N> {
    pub open spec fn view_node(&self) -> Node<N>
        decreases self,
    {
        match self {
            AstNode::Number(n) => Node::Number(*n),
            AstNode::Identifier(s) => Node::Identifier(s@),
            AstNode::StringLiteral(s) => Node::StringLiteral(s@),
            AstNode::UnaryOperation { operation, expression } => Node::Unary(
                *operation,
                Box::new(expression.view_node()),
            ),
            AstNode::BinaryOperation { operation, left, right } => Node::Binary(
                *operation,
                Box::new(left.view_node()),
                Box::new(right.view_node()),
            ),
            AstNode::FunctionCall { name, arguments } => Node::Call(name@, views(arguments@)),
            AstNode::ArrayAccess { identifier, indices } => Node::Access(identifier@, views(indices@)),
        }
    }
}

/// The views of a sequence of nodes.
pub open spec fn views<N>(s: Seq<AstNode<N>>) -> Seq<Node<N>>
    decreases s,
{
    if s.len() == 0 {
        Seq::empty()
    } else {
        views(s.drop_last()).push(s.last().view_node())
    }
}

pub proof fn lemma_views_push<N>(s: Seq<AstNode<N>>, n: AstNode<N>)
    ensures
        views(s.push(n)) == views(s).push(n.view_node()),
{
    assert(s.push(n).drop_last() =~= s);
}

pub proof fn lemma_views_take<N>(s: Seq<AstNode<N>>, k: int)
    requires
        0 <= k < s.len(),
    ensures
        views(s.take(k + 1)) == views(s.take(k)).push(s[k].view_node()),
{
    assert(s.take(k + 1) =~= s.take(k).push(s[k]));
    lemma_views_push(s.take(k), s[k]);
}

pub proof fn lemma_views_map<N>(s: Seq<AstNode<N>>)
    ensures
        views(s) == s.map_values(|x: AstNode<N>| x.view_node()),
    decreases s.len(),
{
    if s.len() > 0 {
        lemma_views_map(s.drop_last());
    }
    assert(views(s) =~= s.map_values(|x: AstNode<N>| x.view_node()));
}

pub proof fn lemma_views_len<N>(s: Seq<AstNode<N>>)
    ensures
        views(s).len() == s.len(),
    decreases s.len(),
{
    if s.len() > 0 {
        lemma_views_len(s.drop_last());
    }
}

pub proof fn lemma_views_index<N>(s: Seq<AstNode<N>>, k: int)
    requires
        0 <= k < s.len(),
    ensures
        views(s)[k] == s[k].view_node(),
    decreases s.len(),
{
    lemma_views_len(s.drop_last());
    if k < s.len() - 1 {
        lemma_views_index(s.drop_last(), k);
    }
}

/// An expression tree, held by its root.
#[derive(Debug, PartialEq)]
pub struct AbstractSyntaxTree<N> {
    pub peek: AstNode<N>,
}

impl<N> AbstractSyntaxTree<N> {
    /// The tree whose root is `node`.
    pub fn from_node(node: AstNode<N>) -> (r: Self)
        ensures
            r.peek == node,
    {
        Self { peek: node }
    }
}

/// Why a tree could not be built or reshaped.
#[derive(Debug, PartialEq)]
pub enum AstError<N> {
    ExpectedRightBracket,
    ExpectedRightParenthesis,
    ExpectedCommaOrRightParenthesis(Lexeme<N>),
    NotExpectedEndOfExpression,
    NotExpectedLexeme(Lexeme<N>),
    StringOutsideFunction(String),
    UnreachableLexeme(Lexeme<N>),
    CannotBuildEmptyTree,
    FailedPopFromQueue,
    DivisionByZero(AstNode<N>),
}

pub enum AstErrorView<N> {
    ExpectedRightBracket,
    ExpectedRightParenthesis,
    ExpectedCommaOrRightParenthesis(LexemeView<N>),
    NotExpectedEndOfExpression,
    NotExpectedLexeme(LexemeView<N>),
    StringOutsideFunction(Seq<char>),
    UnreachableLexeme(LexemeView<N>),
    CannotBuildEmptyTree,
    FailedPopFromQueue,
    DivisionByZero(Node<N>),
}

impl<N> AstError<N> {
    pub open spec fn error_view(&self) -> AstErrorView<N> {
        match self {
            AstError::ExpectedRightBracket => AstErrorView::ExpectedRightBracket,
            AstError::ExpectedRightParenthesis => AstErrorView::ExpectedRightParenthesis,
            AstError::ExpectedCommaOrRightParenthesis(l) => AstErrorView::ExpectedCommaOrRightParenthesis(
                l.lexeme_view(),
            ),
            AstError::NotExpectedEndOfExpression => AstErrorView::NotExpectedEndOfExpression,
            AstError::NotExpectedLexeme(l) => AstErrorView::NotExpectedLexeme(l.lexeme_view()),
            AstError::StringOutsideFunction(s) => AstErrorView::StringOutsideFunction(s@),
            AstError::UnreachableLexeme(l) => AstErrorView::UnreachableLexeme(l.lexeme_view()),
            AstError::CannotBuildEmptyTree => AstErrorView::CannotBuildEmptyTree,
            AstError::FailedPopFromQueue => AstErrorView::FailedPopFromQueue,
            AstError::DivisionByZero(n) => AstErrorView::DivisionByZero(n.view_node()),
        }
    }

    /// The message shown for this error. A division by zero shows the node,
    /// which is printed where numbers can be formatted.
    pub fn message(&self) -> (r: String)
        requires
            !(self is DivisionByZero),
        ensures
            r@ == ast_error_text(self.error_view()),
    {
        let mut s = String::new();
        match self {
            AstError::ExpectedCommaOrRightParenthesis(l) => {
                push_str(&mut s, "Expected ',' or ')', but found \"");
                push_str(&mut s, l.display_type());
                push_str(&mut s, "\".");
            },
            AstError::ExpectedRightBracket => push_str(&mut s, "Expected right bracket."),
            AstError::ExpectedRightParenthesis => push_str(&mut s, "Expected right parenthesis."),
            AstError::NotExpectedEndOfExpression => push_str(&mut s, "Not expected end of expression."),
            AstError::NotExpectedLexeme(l) => {
                push_str(&mut s, "Not expected lexeme \"");
                push_str(&mut s, l.display_type());
                push_str(&mut s, "\".");
            },
            AstError::StringOutsideFunction(text) => {
                push_str(&mut s, "String literal \"");
                push_str(&mut s, text.as_str());
                push_str(&mut s, "\" outside function call.");
            },
            AstError::UnreachableLexeme(l) => {
                push_str(&mut s, "Unreachable lexeme \"");
                push_str(&mut s, l.display_type());
                push_str(&mut s, "\".");
            },
            AstError::CannotBuildEmptyTree => push_str(&mut s, "Cannot build a balanced tree from zero operands"),
            AstError::FailedPopFromQueue => push_str(
                &mut s,
                "Failed to pop node from the queue during tree construction",
            ),
            AstError::DivisionByZero(_) => {},
        }
        proof {
            assert(s@ =~= ast_error_text(self.error_view()));
        }
        s
    }
}

/// The text of an error (for all but a division by zero).
pub open spec fn ast_error_text<N>(e: AstErrorView<N>) -> Seq<char> {
    match e {
        AstErrorView::ExpectedCommaOrRightParenthesis(l) => "Expected ',' or ')', but found \""@ + lexeme_type_name(l)
            + "\"."@,
        AstErrorView::ExpectedRightBracket => "Expected right bracket."@,
        AstErrorView::ExpectedRightParenthesis => "Expected right parenthesis."@,
        AstErrorView::NotExpectedEndOfExpression => "Not expected end of expression."@,
        AstErrorView::NotExpectedLexeme(l) => "Not expected lexeme \""@ + lexeme_type_name(l) + "\"."@,
        AstErrorView::StringOutsideFunction(s) => "String literal \""@ + s + "\" outside function call."@,
        AstErrorView::UnreachableLexeme(l) => "Unreachable lexeme \""@ + lexeme_type_name(l) + "\"."@,
        AstErrorView::CannotBuildEmptyTree => "Cannot build a balanced tree from zero operands"@,
        AstErrorView::FailedPopFromQueue => "Failed to pop node from the queue during tree construction"@,
        AstErrorView::DivisionByZero(_) => Seq::empty(),
    }
}

} // verus!
