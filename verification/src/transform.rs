//! Rewriting a tree into a form with fewer sequential dependencies:
//! `a - b` becomes `a + (-b)`, negation is pushed into sums and cancels
//! in pairs, and a division chain `a / b / c` becomes `a / (b * c)`.
use vstd::prelude::*;
use crate::ast::{
    AbstractSyntaxTree, AstError, AstNode, Node, views, lemma_views_push, lemma_views_take, lemma_views_len,
    lemma_views_index,
};
use crate::operations::{BinaryOperationKind, UnaryOperationKind};

verus! {

/// A size of a tree in which a negation counts three times what it negates
/// and the right side of a subtraction three times; rewriting never makes it
/// grow, which is why rewriting ends.
pub open spec fn weight<N>(n: Node<N>) -> nat
    decreases n,
{
    match n {
        Node::Unary(UnaryOperationKind::Minus, e) => 1 + 3 * weight(*e),
        Node::Unary(UnaryOperationKind::Not, e) => 1 + weight(*e),
        Node::Binary(BinaryOperationKind::Minus, l, r) => 2 + weight(*l) + 3 * weight(*r),
        Node::Binary(_, l, r) => 1 + weight(*l) + weight(*r),
        Node::Call(_, args) => 1 + weights(args),
        Node::Access(_, idx) => 1 + weights(idx),
        _ => 1,
    }
}

pub open spec fn weights<N>(s: Seq<Node<N>>) -> nat
    decreases s,
{
    if s.len() == 0 {
        0
    } else {
        weights(s.drop_last()) + weight(s.last())
    }
}

/// The head and the right operands of a left-leaning chain of `op`:
/// `((a op b) op c)` gives `(a, [b, c])`.
pub open spec fn left_chain<N>(n: Node<N>, op: BinaryOperationKind) -> (Node<N>, Seq<Node<N>>)
    decreases n,
{
    match n {
        Node::Binary(o, l, r) => if o == op {
            let (h, ts) = left_chain(*l, op);
            (h, ts.push(*r))
        } else {
            (n, Seq::empty())
        },
        _ => (n, Seq::empty()),
    }
}

/// `[a, b, c]` joined by `op` leaning left: `((a op b) op c)`.
pub open spec fn left_tree<N>(ts: Seq<Node<N>>, op: BinaryOperationKind) -> Node<N>
    decreases ts.len(),
{
    if ts.len() <= 1 {
        ts[0]
    } else {
        Node::Binary(op, Box::new(left_tree(ts.drop_last(), op)), Box::new(ts.last()))
    }
}

pub proof fn lemma_weights_index<N>(s: Seq<Node<N>>, k: int)
    requires
        0 <= k < s.len(),
    ensures
        weight(s[k]) <= weights(s),
    decreases s.len(),
{
    if k < s.len() - 1 {
        lemma_weights_index(s.drop_last(), k);
    }
}

/// The weight of a chain is that of its parts plus one per operator.
pub proof fn lemma_chain_weight<N>(n: Node<N>)
    requires
        n matches Node::Binary(BinaryOperationKind::Divide, _, _),
    ensures
        ({
            let (h, ts) = left_chain(n, BinaryOperationKind::Divide);
            &&& ts.len() >= 1
            &&& weight(n) == weight(h) + weights(ts) + ts.len()
            &&& !(h matches Node::Binary(BinaryOperationKind::Divide, _, _))
        }),
    decreases n,
{
    if let Node::Binary(op, l, r) = n {
        let (h, ts) = left_chain(*l, BinaryOperationKind::Divide);
        assert(left_chain(n, BinaryOperationKind::Divide) == (h, ts.push(*r)));
        if *l matches Node::Binary(BinaryOperationKind::Divide, _, _) {
            lemma_chain_weight(*l);
        } else {
            assert(ts =~= Seq::<Node<N>>::empty());
        }
        assert(ts.push(*r).drop_last() =~= ts);
        assert(weights(ts.push(*r)) == weights(ts) + weight(*r));
    }
}

/// The rewritten form of a tree.
pub open spec fn transformed<N>(n: Node<N>) -> Node<N>
    decreases weight(n), 0int,
{
    match n {
        Node::Unary(UnaryOperationKind::Not, e) => Node::Unary(UnaryOperationKind::Not, Box::new(transformed(*e))),
        Node::Unary(UnaryOperationKind::Minus, e) => {
            let t = transformed(*e);
            match t {
                Node::Unary(UnaryOperationKind::Minus, inner) => *inner,
                Node::Binary(BinaryOperationKind::Plus, l, r) => {
                    let p = Node::Binary(
                        BinaryOperationKind::Plus,
                        Box::new(Node::Unary(UnaryOperationKind::Minus, l)),
                        Box::new(Node::Unary(UnaryOperationKind::Minus, r)),
                    );
                    if weight(p) < weight(n) {
                        transformed(p)
                    } else {
                        p
                    }
                },
                _ => Node::Unary(UnaryOperationKind::Minus, Box::new(t)),
            }
        },
        Node::Binary(BinaryOperationKind::Minus, l, r) => Node::Binary(
            BinaryOperationKind::Plus,
            Box::new(transformed(*l)),
            Box::new(Node::Unary(UnaryOperationKind::Minus, Box::new(transformed(*r)))),
        ),
        Node::Binary(BinaryOperationKind::Divide, _, _) => {
            let (h, ts) = left_chain(n, BinaryOperationKind::Divide);
            proof {
                lemma_chain_weight(n);
            }
            Node::Binary(
                BinaryOperationKind::Divide,
                Box::new(transformed(h)),
                Box::new(left_tree(transformed_all(ts), BinaryOperationKind::Multiply)),
            )
        },
        Node::Binary(op, l, r) => Node::Binary(op, Box::new(transformed(*l)), Box::new(transformed(*r))),
        Node::Call(name, args) => Node::Call(name, transformed_all(args)),
        Node::Access(name, idx) => Node::Access(name, transformed_all(idx)),
        _ => n,
    }
}

pub proof fn lemma_weight_positive<N>(n: Node<N>)
    ensures
        weight(n) >= 1,
{
}

/// Each tree of `s` rewritten.
pub open spec fn transformed_all<N>(s: Seq<Node<N>>) -> Seq<Node<N>>
    decreases weights(s), 1int,
{
    if s.len() == 0 {
        Seq::empty()
    } else {
        proof {
            lemma_weight_positive(s.last());
        }
        transformed_all(s.drop_last()).push(transformed(s.last()))
    }
}


pub proof fn lemma_left_tree_weight<N>(ts: Seq<Node<N>>, op: BinaryOperationKind)
    requires
        ts.len() >= 1,
        op != BinaryOperationKind::Minus,
    ensures
        weight(left_tree(ts, op)) == weights(ts) + ts.len() - 1,
    decreases ts.len(),
{
    if ts.len() > 1 {
        lemma_left_tree_weight(ts.drop_last(), op);
        let l = left_tree(ts.drop_last(), op);
        assert(left_tree(ts, op) == Node::Binary(op, Box::new(l), Box::new(ts.last())));
        assert(weight(left_tree(ts, op)) == 1 + weight(l) + weight(ts.last()));
    } else {
        assert(ts.drop_last() =~= Seq::<Node<N>>::empty());
        assert(weights(Seq::<Node<N>>::empty()) == 0);
        assert(weights(ts) == weight(ts[0]));
    }
}

/// A tree with no binary `-` anywhere in it.
pub open spec fn subtraction_free<N>(n: Node<N>) -> bool
    decreases n,
{
    match n {
        Node::Unary(_, e) => subtraction_free(*e),
        Node::Binary(op, l, r) => op != BinaryOperationKind::Minus && subtraction_free(*l) && subtraction_free(*r),
        Node::Call(_, args) => all_subtraction_free(args),
        Node::Access(_, idx) => all_subtraction_free(idx),
        _ => true,
    }
}

/// Every tree of `s` is free of binary `-`.
pub open spec fn all_subtraction_free<N>(s: Seq<Node<N>>) -> bool
    decreases s,
{
    s.len() == 0 || (all_subtraction_free(s.drop_last()) && subtraction_free(s.last()))
}

proof fn lemma_left_tree_subtraction_free<N>(ts: Seq<Node<N>>, op: BinaryOperationKind)
    requires
        ts.len() >= 1,
        op != BinaryOperationKind::Minus,
        all_subtraction_free(ts),
    ensures
        subtraction_free(left_tree(ts, op)),
    decreases ts.len(),
{
    if ts.len() > 1 {
        lemma_left_tree_subtraction_free(ts.drop_last(), op);
    } else {
        assert(ts.last() == ts[0]);
    }
}

/// The rewriting removes every subtraction: `a - b` becomes `a + -b`, and
/// nothing that it builds holds a binary `-`.
pub proof fn law_transform_leaves_no_subtraction<N>(n: Node<N>)
    ensures
        subtraction_free(transformed(n)),
    decreases weight(n), 0int,
{
    match n {
        Node::Unary(UnaryOperationKind::Not, e) => {
            law_transform_leaves_no_subtraction(*e);
        },
        Node::Unary(UnaryOperationKind::Minus, e) => {
            law_transform_leaves_no_subtraction(*e);
            if let Node::Binary(BinaryOperationKind::Plus, l, r) = transformed(*e) {
                let p = Node::Binary(
                    BinaryOperationKind::Plus,
                    Box::new(Node::Unary(UnaryOperationKind::Minus, l)),
                    Box::new(Node::Unary(UnaryOperationKind::Minus, r)),
                );
                assert(subtraction_free(Node::Unary(UnaryOperationKind::Minus, l)));
                assert(subtraction_free(Node::Unary(UnaryOperationKind::Minus, r)));
                if weight(p) < weight(n) {
                    law_transform_leaves_no_subtraction(p);
                }
            }
        },
        Node::Binary(BinaryOperationKind::Divide, _, _) => {
            let (h, ts) = left_chain(n, BinaryOperationKind::Divide);
            lemma_chain_weight(n);
            law_transform_leaves_no_subtraction(h);
            lemma_transform_all_leaves_no_subtraction(ts);
            lemma_transformed_all_len(ts);
            lemma_left_tree_subtraction_free(transformed_all(ts), BinaryOperationKind::Multiply);
        },
        Node::Binary(_, l, r) => {
            law_transform_leaves_no_subtraction(*l);
            law_transform_leaves_no_subtraction(*r);
            assert(subtraction_free(Node::Unary(UnaryOperationKind::Minus, Box::new(transformed(*r)))));
        },
        Node::Call(_, args) => {
            lemma_transform_all_leaves_no_subtraction(args);
        },
        Node::Access(_, idx) => {
            lemma_transform_all_leaves_no_subtraction(idx);
        },
        _ => {},
    }
}

proof fn lemma_transform_all_leaves_no_subtraction<N>(s: Seq<Node<N>>)
    ensures
        all_subtraction_free(transformed_all(s)),
    decreases weights(s), 1int,
{
    if s.len() > 0 {
        lemma_weight_positive(s.last());
        lemma_transform_all_leaves_no_subtraction(s.drop_last());
        law_transform_leaves_no_subtraction(s.last());
        let t = transformed_all(s);
        assert(t.drop_last() =~= transformed_all(s.drop_last()));
    }
}

impl<N> AbstractSyntaxTree<N> {
    /// The tree rewritten (see [`transformed`]); this never fails.
    pub fn transform(self) -> (r: Result<Self, AstError<N>>)
        ensures
            r is Ok,
            r->Ok_0.peek.view_node() == transformed(self.peek.view_node()),
    {
        let peek = match Self::transform_recursive(self.peek) {
            Ok(n) => n,
            Err(e) => return Err(e),
        };
        Ok(Self::from_node(peek))
    }

    /// `node` rewritten (see [`transformed`]); this never fails, and the
    /// result weighs no more than `node`.
    pub fn transform_recursive(node: AstNode<N>) -> (r: Result<AstNode<N>, AstError<N>>)
        ensures
            r is Ok,
            r->Ok_0.view_node() == transformed(node.view_node()),
            weight(r->Ok_0.view_node()) <= weight(node.view_node()),
        decreases weight(node.view_node()), 1int,
    {
        let ghost n = node.view_node();
        match node {
            AstNode::Number(v) => Ok(AstNode::Number(v)),
            AstNode::Identifier(s) => Ok(AstNode::Identifier(s)),
            AstNode::StringLiteral(s) => Ok(AstNode::StringLiteral(s)),
            AstNode::UnaryOperation { operation, expression } => {
                let t = match Self::transform_recursive(*expression) {
                    Ok(t) => t,
                    Err(e) => return Err(e),
                };
                match operation {
                    UnaryOperationKind::Not => Ok(
                        AstNode::UnaryOperation { operation: UnaryOperationKind::Not, expression: Box::new(t) },
                    ),
                    UnaryOperationKind::Minus => match t {
                        AstNode::UnaryOperation { operation: UnaryOperationKind::Minus, expression: inner } => Ok(
                            *inner,
                        ),
                        AstNode::BinaryOperation { operation: BinaryOperationKind::Plus, left, right } => {
                            let ghost wl = weight(left.view_node());
                            let ghost wr = weight(right.view_node());
                            let negated_left = AstNode::UnaryOperation { operation: UnaryOperationKind::Minus, expression: left };
                            let negated_right = AstNode::UnaryOperation { operation: UnaryOperationKind::Minus, expression: right };
                            assert(weight(negated_left.view_node()) == 1 + 3 * wl);
                            assert(weight(negated_right.view_node()) == 1 + 3 * wr);
                            let p = AstNode::BinaryOperation {
                                operation: BinaryOperationKind::Plus,
                                left: Box::new(negated_left),
                                right: Box::new(negated_right),
                            };
                            assert(weight(p.view_node()) == 3 + 3 * wl + 3 * wr);
                            assert(weight(n) == 1 + 3 * weight(expression.view_node()));
                            assert(weight(p.view_node()) < weight(n));
                            Self::transform_recursive(p)
                        },
                        other => Ok(
                            AstNode::UnaryOperation { operation: UnaryOperationKind::Minus, expression: Box::new(other) },
                        ),
                    },
                }
            },
            AstNode::BinaryOperation { operation, left, right } => match operation {
                BinaryOperationKind::Minus => {
                    let transformed_left = match Self::transform_recursive(*left) {
                        Ok(t) => t,
                        Err(e) => return Err(e),
                    };
                    let transformed_right = match Self::transform_recursive(*right) {
                        Ok(t) => t,
                        Err(e) => return Err(e),
                    };
                    let negated = AstNode::UnaryOperation {
                        operation: UnaryOperationKind::Minus,
                        expression: Box::new(transformed_right),
                    };
                    assert(weight(negated.view_node()) == 1 + 3 * weight(transformed_right.view_node()));
                    Ok(AstNode::BinaryOperation {
                        operation: BinaryOperationKind::Plus,
                        left: Box::new(transformed_left),
                        right: Box::new(negated),
                    })
                },
                BinaryOperationKind::Divide => Self::optimize_division_chain(
                    AstNode::BinaryOperation { operation, left, right },
                ),
                _ => {
                    let transformed_left = match Self::transform_recursive(*left) {
                        Ok(t) => t,
                        Err(e) => return Err(e),
                    };
                    let transformed_right = match Self::transform_recursive(*right) {
                        Ok(t) => t,
                        Err(e) => return Err(e),
                    };
                    Ok(AstNode::BinaryOperation {
                        operation,
                        left: Box::new(transformed_left),
                        right: Box::new(transformed_right),
                    })
                },
            },
            AstNode::FunctionCall { name, arguments } => {
                let transformed_arguments = match Self::transform_each(arguments) {
                    Ok(t) => t,
                    Err(e) => return Err(e),
                };
                Ok(AstNode::FunctionCall { name, arguments: transformed_arguments })
            },
            AstNode::ArrayAccess { identifier, indices } => {
                let transformed_indices = match Self::transform_each(indices) {
                    Ok(t) => t,
                    Err(e) => return Err(e),
                };
                Ok(AstNode::ArrayAccess { identifier, indices: transformed_indices })
            },
        }
    }

    /// Each of `items` rewritten, in order.
    fn transform_each(items: Vec<AstNode<N>>) -> (r: Result<Vec<AstNode<N>>, AstError<N>>)
        ensures
            r is Ok,
            views(r->Ok_0@) == transformed_all(views(items@)),
            weights(views(r->Ok_0@)) <= weights(views(items@)),
        decreases weights(views(items@)), 2int,
    {
        let ghost all = items@;
        let mut rest = items;
        let mut out: Vec<AstNode<N>> = Vec::new();
        proof {
            assert(all.take(0) =~= Seq::<AstNode<N>>::empty());
            assert(views(out@) =~= Seq::<Node<N>>::empty());
        }
        while rest.len() > 0
            invariant
                all == items@,
                0 <= all.len() - rest.len() <= all.len(),
                rest@ == all.skip(all.len() - rest.len()),
                views(out@) == transformed_all(views(all.take(all.len() - rest.len()))),
                weights(views(out@)) <= weights(views(all.take(all.len() - rest.len()))),
            decreases rest.len(),
        {
            let ghost k = all.len() - rest.len();
            let item = rest.remove(0);
            assert(item == all[k]);
            proof {
                lemma_views_len(all);
                lemma_views_index(all, k);
                lemma_weights_index(views(all), k);
            }
            let t = match Self::transform_recursive(item) {
                Ok(t) => t,
                Err(e) => return Err(e),
            };
            proof {
                lemma_views_take(all, k);
                lemma_views_push(out@, t);
                let before = views(all.take(k));
                let done = views(out@);
                assert(before.push(all[k].view_node()).drop_last() =~= before);
                assert(done.push(t.view_node()).drop_last() =~= done);
                assert(weights(before.push(all[k].view_node())) == weights(before) + weight(all[k].view_node()));
                assert(weights(done.push(t.view_node())) == weights(done) + weight(t.view_node()));
                assert(rest@ =~= all.skip(k + 1));
            }
            out.push(t);
        }
        proof {
            assert(all.take(all.len() as int) =~= all);
        }
        Ok(out)
    }

    /// A chain `a / b / c` as `a / (b * c)`, each part rewritten.
    fn optimize_division_chain(node: AstNode<N>) -> (r: Result<AstNode<N>, AstError<N>>)
        requires
            node.view_node() matches Node::Binary(BinaryOperationKind::Divide, _, _),
        ensures
            r is Ok,
            r->Ok_0.view_node() == transformed(node.view_node()),
            weight(r->Ok_0.view_node()) <= weight(node.view_node()),
        decreases weight(node.view_node()), 0int,
    {
        let ghost n = node.view_node();
        proof {
            lemma_chain_weight(n);
        }
        let (head, terms) = Self::collect_left_associative_chain(node, BinaryOperationKind::Divide);
        let transformed_head = match Self::transform_recursive(head) {
            Ok(t) => t,
            Err(e) => return Err(e),
        };
        if terms.len() == 0 {
            return Ok(transformed_head);
        }
        let transformed_terms = match Self::transform_each(terms) {
            Ok(t) => t,
            Err(e) => return Err(e),
        };
        proof {
            lemma_views_len(transformed_terms@);
            lemma_views_len(terms@);
            lemma_transformed_all_len(views(terms@));
            lemma_left_tree_weight(views(transformed_terms@), BinaryOperationKind::Multiply);
        }
        let product_node = Self::build_left_associative_tree(transformed_terms, BinaryOperationKind::Multiply);
        Ok(AstNode::BinaryOperation {
            operation: BinaryOperationKind::Divide,
            left: Box::new(transformed_head),
            right: Box::new(product_node),
        })
    }

    /// The head and right operands of a left-leaning chain of `target_op`.
    fn collect_left_associative_chain(node: AstNode<N>, target_op: BinaryOperationKind) -> (r: (AstNode<N>, Vec<AstNode<N>>))
        ensures
            left_chain(node.view_node(), target_op) == (r.0.view_node(), views(r.1@)),
        decreases weight(node.view_node()),
    {
        match node {
            AstNode::BinaryOperation { operation, left, right } => {
                if operation == target_op {
                    let (head, mut terms) = Self::collect_left_associative_chain(*left, target_op);
                    proof {
                        lemma_views_push(terms@, *right);
                    }
                    terms.push(*right);
                    (head, terms)
                } else {
                    let terms: Vec<AstNode<N>> = Vec::new();
                    assert(views(terms@) =~= Seq::<Node<N>>::empty());
                    (AstNode::BinaryOperation { operation, left, right }, terms)
                }
            },
            other => {
                let terms: Vec<AstNode<N>> = Vec::new();
                assert(views(terms@) =~= Seq::<Node<N>>::empty());
                (other, terms)
            },
        }
    }

    /// `terms` joined by `op` leaning left.
    fn build_left_associative_tree(terms: Vec<AstNode<N>>, op: BinaryOperationKind) -> (r: AstNode<N>)
        requires
            terms.len() >= 1,
        ensures
            r.view_node() == left_tree(views(terms@), op),
    {
        let ghost all = terms@;
        let mut rest = terms;
        let mut current = rest.remove(0);
        proof {
            assert(all.take(1) =~= seq![all[0]]);
            lemma_views_push(Seq::<AstNode<N>>::empty(), all[0]);
            assert(Seq::<AstNode<N>>::empty().push(all[0]) =~= seq![all[0]]);
            assert(views(Seq::<AstNode<N>>::empty()) =~= Seq::<Node<N>>::empty());
        }
        while rest.len() > 0
            invariant
                1 <= all.len() - rest.len() <= all.len(),
                rest@ == all.skip(all.len() - rest.len()),
                current.view_node() == left_tree(views(all.take(all.len() - rest.len())), op),
            decreases rest.len(),
        {
            let ghost k = all.len() - rest.len();
            let term = rest.remove(0);
            proof {
                lemma_views_take(all, k);
                lemma_views_len(all.take(k));
                let before = views(all.take(k));
                assert(before.push(term.view_node()).drop_last() =~= before);
                assert(rest@ =~= all.skip(k + 1));
            }
            current = AstNode::BinaryOperation { operation: op, left: Box::new(current), right: Box::new(term) };
        }
        proof {
            assert(all.take(all.len() as int) =~= all);
        }
        current
    }
}

pub proof fn lemma_transformed_all_len<N>(s: Seq<Node<N>>)
    ensures
        transformed_all(s).len() == s.len(),
    decreases s.len(),
{
    if s.len() > 0 {
        lemma_transformed_all_len(s.drop_last());
    }
}

} // verus!
