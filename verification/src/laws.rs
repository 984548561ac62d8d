//! One step of the distributive law: `A * (B ± C)` becomes
//! `(A * B) ± (A * C)`, and `(A ± B) * C` becomes `(A * C) ± (B * C)`, at
//! any node of a tree where the pattern occurs.
use vstd::prelude::*;
use crate::ast::{AbstractSyntaxTree, AstNode, Node, views, lemma_views_push, lemma_views_len, lemma_views_index};
use crate::operations::BinaryOperationKind;

verus! {

impl<N: Copy> AstNode<N> {
    /// A copy of the tree.
    pub fn copy_tree(&self) -> (r: AstNode<N>)
        ensures
            r.view_node() == self.view_node(),
        decreases self,
    {
        match self {
            AstNode::Number(v) => AstNode::Number(*v),
            AstNode::Identifier(s) => AstNode::Identifier(s.clone()),
            AstNode::StringLiteral(s) => AstNode::StringLiteral(s.clone()),
            AstNode::UnaryOperation { operation, expression } => AstNode::UnaryOperation {
                operation: *operation,
                expression: Box::new(expression.copy_tree()),
            },
            AstNode::BinaryOperation { operation, left, right } => AstNode::BinaryOperation {
                operation: *operation,
                left: Box::new(left.copy_tree()),
                right: Box::new(right.copy_tree()),
            },
            AstNode::FunctionCall { name, arguments } => AstNode::FunctionCall {
                name: name.clone(),
                arguments: Self::copy_all(arguments),
            },
            AstNode::ArrayAccess { identifier, indices } => AstNode::ArrayAccess {
                identifier: identifier.clone(),
                indices: Self::copy_all(indices),
            },
        }
    }

    fn copy_all(items: &Vec<AstNode<N>>) -> (r: Vec<AstNode<N>>)
        ensures
            views(r@) == views(items@),
        decreases items,
    {
        let mut out: Vec<AstNode<N>> = Vec::new();
        let mut k: usize = 0;
        assert(items@.take(0) =~= Seq::<AstNode<N>>::empty());
        assert(views(out@) =~= Seq::<Node<N>>::empty());
        while k < items.len()
            invariant
                k <= items.len(),
                views(out@) == views(items@.take(k as int)),
            decreases items.len() - k,
        {
            let c = items[k].copy_tree();
            proof {
                lemma_views_push(out@, c);
                lemma_views_push(items@.take(k as int), items@[k as int]);
                assert(items@.take(k + 1) =~= items@.take(k as int).push(items@[k as int]));
            }
            out.push(c);
            k += 1;
        }
        assert(items@.take(items.len() as int) =~= items@);
        out
    }
}


/// `n` is a sum or a difference.
pub open spec fn is_additive<N>(n: Node<N>) -> bool {
    n matches Node::Binary(op, _, _) && (op == BinaryOperationKind::Plus || op == BinaryOperationKind::Minus)
}

/// One distributive step at the root: `A * (B ± C)` gives
/// `(A * B) ± (A * C)`, else `(A ± B) * C` gives `(A * C) ± (B * C)`; any
/// other node stays as it is.
pub open spec fn expanded<N>(n: Node<N>) -> Node<N> {
    match n {
        Node::Binary(BinaryOperationKind::Multiply, a, r) => match *r {
            Node::Binary(op, b, c) => if op == BinaryOperationKind::Plus || op == BinaryOperationKind::Minus {
                Node::Binary(
                    op,
                    Box::new(Node::Binary(BinaryOperationKind::Multiply, a, b)),
                    Box::new(Node::Binary(BinaryOperationKind::Multiply, a, c)),
                )
            } else {
                expanded_left(n)
            },
            _ => expanded_left(n),
        },
        _ => n,
    }
}

/// The second pattern of [`expanded`], `(A ± B) * C`.
pub open spec fn expanded_left<N>(n: Node<N>) -> Node<N> {
    match n {
        Node::Binary(BinaryOperationKind::Multiply, l, c) => match *l {
            Node::Binary(op, a, b) => if op == BinaryOperationKind::Plus || op == BinaryOperationKind::Minus {
                Node::Binary(
                    op,
                    Box::new(Node::Binary(BinaryOperationKind::Multiply, a, c)),
                    Box::new(Node::Binary(BinaryOperationKind::Multiply, b, c)),
                )
            } else {
                n
            },
            _ => n,
        },
        _ => n,
    }
}

/// The paths, from `prefix`, of the products of `n` with a sum or
/// difference on a side, in pre-order; a product with one on each side is
/// listed twice. A path steps 0 to the left operand, 1 to the right one
/// and 2 into a negation or logical not; calls and indexing are not
/// entered.
pub open spec fn expandable_paths<N>(n: Node<N>, prefix: Seq<u8>) -> Seq<Seq<u8>>
    decreases n,
{
    let here = match n {
        Node::Binary(BinaryOperationKind::Multiply, l, r) => (if is_additive(*l) {
            seq![prefix]
        } else {
            Seq::empty()
        }) + (if is_additive(*r) {
            seq![prefix]
        } else {
            Seq::empty()
        }),
        _ => Seq::empty(),
    };
    here + match n {
        Node::Binary(_, l, r) => expandable_paths(*l, prefix.push(0u8)) + expandable_paths(*r, prefix.push(1u8)),
        Node::Unary(_, e) => expandable_paths(*e, prefix.push(2u8)),
        _ => Seq::empty(),
    }
}

/// The node at `path` from `n`, if the path leads anywhere: at a binary
/// node 0 steps left and any other step right; at a unary node any step
/// goes in.
pub open spec fn subtree_at<N>(n: Node<N>, path: Seq<u8>) -> Option<Node<N>>
    decreases path.len(),
{
    if path.len() == 0 {
        Some(n)
    } else {
        match n {
            Node::Binary(_, l, r) => subtree_at(if path[0] == 0 { *l } else { *r }, path.drop_first()),
            Node::Unary(_, e) => subtree_at(*e, path.drop_first()),
            _ => None,
        }
    }
}

/// `n` with the node at `path` replaced by `new`.
pub open spec fn replaced_at<N>(n: Node<N>, path: Seq<u8>, new: Node<N>) -> Node<N>
    decreases path.len(),
{
    if path.len() == 0 {
        new
    } else {
        match n {
            Node::Binary(op, l, r) => if path[0] == 0 {
                Node::Binary(op, Box::new(replaced_at(*l, path.drop_first(), new)), r)
            } else {
                Node::Binary(op, l, Box::new(replaced_at(*r, path.drop_first(), new)))
            },
            Node::Unary(op, e) => Node::Unary(op, Box::new(replaced_at(*e, path.drop_first(), new))),
            _ => n,
        }
    }
}

/// The tree after one distributive step at `path`.
pub open spec fn expanded_at<N>(n: Node<N>, path: Seq<u8>) -> Node<N> {
    match subtree_at(n, path) {
        Some(t) => replaced_at(n, path, expanded(t)),
        None => n,
    }
}

/// Every tree one distributive step away from `n`, one per expandable path.
pub open spec fn single_step_expansions<N>(n: Node<N>) -> Seq<Node<N>> {
    expandable_paths(n, Seq::empty()).map_values(|p: Seq<u8>| expanded_at(n, p))
}


impl<N: Copy> AbstractSyntaxTree<N> {
    /// The node at `path` from `node`, to be changed in place (see
    /// [`subtree_at`]); `None` where the path leads nowhere.
    pub fn get_node_mut_by_path<'a>(node: &'a mut AstNode<N>, path: &[u8]) -> (r: Option<&'a mut AstNode<N>>)
        ensures
            match r {
                Some(t) => subtree_at(old(node).view_node(), path@) == Some((*t).view_node())
                    && (*final(node)).view_node() == replaced_at(old(node).view_node(), path@, (*final(t)).view_node()),
                None => subtree_at(old(node).view_node(), path@) is None && *final(node) == *old(node),
            },
    {
        proof {
            assert(path@.skip(0) =~= path@);
        }
        Self::node_at(node, path, 0)
    }

    fn node_at<'a>(node: &'a mut AstNode<N>, path: &[u8], from: usize) -> (r: Option<&'a mut AstNode<N>>)
        requires
            from <= path@.len(),
        ensures
            match r {
                Some(t) => subtree_at(old(node).view_node(), path@.skip(from as int)) == Some((*t).view_node())
                    && (*final(node)).view_node() == replaced_at(
                    old(node).view_node(),
                    path@.skip(from as int),
                    (*final(t)).view_node(),
                ),
                None => subtree_at(old(node).view_node(), path@.skip(from as int)) is None && *final(node) == *old(node),
            },
        decreases path@.len() - from,
    {
        if from == path.len() {
            return Some(node);
        }
        let step = path[from];
        proof {
            assert(path@.skip(from as int).drop_first() =~= path@.skip(from + 1));
            assert(path@.skip(from as int)[0] == step);
        }
        match node {
            AstNode::BinaryOperation { left, right, .. } => {
                if step == 0 {
                    Self::node_at(left, path, from + 1)
                } else {
                    Self::node_at(right, path, from + 1)
                }
            },
            AstNode::UnaryOperation { expression, .. } => Self::node_at(expression, path, from + 1),
            _ => None,
        }
    }
}


pub open spec fn path_views(s: Seq<Vec<u8>>) -> Seq<Seq<u8>> {
    s.map_values(|p: Vec<u8>| p@)
}

pub(crate) fn copy_path(path: &Vec<u8>) -> (r: Vec<u8>)
    ensures
        r@ == path@,
{
    let mut out: Vec<u8> = Vec::new();
    let mut k: usize = 0;
    while k < path.len()
        invariant
            k <= path.len(),
            out@ == path@.take(k as int),
        decreases path.len() - k,
    {
        out.push(path[k]);
        k += 1;
        assert(out@ =~= path@.take(k as int));
    }
    assert(path@.take(path.len() as int) =~= path@);
    out
}

impl<N: Copy> AbstractSyntaxTree<N> {
    /// Every tree one distributive step away from this one (see
    /// [`single_step_expansions`]).
    pub fn get_all_single_step_expansions(&self) -> (r: Vec<AbstractSyntaxTree<N>>)
        ensures
            r@.len() == single_step_expansions(self.peek.view_node()).len(),
            forall|k: int| 0 <= k < r@.len() ==> #[trigger] r@[k].peek.view_node() == single_step_expansions(
                self.peek.view_node(),
            )[k],
    {
        let ghost n = self.peek.view_node();
        let mut expandable_nodes_paths: Vec<Vec<u8>> = Vec::new();
        let mut path: Vec<u8> = Vec::new();
        assert(path_views(expandable_nodes_paths@) =~= Seq::<Seq<u8>>::empty());
        Self::find_expandable_nodes_recursive(&self.peek, &mut path, &mut expandable_nodes_paths);
        assert(path_views(expandable_nodes_paths@) =~= expandable_paths(n, Seq::empty()));
        let ghost paths = path_views(expandable_nodes_paths@);
        let mut all_forms: Vec<AbstractSyntaxTree<N>> = Vec::new();
        let mut k: usize = 0;
        while k < expandable_nodes_paths.len()
            invariant
                n == self.peek.view_node(),
                paths == path_views(expandable_nodes_paths@),
                paths == expandable_paths(n, Seq::empty()),
                k <= expandable_nodes_paths.len(),
                all_forms@.len() == k,
                forall|j: int| 0 <= j < k ==> #[trigger] all_forms@[j].peek.view_node() == expanded_at(n, paths[j]),
            decreases expandable_nodes_paths.len() - k,
        {
            let mut new_tree = AbstractSyntaxTree::from_node(self.peek.copy_tree());
            let target = Self::get_node_mut_by_path(&mut new_tree.peek, expandable_nodes_paths[k].as_slice());
            match target {
                Some(target_node) => {
                    let original = target_node.copy_tree();
                    *target_node = Self::perform_expansion(original);
                },
                None => {},
            }
            assert(new_tree.peek.view_node() == expanded_at(n, paths[k as int]));
            all_forms.push(new_tree);
            k += 1;
        }
        all_forms
    }

    /// Appends the paths of the expandable products of `node` (see
    /// [`expandable_paths`]) from `path`, which it leaves as it found it.
    fn find_expandable_nodes_recursive(node: &AstNode<N>, path: &mut Vec<u8>, paths: &mut Vec<Vec<u8>>)
        ensures
            final(path)@ == old(path)@,
            path_views(final(paths)@) == path_views(old(paths)@) + expandable_paths(node.view_node(), old(path)@),
        decreases node,
    {
        let ghost prefix = path@;
        let ghost start = path_views(paths@);
        match node {
            AstNode::BinaryOperation { operation: BinaryOperationKind::Multiply, left, right } => {
                let left_additive = match &**left {
                    AstNode::BinaryOperation { operation: op, .. } => *op == BinaryOperationKind::Plus || *op
                        == BinaryOperationKind::Minus,
                    _ => false,
                };
                if left_additive {
                    let copy = copy_path(path);
                    paths.push(copy);
                }
                let right_additive = match &**right {
                    AstNode::BinaryOperation { operation: op, .. } => *op == BinaryOperationKind::Plus || *op
                        == BinaryOperationKind::Minus,
                    _ => false,
                };
                if right_additive {
                    let copy = copy_path(path);
                    paths.push(copy);
                }
                assert(is_additive(left.view_node()) == left_additive);
                assert(is_additive(right.view_node()) == right_additive);
            },
            _ => {},
        }
        let ghost mid = path_views(paths@);
        match node {
            AstNode::BinaryOperation { operation, left, right } => {
                assert(mid =~= start + match node.view_node() {
                    Node::Binary(BinaryOperationKind::Multiply, l, r) => (if is_additive(*l) {
                        seq![prefix]
                    } else {
                        Seq::empty()
                    }) + (if is_additive(*r) {
                        seq![prefix]
                    } else {
                        Seq::empty()
                    }),
                    _ => Seq::empty(),
                });
                path.push(0);
                Self::find_expandable_nodes_recursive(left, path, paths);
                path.pop();
                assert(path@ =~= prefix);
                path.push(1);
                Self::find_expandable_nodes_recursive(right, path, paths);
                path.pop();
                assert(path@ =~= prefix);
            },
            AstNode::UnaryOperation { expression, .. } => {
                assert(mid =~= start);
                path.push(2);
                Self::find_expandable_nodes_recursive(expression, path, paths);
                path.pop();
                assert(path@ =~= prefix);
            },
            _ => {
                assert(mid =~= start);
            },
        }
        assert(path_views(paths@) =~= start + expandable_paths(node.view_node(), prefix));
    }

    /// One distributive step at the root of `node` (see [`expanded`]).
    fn perform_expansion(node: AstNode<N>) -> (r: AstNode<N>)
        ensures
            r.view_node() == expanded(node.view_node()),
    {
        match node {
            AstNode::BinaryOperation { operation: BinaryOperationKind::Multiply, left, right } => {
                match *right {
                    AstNode::BinaryOperation { operation: op, left: b, right: c } => {
                        if op == BinaryOperationKind::Plus || op == BinaryOperationKind::Minus {
                            let a = left.copy_tree();
                            let new_left = AstNode::BinaryOperation {
                                operation: BinaryOperationKind::Multiply,
                                left: Box::new(a),
                                right: b,
                            };
                            let ghost av = left.view_node();
                            let ghost bv = b.view_node();
                            let ghost cv = c.view_node();
                            let new_right = AstNode::BinaryOperation {
                                operation: BinaryOperationKind::Multiply,
                                left,
                                right: c,
                            };
                            assert(new_left.view_node() == Node::Binary(BinaryOperationKind::Multiply, Box::new(av), Box::new(bv)));
                            assert(new_right.view_node() == Node::Binary(BinaryOperationKind::Multiply, Box::new(av), Box::new(cv)));
                            return AstNode::BinaryOperation {
                                operation: op,
                                left: Box::new(new_left),
                                right: Box::new(new_right),
                            };
                        }
                        let right_node = AstNode::BinaryOperation { operation: op, left: b, right: c };
                        Self::expansion_of_left(*left, right_node)
                    },
                    other => Self::expansion_of_left(*left, other),
                }
            },
            other => other,
        }
    }

    /// `left * right` after the second pattern (see [`expanded_left`]).
    fn expansion_of_left(left: AstNode<N>, right: AstNode<N>) -> (r: AstNode<N>)
        ensures
            r.view_node() == expanded_left(
                Node::Binary(BinaryOperationKind::Multiply, Box::new(left.view_node()), Box::new(right.view_node())),
            ),
    {
        match left {
            AstNode::BinaryOperation { operation: op, left: a, right: b } => {
                if op == BinaryOperationKind::Plus || op == BinaryOperationKind::Minus {
                    let c = right.copy_tree();
                    let new_left = AstNode::BinaryOperation {
                        operation: BinaryOperationKind::Multiply,
                        left: a,
                        right: Box::new(c),
                    };
                    let ghost av = a.view_node();
                    let ghost bv = b.view_node();
                    let ghost cv = right.view_node();
                    let new_right = AstNode::BinaryOperation {
                        operation: BinaryOperationKind::Multiply,
                        left: b,
                        right: Box::new(right),
                    };
                    assert(new_left.view_node() == Node::Binary(BinaryOperationKind::Multiply, Box::new(av), Box::new(cv)));
                    assert(new_right.view_node() == Node::Binary(BinaryOperationKind::Multiply, Box::new(bv), Box::new(cv)));
                    return AstNode::BinaryOperation {
                        operation: op,
                        left: Box::new(new_left),
                        right: Box::new(new_right),
                    };
                }
                AstNode::BinaryOperation {
                    operation: BinaryOperationKind::Multiply,
                    left: Box::new(AstNode::BinaryOperation { operation: op, left: a, right: b }),
                    right: Box::new(right),
                }
            },
            other => AstNode::BinaryOperation {
                operation: BinaryOperationKind::Multiply,
                left: Box::new(other),
                right: Box::new(right),
            },
        }
    }
}

} // verus!
