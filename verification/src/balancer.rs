//! Rebalancing chains of `+` and `*`: the operands of a chain are gathered
//! in order and joined again pairwise, level by level, into a tree of least
//! height.
use vstd::prelude::*;
use std::collections::VecDeque;
use crate::ast::{
    AbstractSyntaxTree, AstError, AstErrorView, AstNode, Node, views, lemma_views_push, lemma_views_take,
    lemma_views_len, lemma_views_index, lemma_views_map,
};
use crate::operations::BinaryOperationKind;
use vstd::arithmetic::power2::{pow2, lemma_pow2_unfold, lemma2_to64};
use crate::transform::{weight, weights, lemma_weights_index, lemma_weight_positive};

verus! {

/// The operands of a chain of `op`, left to right: `(a op (b op c)) op d`
/// gives `[a, b, c, d]`.
pub open spec fn chain_operands<N>(n: Node<N>, op: BinaryOperationKind) -> Seq<Node<N>>
    decreases n,
{
    match n {
        Node::Binary(o, l, r) => if o == op {
            chain_operands(*l, op) + chain_operands(*r, op)
        } else {
            seq![n]
        },
        _ => seq![n],
    }
}

/// Neighbours joined by `op`: `[a, b, c, d, e]` gives `[a op b, c op d]`.
pub open spec fn paired<N>(q: Seq<Node<N>>, op: BinaryOperationKind) -> Seq<Node<N>> {
    Seq::new((q.len() / 2) as nat, |i: int| Node::Binary(op, Box::new(q[2 * i]), Box::new(q[2 * i + 1])))
}

/// The next level of the tree: the pairs, then the odd one out, if any.
pub open spec fn next_level<N>(q: Seq<Node<N>>, op: BinaryOperationKind) -> Seq<Node<N>> {
    if q.len() % 2 == 1 {
        paired(q, op).push(q.last())
    } else {
        paired(q, op)
    }
}

/// The tree that joining `q` level by level leaves.
pub open spec fn balanced_tree<N>(q: Seq<Node<N>>, op: BinaryOperationKind) -> Node<N>
    decreases q.len(),
{
    if q.len() <= 1 {
        q[0]
    } else {
        balanced_tree(next_level(q, op), op)
    }
}

pub open spec fn is_chain_op(op: BinaryOperationKind) -> bool {
    op == BinaryOperationKind::Plus || op == BinaryOperationKind::Multiply
}

/// The operands weigh one less per operator than the chain.
pub proof fn lemma_operands_weight<N>(n: Node<N>, op: BinaryOperationKind)
    requires
        is_chain_op(op),
    ensures
        chain_operands(n, op).len() >= 1,
        (n matches Node::Binary(o, _, _) && o == op) ==> chain_operands(n, op).len() >= 2,
        weights(chain_operands(n, op)) + chain_operands(n, op).len() == weight(n) + 1,
    decreases n,
{
    match n {
        Node::Binary(o, l, r) => {
            if o == op {
                lemma_operands_weight(*l, op);
                lemma_operands_weight(*r, op);
                lemma_weights_concat(chain_operands(*l, op), chain_operands(*r, op));
            } else {
                lemma_weights_single(n);
            }
        },
        _ => {
            lemma_weights_single(n);
        },
    }
}

proof fn lemma_weights_single<N>(n: Node<N>)
    ensures
        weights(seq![n]) == weight(n),
{
    assert(seq![n].drop_last() =~= Seq::<Node<N>>::empty());
    assert(weights(Seq::<Node<N>>::empty()) == 0);
}

proof fn lemma_weights_concat<N>(a: Seq<Node<N>>, b: Seq<Node<N>>)
    ensures
        weights(a + b) == weights(a) + weights(b),
    decreases b.len(),
{
    if b.len() == 0 {
        assert(a + b =~= a);
    } else {
        lemma_weights_concat(a, b.drop_last());
        assert((a + b).drop_last() =~= a + b.drop_last());
    }
}

/// The tree with every chain of `+` and `*` rebuilt at least height.
pub open spec fn balanced<N>(n: Node<N>) -> Node<N>
    decreases weight(n), 0int,
{
    match n {
        Node::Unary(op, e) => Node::Unary(op, Box::new(balanced(*e))),
        Node::Binary(op, l, r) => if is_chain_op(op) {
            proof {
                lemma_operands_weight(n, op);
            }
            balanced_tree(balanced_all(chain_operands(n, op)), op)
        } else {
            Node::Binary(op, Box::new(balanced(*l)), Box::new(balanced(*r)))
        },
        Node::Call(name, args) => Node::Call(name, balanced_all(args)),
        Node::Access(name, idx) => Node::Access(name, balanced_all(idx)),
        _ => n,
    }
}

/// Each tree of `s` rebalanced.
pub open spec fn balanced_all<N>(s: Seq<Node<N>>) -> Seq<Node<N>>
    decreases weights(s), 1int,
{
    if s.len() == 0 {
        Seq::empty()
    } else {
        proof {
            lemma_weight_positive(s.last());
        }
        balanced_all(s.drop_last()).push(balanced(s.last()))
    }
}

pub proof fn lemma_balanced_all_len<N>(s: Seq<Node<N>>)
    ensures
        balanced_all(s).len() == s.len(),
    decreases s.len(),
{
    if s.len() > 0 {
        lemma_balanced_all_len(s.drop_last());
    }
}


/// The operands of each tree of `q` in turn.
pub open spec fn flat<N>(q: Seq<Node<N>>, op: BinaryOperationKind) -> Seq<Node<N>>
    decreases q.len(),
{
    if q.len() == 0 {
        Seq::empty()
    } else {
        flat(q.drop_last(), op) + chain_operands(q.last(), op)
    }
}

proof fn lemma_flat_paired<N>(q: Seq<Node<N>>, op: BinaryOperationKind, m: int)
    requires
        0 <= m <= q.len() / 2,
    ensures
        flat(paired(q, op).take(m), op) == flat(q.take(2 * m), op),
    decreases m,
{
    if m == 0 {
        assert(paired(q, op).take(0) =~= Seq::<Node<N>>::empty());
        assert(q.take(0) =~= Seq::<Node<N>>::empty());
    } else {
        lemma_flat_paired(q, op, m - 1);
        let p = paired(q, op);
        assert(p.take(m).drop_last() =~= p.take(m - 1));
        assert(q.take(2 * m).drop_last() =~= q.take(2 * m - 1));
        assert(q.take(2 * m - 1).drop_last() =~= q.take(2 * m - 2));
        assert(p[m - 1] == Node::Binary(op, Box::new(q[2 * m - 2]), Box::new(q[2 * m - 1])));
        assert(flat(q.take(2 * m), op) == flat(q.take(2 * m - 1), op) + chain_operands(q[2 * m - 1], op));
        assert(flat(q.take(2 * m - 1), op) == flat(q.take(2 * m - 2), op) + chain_operands(q[2 * m - 2], op));
        assert(flat(q.take(2 * m), op) =~= flat(q.take(2 * m - 2), op) + chain_operands(q[2 * m - 2], op)
            + chain_operands(q[2 * m - 1], op));
        assert(flat(p.take(m), op) =~= flat(p.take(m - 1), op) + (chain_operands(q[2 * m - 2], op)
            + chain_operands(q[2 * m - 1], op)));
    }
}

proof fn lemma_flat_next_level<N>(q: Seq<Node<N>>, op: BinaryOperationKind)
    requires
        q.len() >= 2,
    ensures
        flat(next_level(q, op), op) == flat(q, op),
{
    let half: int = q.len() as int / 2;
    lemma_flat_paired(q, op, half);
    assert(paired(q, op).take(half) =~= paired(q, op));
    if q.len() % 2 == 0 {
        assert(q.take(2 * half) =~= q);
    } else {
        assert(q.take(2 * half) =~= q.drop_last());
        assert(paired(q, op).push(q.last()).drop_last() =~= paired(q, op));
    }
}

proof fn lemma_balanced_tree_operands<N>(q: Seq<Node<N>>, op: BinaryOperationKind)
    requires
        q.len() >= 1,
    ensures
        chain_operands(balanced_tree(q, op), op) == flat(q, op),
    decreases q.len(),
{
    if q.len() == 1 {
        assert(q.drop_last() =~= Seq::<Node<N>>::empty());
        assert(flat(q.drop_last(), op) == Seq::<Node<N>>::empty());
        assert(flat(q, op) =~= chain_operands(q[0], op));
    } else {
        lemma_flat_next_level(q, op);
        lemma_balanced_tree_operands(next_level(q, op), op);
    }
}

proof fn lemma_flat_of_operands<N>(q: Seq<Node<N>>, op: BinaryOperationKind)
    requires
        forall|k: int| 0 <= k < q.len() ==> !(#[trigger] q[k] matches Node::Binary(o, _, _) && o == op),
    ensures
        flat(q, op) == q,
    decreases q.len(),
{
    if q.len() > 0 {
        lemma_flat_of_operands(q.drop_last(), op);
        assert(chain_operands(q.last(), op) =~= seq![q.last()]);
        assert(q.drop_last() + seq![q.last()] =~= q);
    }
}

/// Rebuilding keeps the operands and their order: gathering the operands of
/// the rebuilt chain gives back the operands it was built from, provided
/// none of them is itself a node of the same operation.
pub proof fn law_balancing_keeps_operands<N>(ops: Seq<Node<N>>, op: BinaryOperationKind)
    requires
        ops.len() >= 1,
        forall|k: int| 0 <= k < ops.len() ==> !(#[trigger] ops[k] matches Node::Binary(o, _, _) && o == op),
    ensures
        chain_operands(balanced_tree(ops, op), op) == ops,
{
    lemma_balanced_tree_operands(ops, op);
    lemma_flat_of_operands(ops, op);
}

/// How many operation levels a tree has: none for a leaf, and one more than
/// the highest operand for an operator, a call or an access.
pub open spec fn height<N>(n: Node<N>) -> nat
    decreases n,
{
    match n {
        Node::Unary(_, e) => 1 + height(*e),
        Node::Binary(_, l, r) => 1 + if height(*l) >= height(*r) {
            height(*l)
        } else {
            height(*r)
        },
        Node::Call(_, args) => 1 + max_height(args),
        Node::Access(_, idx) => 1 + max_height(idx),
        _ => 0,
    }
}

/// The height of the highest tree of `s`, 0 for none.
pub open spec fn max_height<N>(s: Seq<Node<N>>) -> nat
    decreases s,
{
    if s.len() == 0 {
        0
    } else if max_height(s.drop_last()) >= height(s.last()) {
        max_height(s.drop_last())
    } else {
        height(s.last())
    }
}

/// Joining level by level gives a tree of least height: from at most `2^k`
/// trees, none higher than `h`, it builds a tree at most `h + k` high.
pub proof fn law_balanced_height<N>(q: Seq<Node<N>>, op: BinaryOperationKind, h: nat, k: nat)
    requires
        1 <= q.len() <= pow2(k),
        forall|i: int| 0 <= i < q.len() ==> height(#[trigger] q[i]) <= h,
    ensures
        height(balanced_tree(q, op)) <= h + k,
    decreases k,
{
    if q.len() > 1 {
        lemma2_to64();
        assert(k > 0);
        lemma_pow2_unfold(k);
        let nq = next_level(q, op);
        assert(nq.len() <= pow2((k - 1) as nat));
        assert forall|i: int| 0 <= i < nq.len() implies height(#[trigger] nq[i]) <= h + 1 by {
            if i < q.len() / 2 {
                assert(nq[i] == paired(q, op)[i]);
                assert(height(q[2 * i]) <= h);
                assert(height(q[2 * i + 1]) <= h);
            } else {
                assert(nq[i] == q.last());
                assert(height(q[q.len() - 1]) <= h);
            }
        }
        law_balanced_height(nq, op, h + 1, (k - 1) as nat);
    }
}

proof fn lemma_pair_step<N>(q: Seq<Node<N>>, op: BinaryOperationKind, k: int, before: Seq<AstNode<N>>, new_node: AstNode<N>)
    requires
        0 <= k,
        2 * k + 1 < q.len(),
        views(before) == q.skip(2 * k) + paired(q, op).take(k),
        new_node.view_node() == Node::Binary(op, Box::new(before[0].view_node()), Box::new(before[1].view_node())),
    ensures
        views(before.subrange(2, before.len() as int).push(new_node)) == q.skip(2 * k + 2) + paired(q, op).take(k + 1),
{
    lemma_views_map(before);
    let after = before.subrange(2, before.len() as int).push(new_node);
    lemma_views_map(after);
    assert(views(before).len() == q.len() - 2 * k + k);
    let v = views(before);
    let r = q.skip(2 * k + 2) + paired(q, op).take(k + 1);
    let len = q.len() - k - 1;
    assert(before[0].view_node() == v[0]);
    assert(before[1].view_node() == v[1]);
    assert(v[0] == q[2 * k]);
    assert(v[1] == q[2 * k + 1]);
    assert(views(after).len() == len);
    assert(r.len() == len);
    assert forall|i: int| 0 <= i < len implies views(after)[i] == r[i] by {
        if i < len - 1 {
            assert(after[i] == before[i + 2]);
            assert(views(after)[i] == v[i + 2]);
            if i < q.len() - 2 * k - 2 {
                assert(r[i] == q[2 * k + 2 + i]);
            } else {
                assert(r[i] == paired(q, op)[i - (q.len() - 2 * k - 2)]);
                assert(v[i + 2] == paired(q, op).take(k)[i + 2 - (q.len() - 2 * k)]);
            }
        } else {
            assert(after[i] == new_node);
            assert(r[i] == paired(q, op)[k]);
        }
    }
    assert(views(after) =~= r);
}

proof fn lemma_level_end<N>(q: Seq<Node<N>>, op: BinaryOperationKind, before: Seq<AstNode<N>>)
    requires
        q.len() >= 2,
        views(before) == q.skip(2 * (q.len() as int / 2)) + paired(q, op).take(q.len() as int / 2),
    ensures
        q.len() % 2 == 0 ==> views(before) == next_level(q, op),
        q.len() % 2 == 1 ==> before.len() >= 1 && views(before.subrange(1, before.len() as int).push(before[0])) == next_level(q, op),
{
    lemma_views_map(before);
    assert(paired(q, op).take(q.len() as int / 2) =~= paired(q, op));
    if q.len() % 2 == 0 {
        assert(q.skip(2 * (q.len() as int / 2)) =~= Seq::<Node<N>>::empty());
        assert(views(before) =~= next_level(q, op));
    } else {
        assert(q.skip(2 * (q.len() as int / 2)) =~= seq![q.last()]);
        let after = before.subrange(1, before.len() as int).push(before[0]);
        lemma_views_map(after);
        let v = views(before);
        let half = q.len() / 2;
        assert(v.len() == half + 1);
        assert(before[0].view_node() == v[0]);
        assert(v[0] == q.last());
        assert forall|i: int| 0 <= i < half + 1 implies views(after)[i] == next_level(q, op)[i] by {
            if i < half {
                assert(after[i] == before[i + 1]);
                assert(views(after)[i] == v[i + 1]);
                assert(v[i + 1] == paired(q, op)[i]);
            } else {
                assert(after[i] == before[0]);
            }
        }
        assert(views(after) =~= next_level(q, op));
    }
}

impl<N> AbstractSyntaxTree<N> {
    /// The tree rebalanced (see [`balanced`]); this never fails.
    pub fn balance(self) -> (r: Result<Self, AstError<N>>)
        ensures
            r is Ok,
            r->Ok_0.peek.view_node() == balanced(self.peek.view_node()),
    {
        let peek = match Self::balance_tree(self.peek) {
            Ok(n) => n,
            Err(e) => return Err(e),
        };
        Ok(Self::from_node(peek))
    }

    /// `node` rebalanced (see [`balanced`]); this never fails.
    pub fn balance_tree(node: AstNode<N>) -> (r: Result<AstNode<N>, AstError<N>>)
        ensures
            r is Ok,
            r->Ok_0.view_node() == balanced(node.view_node()),
        decreases weight(node.view_node()), 0int,
    {
        match node {
            AstNode::Number(v) => Ok(AstNode::Number(v)),
            AstNode::Identifier(s) => Ok(AstNode::Identifier(s)),
            AstNode::StringLiteral(s) => Ok(AstNode::StringLiteral(s)),
            AstNode::UnaryOperation { operation, expression } => {
                let balanced_expression = match Self::balance_tree(*expression) {
                    Ok(n) => n,
                    Err(e) => return Err(e),
                };
                Ok(AstNode::UnaryOperation { operation, expression: Box::new(balanced_expression) })
            },
            AstNode::FunctionCall { name, arguments } => {
                let balanced_arguments = match Self::balance_each(arguments) {
                    Ok(v) => v,
                    Err(e) => return Err(e),
                };
                Ok(AstNode::FunctionCall { name, arguments: balanced_arguments })
            },
            AstNode::ArrayAccess { identifier, indices } => {
                let balanced_indices = match Self::balance_each(indices) {
                    Ok(v) => v,
                    Err(e) => return Err(e),
                };
                Ok(AstNode::ArrayAccess { identifier, indices: balanced_indices })
            },
            AstNode::BinaryOperation { operation, left, right } => {
                if operation == BinaryOperationKind::Plus || operation == BinaryOperationKind::Multiply {
                    let chain = AstNode::BinaryOperation { operation, left, right };
                    let ghost n = chain.view_node();
                    proof {
                        lemma_operands_weight(n, operation);
                    }
                    let mut operands: Vec<AstNode<N>> = Vec::new();
                    proof {
                        assert(views(operands@) =~= Seq::<Node<N>>::empty());
                    }
                    Self::collect_operands(chain, operation, &mut operands);
                    assert(views(operands@) =~= chain_operands(n, operation));
                    let balanced_operands = match Self::balance_each(operands) {
                        Ok(v) => v,
                        Err(e) => return Err(e),
                    };
                    proof {
                        lemma_balanced_all_len(chain_operands(n, operation));
                        lemma_views_len(balanced_operands@);
                    }
                    Self::build_balanced_tree(balanced_operands, operation)
                } else {
                    let balanced_left = match Self::balance_tree(*left) {
                        Ok(n) => n,
                        Err(e) => return Err(e),
                    };
                    let balanced_right = match Self::balance_tree(*right) {
                        Ok(n) => n,
                        Err(e) => return Err(e),
                    };
                    Ok(AstNode::BinaryOperation {
                        operation,
                        left: Box::new(balanced_left),
                        right: Box::new(balanced_right),
                    })
                }
            },
        }
    }

    /// Each of `items` rebalanced, in order.
    fn balance_each(items: Vec<AstNode<N>>) -> (r: Result<Vec<AstNode<N>>, AstError<N>>)
        ensures
            r is Ok,
            views(r->Ok_0@) == balanced_all(views(items@)),
        decreases weights(views(items@)), 1int,
    {
        let ghost all = items@;
        let mut rest = items;
        let mut out: Vec<AstNode<N>> = Vec::new();
        proof {
            assert(all.take(0) =~= Seq::<AstNode<N>>::empty());
            assert(views(out@) =~= Seq::<Node<N>>::empty());
        }
        while rest.len() > 0
            invariant
                all == items@,
                0 <= all.len() - rest.len() <= all.len(),
                rest@ == all.skip(all.len() - rest.len()),
                views(out@) == balanced_all(views(all.take(all.len() - rest.len()))),
            decreases rest.len(),
        {
            let ghost k = all.len() - rest.len();
            let item = rest.remove(0);
            assert(item == all[k]);
            proof {
                lemma_views_len(all);
                lemma_views_index(all, k);
                lemma_weights_index(views(all), k);
            }
            let b = match Self::balance_tree(item) {
                Ok(n) => n,
                Err(e) => return Err(e),
            };
            proof {
                lemma_views_take(all, k);
                lemma_views_push(out@, b);
                let before = views(all.take(k));
                assert(before.push(all[k].view_node()).drop_last() =~= before);
                assert(rest@ =~= all.skip(k + 1));
            }
            out.push(b);
        }
        proof {
            assert(all.take(all.len() as int) =~= all);
        }
        Ok(out)
    }

    /// Appends to `operands` the operands of the chain of `op_kind` at `node`,
    /// left to right.
    pub fn collect_operands(node: AstNode<N>, op_kind: BinaryOperationKind, operands: &mut Vec<AstNode<N>>)
        ensures
            views(final(operands)@) == views(old(operands)@) + chain_operands(node.view_node(), op_kind),
        decreases node,
    {
        match node {
            AstNode::BinaryOperation { operation, left, right } => {
                if operation == op_kind {
                    Self::collect_operands(*left, op_kind, operands);
                    Self::collect_operands(*right, op_kind, operands);
                    assert(views(old(operands)@) + chain_operands(left.view_node(), op_kind) + chain_operands(right.view_node(), op_kind)
                        =~= views(old(operands)@) + (chain_operands(left.view_node(), op_kind) + chain_operands(right.view_node(), op_kind)));
                } else {
                    let n = AstNode::BinaryOperation { operation, left, right };
                    proof {
                        lemma_views_push(operands@, n);
                    }
                    operands.push(n);
                    assert(views(old(operands)@).push(n.view_node()) =~= views(old(operands)@) + seq![n.view_node()]);
                }
            },
            other => {
                proof {
                    lemma_views_push(operands@, other);
                }
                let ghost v = other.view_node();
                operands.push(other);
                assert(views(old(operands)@).push(v) =~= views(old(operands)@) + seq![v]);
            },
        }
    }

    /// Joins `operands` by `op_kind` pairwise, level by level, through a
    /// queue; the odd one out of a level moves to the back.
    pub fn build_balanced_tree(operands: Vec<AstNode<N>>, op_kind: BinaryOperationKind) -> (r: Result<AstNode<N>, AstError<N>>)
        ensures
            operands.len() == 0 ==> r is Err && r->Err_0.error_view() == AstErrorView::<N>::CannotBuildEmptyTree,
            operands.len() > 0 ==> r is Ok && r->Ok_0.view_node() == balanced_tree(views(operands@), op_kind),
    {
        if operands.len() == 0 {
            return Err(AstError::CannotBuildEmptyTree);
        }
        let ghost all = operands@;
        let mut rest = operands;
        let mut queue: VecDeque<AstNode<N>> = VecDeque::new();
        while rest.len() > 0
            invariant
                queue@ + rest@ == all,
            decreases rest.len(),
        {
            let item = rest.remove(0);
            queue.push_back(item);
            assert(queue@ + rest@ =~= all);
        }
        assert(queue@ =~= all);
        while queue.len() > 1
            invariant
                queue@.len() >= 1,
                all.len() >= 1,
                balanced_tree(views(all), op_kind) == balanced_tree(views(queue@), op_kind),
            decreases queue.len(),
        {
            let level_size = queue.len();
            let ghost q = views(queue@);
            proof {
                lemma_views_map(queue@);
            }
            let mut k: usize = 0;
            proof {
                lemma_views_len(queue@);
                assert(q.skip(0) =~= q);
                assert(paired(q, op_kind).take(0) =~= Seq::<Node<N>>::empty());
                assert(views(queue@) =~= q.skip(0) + paired(q, op_kind).take(0));
            }
            while k < level_size / 2
                invariant
                    q.len() == level_size,
                    level_size >= 2,
                    k <= level_size / 2,
                    queue@.len() == level_size - k,
                    views(queue@) == q.skip(2 * k) + paired(q, op_kind).take(k as int),
                decreases level_size / 2 - k,
            {
                let ghost before = queue@;
                let left = match queue.pop_front() {
                    Some(x) => x,
                    None => return Err(AstError::FailedPopFromQueue),
                };
                let right = match queue.pop_front() {
                    Some(x) => x,
                    None => return Err(AstError::FailedPopFromQueue),
                };
                let new_node = AstNode::BinaryOperation { operation: op_kind, left: Box::new(left), right: Box::new(right) };
                proof {
                    assert(queue@ =~= before.subrange(2, before.len() as int));
                    lemma_pair_step(q, op_kind, k as int, before, new_node);
                }
                queue.push_back(new_node);
                k += 1;
            }
            let ghost before = queue@;
            proof {
                lemma_level_end(q, op_kind, before);
            }
            if level_size % 2 != 0 {
                let odd_one_out = match queue.pop_front() {
                    Some(x) => x,
                    None => return Err(AstError::FailedPopFromQueue),
                };
                queue.push_back(odd_one_out);
                assert(queue@ =~= before.subrange(1, before.len() as int).push(before[0]));
            }
            proof {
                lemma_views_len(queue@);
                lemma_views_len(before);
            }
        }
        let ghost last = queue@;
        proof {
            lemma_views_map(last);
        }
        match queue.pop_front() {
            Some(x) => Ok(x),
            None => Err(AstError::FailedPopFromQueue),
        }
    }
}

} // verus!
