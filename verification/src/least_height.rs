//! Balancing reaches every part of a tree: wherever a chain of `+` or `*`
//! stands, under a negation, inside a call or as the operand of another
//! operation, each of its nodes is of least height for the operands it
//! joins.
use vstd::prelude::*;
use vstd::arithmetic::power2::{pow2, lemma_pow2_unfold};
use crate::ast::Node;
use crate::operations::BinaryOperationKind;
use crate::balancer::{
    balanced, balanced_all, balanced_tree, chain_operands, paired, next_level, is_chain_op, lemma_operands_weight,
    lemma_balanced_all_len,
};
use crate::transform::{weight, weights, lemma_weight_positive};

verus! {

/// How many `op` nodes the longest path from the root of `n` down through
/// `op` nodes passes: 0 where the root is not an `op` node.
pub open spec fn chain_depth<N>(n: Node<N>, op: BinaryOperationKind) -> nat
    decreases n,
{
    match n {
        Node::Binary(o, l, r) => if o == op {
            let a = chain_depth(*l, op);
            let b = chain_depth(*r, op);
            1 + if a >= b {
                a
            } else {
                b
            }
        } else {
            0
        },
        _ => 0,
    }
}

/// The chain of `op` rooted at `n` is of least height: `k` operands joined
/// `d` levels deep need `d` levels, that is `2^(d-1) < k`.
pub open spec fn least_chain<N>(n: Node<N>, op: BinaryOperationKind) -> bool {
    chain_depth(n, op) == 0 || pow2((chain_depth(n, op) - 1) as nat) < chain_operands(n, op).len()
}

/// Every `+` and `*` node of `n`, at any depth, roots a chain of least
/// height.
pub open spec fn well_balanced<N>(n: Node<N>) -> bool
    decreases n,
{
    match n {
        Node::Unary(_, e) => well_balanced(*e),
        Node::Binary(o, l, r) => (is_chain_op(o) ==> least_chain(n, o)) && well_balanced(*l) && well_balanced(*r),
        Node::Call(_, args) => all_well_balanced(args),
        Node::Access(_, idx) => all_well_balanced(idx),
        _ => true,
    }
}

/// Every tree of `s` is well balanced.
pub open spec fn all_well_balanced<N>(s: Seq<Node<N>>) -> bool
    decreases s,
{
    if s.len() == 0 {
        true
    } else {
        all_well_balanced(s.drop_last()) && well_balanced(s.last())
    }
}

proof fn lemma_all_well_index<N>(s: Seq<Node<N>>, i: int)
    requires
        all_well_balanced(s),
        0 <= i < s.len(),
    ensures
        well_balanced(s[i]),
    decreases s.len(),
{
    if i < s.len() - 1 {
        lemma_all_well_index(s.drop_last(), i);
    }
}

proof fn lemma_balanced_all_index<N>(s: Seq<Node<N>>, i: int)
    requires
        0 <= i < s.len(),
    ensures
        balanced_all(s)[i] == balanced(s[i]),
    decreases s.len(),
{
    lemma_balanced_all_len(s.drop_last());
    if i < s.len() - 1 {
        lemma_balanced_all_index(s.drop_last(), i);
    }
}

/// The operands of a chain are not themselves nodes of the chain's operation.
proof fn lemma_operands_not_chained<N>(n: Node<N>, op: BinaryOperationKind, i: int)
    requires
        0 <= i < chain_operands(n, op).len(),
    ensures
        !(chain_operands(n, op)[i] matches Node::Binary(o, _, _) && o == op),
    decreases n,
{
    if let Node::Binary(o, l, r) = n {
        if o == op {
            let a = chain_operands(*l, op);
            if i < a.len() {
                lemma_operands_not_chained(*l, op, i);
                assert(chain_operands(n, op)[i] == a[i]);
            } else {
                lemma_operands_not_chained(*r, op, i - a.len());
                assert(chain_operands(n, op)[i] == chain_operands(*r, op)[i - a.len()]);
            }
        }
    }
}

/// Joining two or more trees gives a node of the operation.
proof fn lemma_balanced_tree_root<N>(q: Seq<Node<N>>, op: BinaryOperationKind)
    requires
        q.len() >= 2,
    ensures
        balanced_tree(q, op) matches Node::Binary(o, _, _) && o == op,
    decreases q.len(),
{
    let nq = next_level(q, op);
    assert(balanced_tree(q, op) == balanced_tree(nq, op));
    assert(nq.len() >= 1);
    if nq.len() >= 2 {
        lemma_balanced_tree_root(nq, op);
    } else {
        assert(q.len() == 2);
        assert(nq[0] == paired(q, op)[0]);
        assert(balanced_tree(nq, op) == nq[0]);
    }
}

/// Balancing never makes a node of a chain operation out of a tree whose
/// root is not one.
proof fn lemma_balanced_root<N>(n: Node<N>, op: BinaryOperationKind)
    requires
        !(n matches Node::Binary(o, _, _) && o == op),
    ensures
        !(balanced(n) matches Node::Binary(o, _, _) && o == op),
{
    if let Node::Binary(o, l, r) = n {
        if is_chain_op(o) {
            lemma_operands_weight(n, o);
            lemma_balanced_all_len(chain_operands(n, o));
            lemma_balanced_tree_root(balanced_all(chain_operands(n, o)), o);
        }
    }
}

/// A node of level `lv` of the joining: `2^lv` operands, `lv` deep.
pub open spec fn full<N>(t: Node<N>, op: BinaryOperationKind, lv: nat) -> bool {
    &&& chain_depth(t, op) == lv
    &&& chain_operands(t, op).len() == pow2(lv)
    &&& well_balanced(t)
}

/// What joining looks like at level `lv`: every tree full but the last,
/// which is well balanced and no deeper than `lv`.
pub open spec fn level_shape<N>(q: Seq<Node<N>>, op: BinaryOperationKind, lv: nat) -> bool {
    &&& q.len() >= 1
    &&& forall|i: int| 0 <= i < q.len() - 1 ==> full(#[trigger] q[i], op, lv)
    &&& well_balanced(q.last())
    &&& chain_depth(q.last(), op) <= lv
}

proof fn lemma_join<N>(a: Node<N>, b: Node<N>, op: BinaryOperationKind, lv: nat)
    requires
        is_chain_op(op),
        full(a, op, lv),
        well_balanced(b),
        chain_depth(b, op) <= lv,
    ensures
        ({
            let t = Node::Binary(op, Box::new(a), Box::new(b));
            &&& well_balanced(t)
            &&& chain_depth(t, op) == lv + 1
            &&& full(b, op, lv) ==> full(t, op, lv + 1)
        }),
{
    let t = Node::Binary(op, Box::new(a), Box::new(b));
    lemma_operands_weight(b, op);
    assert(chain_operands(t, op) == chain_operands(a, op) + chain_operands(b, op));
    assert(chain_depth(t, op) == lv + 1);
    lemma_pow2_unfold(lv + 1);
}

proof fn lemma_level_shape<N>(q: Seq<Node<N>>, op: BinaryOperationKind, lv: nat)
    requires
        is_chain_op(op),
        q.len() >= 2,
        level_shape(q, op, lv),
    ensures
        level_shape(next_level(q, op), op, lv + 1),
{
    let p = paired(q, op);
    let nq = next_level(q, op);
    let half = q.len() as int / 2;
    assert forall|i: int| 0 <= i < half implies #[trigger] well_balanced(p[i]) && chain_depth(p[i], op) == lv + 1
        && (2 * i + 1 < q.len() - 1 ==> full(p[i], op, lv + 1)) by {
        assert(full(q[2 * i], op, lv));
        if 2 * i + 1 < q.len() - 1 {
            assert(full(q[2 * i + 1], op, lv));
        } else {
            assert(q[2 * i + 1] == q.last());
        }
        lemma_join(q[2 * i], q[2 * i + 1], op, lv);
    }
    if q.len() % 2 == 1 {
        assert(nq.last() == q.last());
        assert forall|i: int| 0 <= i < nq.len() - 1 implies full(#[trigger] nq[i], op, lv + 1) by {
            assert(nq[i] == p[i]);
            assert(2 * i + 1 < q.len() - 1);
            assert(well_balanced(p[i]));
        }
    } else {
        assert(nq == p);
        assert(nq.last() == p[half - 1]);
        assert forall|i: int| 0 <= i < nq.len() - 1 implies full(#[trigger] nq[i], op, lv + 1) by {
            assert(2 * i + 1 < q.len() - 1);
            assert(well_balanced(p[i]));
        }
        assert(well_balanced(p[half - 1]));
    }
}

proof fn lemma_tree_well<N>(q: Seq<Node<N>>, op: BinaryOperationKind, lv: nat)
    requires
        is_chain_op(op),
        level_shape(q, op, lv),
    ensures
        well_balanced(balanced_tree(q, op)),
    decreases q.len(),
{
    if q.len() >= 2 {
        lemma_level_shape(q, op, lv);
        lemma_tree_well(next_level(q, op), op, lv + 1);
    } else {
        assert(q[0] == q.last());
    }
}

/// Balancing leaves every chain of `+` and `*` of least height, wherever it
/// stands in the tree: under a negation or a `!`, as an operand of `-`, `/`
/// or a logical operation, inside a call or an index, and at each node of
/// the chain itself.
pub proof fn law_balanced_everywhere<N>(n: Node<N>)
    ensures
        well_balanced(balanced(n)),
    decreases weight(n), 0int,
{
    match n {
        Node::Unary(op, e) => {
            law_balanced_everywhere(*e);
        },
        Node::Binary(op, l, r) => {
            if is_chain_op(op) {
                lemma_operands_weight(n, op);
                let ops = chain_operands(n, op);
                lemma_balance_all_well(ops);
                lemma_balanced_all_len(ops);
                let bs = balanced_all(ops);
                assert forall|i: int| 0 <= i < bs.len() implies full(#[trigger] bs[i], op, 0) by {
                    lemma_all_well_index(bs, i);
                    lemma_balanced_all_index(ops, i);
                    lemma_operands_not_chained(n, op, i);
                    lemma_balanced_root(ops[i], op);
                    assert(chain_operands(bs[i], op) =~= seq![bs[i]]);
                    assert(pow2(0) == 1) by {
                        vstd::arithmetic::power2::lemma2_to64();
                    }
                }
                assert(full(bs[bs.len() - 1], op, 0));
                assert(bs.last() == bs[bs.len() - 1]);
                lemma_tree_well(bs, op, 0);
            } else {
                law_balanced_everywhere(*l);
                law_balanced_everywhere(*r);
            }
        },
        Node::Call(name, args) => {
            lemma_balance_all_well(args);
        },
        Node::Access(name, idx) => {
            lemma_balance_all_well(idx);
        },
        _ => {},
    }
}

proof fn lemma_balance_all_well<N>(s: Seq<Node<N>>)
    ensures
        all_well_balanced(balanced_all(s)),
    decreases weights(s), 1int,
{
    if s.len() > 0 {
        lemma_weight_positive(s.last());
        lemma_balance_all_well(s.drop_last());
        law_balanced_everywhere(s.last());
        let b = balanced_all(s);
        assert(b.drop_last() =~= balanced_all(s.drop_last()));
    }
}

} // verus!
