//! What a tree evaluates to, and the laws that every rewriting of the
//! compiler keeps that value. Sums, differences, products and negations are
//! computed on integers; names, numbers, strings, division, the logical
//! operations, calls and indexing take their values from a model, so that
//! the laws hold whatever these mean.
use vstd::prelude::*;
use vstd::arithmetic::mul::{
    lemma_mul_is_distributive_add, lemma_mul_is_distributive_add_other_way, lemma_mul_is_distributive_sub,
    lemma_mul_is_distributive_sub_other_way, lemma_mul_is_commutative, lemma_mul_unary_negation, lemma_mul_is_associative,
};
use crate::ast::Node;
use crate::laws::{expanded, expanded_left, expanded_at, subtree_at, replaced_at, single_step_expansions, expandable_paths};
use crate::equivalent::{Search, absorb, expansion_search, factoring_search, equivalent_forms, lemma_absorb_growth};
use crate::transform::{transformed, transformed_all, weight, weights, left_chain, left_tree, lemma_chain_weight, lemma_transformed_all_len};
use crate::balancer::{balanced, balanced_all, balanced_tree, chain_operands, paired, next_level, is_chain_op, lemma_operands_weight, lemma_balanced_all_len};
use crate::folding::{folded, folded_all, folded_binary, negative_text, negated_text, unit_text};
use crate::operations::{BinaryOperationKind, UnaryOperationKind};
use crate::associative::{
    terms, joined, signed_paired, signed_level, signed_tree, settled, term_nodes, term_signs, factors, remainder, group,
    group_terms, marked, grouped, factor_step, factor_run, factored, factorings_along, factorable_paths,
    single_step_factorings, lemma_terms_nonempty,
};

verus! {

/// The meaning of what a tree does not compute itself.
#[verifier::reject_recursive_types(N)]
pub struct Model<N> {
    pub var: spec_fn(Seq<char>) -> int,
    pub num: spec_fn(N) -> int,
    pub text: spec_fn(Seq<char>) -> int,
    pub div: spec_fn(int, int) -> int,
    pub and: spec_fn(int, int) -> int,
    pub or: spec_fn(int, int) -> int,
    pub not: spec_fn(int) -> int,
    pub call: spec_fn(Seq<char>, Seq<int>) -> int,
    pub access: spec_fn(Seq<char>, Seq<int>) -> int,
}

/// The value of a tree in model `m`.
pub open spec fn value<N>(n: Node<N>, m: Model<N>) -> int
    decreases n,
{
    match n {
        Node::Number(v) => (m.num)(v),
        Node::Identifier(s) => (m.var)(s),
        Node::StringLiteral(s) => (m.text)(s),
        Node::Unary(UnaryOperationKind::Minus, e) => -value(*e, m),
        Node::Unary(UnaryOperationKind::Not, e) => (m.not)(value(*e, m)),
        Node::Binary(op, l, r) => {
            let a = value(*l, m);
            let b = value(*r, m);
            match op {
                BinaryOperationKind::Plus => a + b,
                BinaryOperationKind::Minus => a - b,
                BinaryOperationKind::Multiply => a * b,
                BinaryOperationKind::Divide => (m.div)(a, b),
                BinaryOperationKind::And => (m.and)(a, b),
                BinaryOperationKind::Or => (m.or)(a, b),
            }
        },
        Node::Call(name, args) => (m.call)(name, values(args, m)),
        Node::Access(name, idx) => (m.access)(name, values(idx, m)),
    }
}

/// The values of the trees of `s`.
pub open spec fn values<N>(s: Seq<Node<N>>, m: Model<N>) -> Seq<int>
    decreases s,
{
    if s.len() == 0 {
        Seq::empty()
    } else {
        values(s.drop_last(), m).push(value(s.last(), m))
    }
}

/// Replacing a subtree by one of the same value keeps the value of the tree.
pub proof fn lemma_replaced_value<N>(n: Node<N>, path: Seq<u8>, new: Node<N>, m: Model<N>)
    requires
        subtree_at(n, path) is Some,
        value(new, m) == value(subtree_at(n, path)->0, m),
    ensures
        value(replaced_at(n, path, new), m) == value(n, m),
    decreases path.len(),
{
    if path.len() > 0 {
        match n {
            Node::Binary(op, l, r) => {
                if path[0] == 0 {
                    lemma_replaced_value(*l, path.drop_first(), new, m);
                    assert(replaced_at(n, path, new) == Node::Binary(
                        op,
                        Box::new(replaced_at(*l, path.drop_first(), new)),
                        r,
                    ));
                } else {
                    lemma_replaced_value(*r, path.drop_first(), new, m);
                    assert(replaced_at(n, path, new) == Node::Binary(
                        op,
                        l,
                        Box::new(replaced_at(*r, path.drop_first(), new)),
                    ));
                }
            },
            Node::Unary(op, e) => {
                lemma_replaced_value(*e, path.drop_first(), new, m);
                assert(replaced_at(n, path, new) == Node::Unary(op, Box::new(replaced_at(*e, path.drop_first(), new))));
            },
            _ => {},
        }
    }
}

/// One distributive step keeps the value: `A * (B ± C)` and
/// `(A * B) ± (A * C)` are equal, and so are `(A ± B) * C` and
/// `(A * C) ± (B * C)`.
pub proof fn law_expansion_keeps_value<N>(n: Node<N>, m: Model<N>)
    ensures
        value(expanded(n), m) == value(n, m),
{
    if let Node::Binary(BinaryOperationKind::Multiply, a, r) = n {
        if let Node::Binary(op, b, c) = *r {
            if op == BinaryOperationKind::Plus || op == BinaryOperationKind::Minus {
                let (x, y, z) = (value(*a, m), value(*b, m), value(*c, m));
                lemma_mul_is_distributive_add(x, y, z);
                lemma_mul_is_distributive_sub(x, y, z);
                let ab = Node::Binary(BinaryOperationKind::Multiply, a, b);
                let ac = Node::Binary(BinaryOperationKind::Multiply, a, c);
                assert(value(ab, m) == x * y);
                assert(value(ac, m) == x * z);
                assert(value(*r, m) == if op == BinaryOperationKind::Plus { y + z } else { y - z });
                assert(value(n, m) == x * value(*r, m));
                assert(expanded(n) == Node::Binary(op, Box::new(ab), Box::new(ac)));
                assert(value(expanded(n), m) == if op == BinaryOperationKind::Plus {
                    x * y + x * z
                } else {
                    x * y - x * z
                });
                return;
            }
        }
        if let Node::Binary(op, a2, b2) = *a {
            if op == BinaryOperationKind::Plus || op == BinaryOperationKind::Minus {
                let (x, y, z) = (value(*a2, m), value(*b2, m), value(*r, m));
                lemma_mul_is_distributive_add_other_way(z, x, y);
                lemma_mul_is_distributive_sub_other_way(z, x, y);
                let ac = Node::Binary(BinaryOperationKind::Multiply, a2, r);
                let bc = Node::Binary(BinaryOperationKind::Multiply, b2, r);
                assert(value(ac, m) == x * z);
                assert(value(bc, m) == y * z);
                assert(value(*a, m) == if op == BinaryOperationKind::Plus { x + y } else { x - y });
                assert(value(n, m) == value(*a, m) * z);
                assert(expanded_left(n) == Node::Binary(op, Box::new(ac), Box::new(bc)));
                assert(value(expanded_left(n), m) == if op == BinaryOperationKind::Plus {
                    x * z + y * z
                } else {
                    x * z - y * z
                });
            }
        }
        assert(expanded(n) == expanded_left(n));
    }
}

/// Every tree one distributive step away has the value of the tree.
pub proof fn law_expansions_keep_value<N>(n: Node<N>, m: Model<N>)
    ensures
        forall|i: int|
            0 <= i < single_step_expansions(n).len() ==> value(#[trigger] single_step_expansions(n)[i], m) == value(n, m),
{
    assert forall|i: int| 0 <= i < single_step_expansions(n).len() implies value(
        #[trigger] single_step_expansions(n)[i],
        m,
    ) == value(n, m) by {
        let p = expandable_paths(n, Seq::empty())[i];
        assert(single_step_expansions(n)[i] == expanded_at(n, p));
        if let Some(t) = subtree_at(n, p) {
            law_expansion_keeps_value(t, m);
            lemma_replaced_value(n, p, expanded(t), m);
        }
    }
}

/// The value of a signed term.
pub open spec fn signed_value<N>(t: (bool, Node<N>), m: Model<N>) -> int {
    if t.0 {
        -value(t.1, m)
    } else {
        value(t.1, m)
    }
}

/// The sum of signed terms.
pub open spec fn signed_sum<N>(q: Seq<(bool, Node<N>)>, m: Model<N>) -> int
    decreases q.len(),
{
    if q.len() == 0 {
        0
    } else {
        signed_sum(q.drop_last(), m) + signed_value(q.last(), m)
    }
}

proof fn lemma_signed_sum_concat<N>(a: Seq<(bool, Node<N>)>, b: Seq<(bool, Node<N>)>, m: Model<N>)
    ensures
        signed_sum(a + b, m) == signed_sum(a, m) + signed_sum(b, m),
    decreases b.len(),
{
    if b.len() > 0 {
        lemma_signed_sum_concat(a, b.drop_last(), m);
        assert((a + b).drop_last() =~= a + b.drop_last());
    } else {
        assert(a + b =~= a);
    }
}

/// The signed terms of a tree add up to its value, negated when the chain
/// is subtracted.
proof fn lemma_terms_value<N>(n: Node<N>, neg: bool, m: Model<N>)
    ensures
        signed_sum(terms(n, neg), m) == if neg { -value(n, m) } else { value(n, m) },
    decreases n,
{
    match n {
        Node::Binary(BinaryOperationKind::Plus, l, r) => {
            lemma_terms_value(*l, neg, m);
            lemma_terms_value(*r, neg, m);
            lemma_signed_sum_concat(terms(*l, neg), terms(*r, neg), m);
            assert(terms(n, neg) == terms(*l, neg) + terms(*r, neg));
            assert(signed_sum(terms(n, neg), m) == signed_sum(terms(*l, neg), m) + signed_sum(terms(*r, neg), m));
            assert(value(n, m) == value(*l, m) + value(*r, m));
            if neg {
                assert(signed_sum(terms(n, neg), m) == -value(*l, m) + -value(*r, m));
            }
        },
        Node::Binary(BinaryOperationKind::Minus, l, r) => {
            lemma_terms_value(*l, neg, m);
            lemma_terms_value(*r, !neg, m);
            lemma_signed_sum_concat(terms(*l, neg), terms(*r, !neg), m);
            assert(terms(n, neg) == terms(*l, neg) + terms(*r, !neg));
            assert(value(n, m) == value(*l, m) - value(*r, m));
        },
        _ => {
            assert(terms(n, neg) == seq![(neg, n)]);
            assert(seq![(neg, n)].drop_last() =~= Seq::<(bool, Node<N>)>::empty());
            assert(signed_sum(Seq::<(bool, Node<N>)>::empty(), m) == 0);
            assert(signed_sum(seq![(neg, n)], m) == signed_value((neg, n), m));
        },
    }
}

proof fn lemma_paired_sum<N>(q: Seq<(bool, Node<N>)>, k: int, m: Model<N>)
    requires
        0 <= k <= q.len() / 2,
    ensures
        signed_sum(signed_paired(q).take(k), m) == signed_sum(q.take(2 * k), m),
    decreases k,
{
    if k > 0 {
        lemma_paired_sum(q, k - 1, m);
        let p = signed_paired(q);
        assert(p.take(k).drop_last() =~= p.take(k - 1));
        assert(q.take(2 * k).drop_last() =~= q.take(2 * k - 1));
        assert(q.take(2 * k - 1).drop_last() =~= q.take(2 * k - 2));
        let (a, b) = (q[2 * k - 2], q[2 * k - 1]);
        assert(p[k - 1] == joined(a, b));
        assert(signed_value(joined(a, b), m) == signed_value(a, m) + signed_value(b, m));
        assert(p.take(k).last() == p[k - 1]);
        assert(q.take(2 * k).last() == b);
        assert(q.take(2 * k - 1).last() == a);
        assert(signed_sum(p.take(k), m) == signed_sum(p.take(k - 1), m) + signed_value(p[k - 1], m));
        assert(signed_sum(q.take(2 * k), m) == signed_sum(q.take(2 * k - 1), m) + signed_value(b, m));
        assert(signed_sum(q.take(2 * k - 1), m) == signed_sum(q.take(2 * k - 2), m) + signed_value(a, m));
    } else {
        assert(signed_paired(q).take(0) =~= Seq::<(bool, Node<N>)>::empty());
        assert(q.take(0) =~= Seq::<(bool, Node<N>)>::empty());
    }
}

/// Joining signed terms level by level keeps their sum.
proof fn lemma_signed_tree_value<N>(q: Seq<(bool, Node<N>)>, m: Model<N>)
    requires
        q.len() >= 1,
    ensures
        signed_value(signed_tree(q), m) == signed_sum(q, m),
    decreases q.len(),
{
    if q.len() > 1 {
        let half = q.len() as int / 2;
        lemma_paired_sum(q, half, m);
        let p = signed_paired(q);
        assert(p.take(half) =~= p);
        if q.len() % 2 == 1 {
            assert(q.take(2 * half) =~= q.drop_last());
            assert(signed_level(q).drop_last() =~= p);
            assert(signed_level(q).last() == q.last());
            assert(signed_sum(signed_level(q), m) == signed_sum(p, m) + signed_value(q.last(), m));
            assert(signed_sum(q, m) == signed_sum(q.drop_last(), m) + signed_value(q.last(), m));
            assert(signed_sum(signed_level(q), m) == signed_sum(q, m));
        } else {
            assert(q.take(2 * half) =~= q);
            assert(signed_level(q) == p);
            assert(signed_sum(signed_level(q), m) == signed_sum(q, m));
        }
        lemma_signed_tree_value(signed_level(q), m);
        assert(signed_tree(q) == signed_tree(signed_level(q)));
    } else {
        assert(q.drop_last() =~= Seq::<(bool, Node<N>)>::empty());
        assert(signed_sum(q.drop_last(), m) == 0);
    }
}

/// The signed value of term `k`.
pub open spec fn term_value<N>(s: Seq<Node<N>>, signs: Seq<bool>, k: int, m: Model<N>) -> int {
    signed_value((signs[k], s[k]), m)
}

/// The sum of the values of the terms before `k` that are not taken.
pub open spec fn rest_sum<N>(s: Seq<Node<N>>, signs: Seq<bool>, taken: Seq<bool>, k: int, m: Model<N>) -> int
    decreases k,
{
    if k <= 0 {
        0
    } else {
        rest_sum(s, signs, taken, k - 1, m) + if taken[k - 1] {
            0
        } else {
            term_value(s, signs, k - 1, m)
        }
    }
}

/// The sum of the values of the terms of a group.
pub open spec fn group_sum<N>(s: Seq<Node<N>>, signs: Seq<bool>, g: Seq<int>, m: Model<N>) -> int
    decreases g.len(),
{
    if g.len() == 0 {
        0
    } else {
        group_sum(s, signs, g.drop_last(), m) + term_value(s, signs, g.last(), m)
    }
}

/// A term joins the group exactly when it comes after `i`, is not taken and
/// has the factor.
proof fn lemma_group_contains<N>(s: Seq<Node<N>>, taken: Seq<bool>, i: int, f: Node<N>, mm: int, k: int)
    ensures
        group(s, taken, i, f, mm).contains(k) <==> (i < k < mm && !taken[k] && remainder(s[k], f) is Some),
    decreases mm - i,
{
    if mm > i + 1 {
        lemma_group_contains(s, taken, i, f, mm - 1, k);
        let prev = group(s, taken, i, f, mm - 1);
        if !taken[mm - 1] && remainder(s[mm - 1], f) is Some {
            vstd::seq_lib::lemma_seq_contains_after_push(prev, mm - 1, k);
        }
    }
}

/// A product keeps its value when one factor is taken out and multiplied
/// back in front.
proof fn lemma_remainder_value<N>(n: Node<N>, f: Node<N>, neg: bool, m: Model<N>)
    requires
        remainder(n, f) is Some,
    ensures
        value(f, m) * signed_value((neg, remainder(n, f)->0), m) == signed_value((neg, n), m),
{
    if let Node::Binary(BinaryOperationKind::Multiply, l, r) = n {
        let r0 = remainder(n, f)->0;
        if *l == f {
            assert(value(n, m) == value(f, m) * value(r0, m));
        } else {
            lemma_mul_is_commutative(value(*l, m), value(f, m));
            assert(value(n, m) == value(f, m) * value(r0, m));
        }
        lemma_mul_unary_negation(value(f, m), value(r0, m));
    }
}

/// The factor times what the terms of a group keep is what the terms were.
proof fn lemma_group_terms_value<N>(s: Seq<Node<N>>, signs: Seq<bool>, i: int, f: Node<N>, g: Seq<int>, m: Model<N>)
    requires
        remainder(s[i], f) is Some,
        forall|t: int| 0 <= t < g.len() ==> remainder(s[#[trigger] g[t]], f) is Some,
    ensures
        value(f, m) * signed_sum(group_terms(s, signs, i, f, g), m) == term_value(s, signs, i, m) + group_sum(s, signs, g, m),
    decreases g.len(),
{
    let gt = group_terms(s, signs, i, f, g);
    if g.len() == 0 {
        assert(gt =~= seq![(signs[i], remainder(s[i], f)->0)]);
        assert(gt.drop_last() =~= Seq::<(bool, Node<N>)>::empty());
        assert(signed_sum(gt.drop_last(), m) == 0);
        lemma_remainder_value(s[i], f, signs[i], m);
    } else {
        let j = g.last();
        assert(remainder(s[g[g.len() - 1]], f) is Some);
        lemma_group_terms_value(s, signs, i, f, g.drop_last(), m);
        let prev = group_terms(s, signs, i, f, g.drop_last());
        assert(gt.drop_last() =~= prev);
        assert(gt.last() == (signs[j], remainder(s[j], f)->0));
        lemma_remainder_value(s[j], f, signs[j], m);
        lemma_mul_is_distributive_add(value(f, m), signed_sum(prev, m), signed_value(gt.last(), m));
    }
}

/// Marking a term and its group takes their values out of what is left.
proof fn lemma_marked_rest<N>(s: Seq<Node<N>>, signs: Seq<bool>, taken: Seq<bool>, i: int, f: Node<N>, mm: int, m: Model<N>)
    requires
        taken.len() == s.len(),
        0 <= i < s.len(),
        !taken[i],
        0 <= mm <= s.len(),
    ensures
        rest_sum(s, signs, taken, mm, m) == rest_sum(
            s,
            signs,
            marked(taken, i, group(s, taken, i, f, s.len() as int)),
            mm,
            m,
        ) + (if i < mm {
            term_value(s, signs, i, m)
        } else {
            0
        }) + group_sum(s, signs, group(s, taken, i, f, mm), m),
    decreases mm,
{
    let g = group(s, taken, i, f, s.len() as int);
    let mk = marked(taken, i, g);
    if mm > 0 {
        lemma_marked_rest(s, signs, taken, i, f, mm - 1, m);
        let k = mm - 1;
        lemma_group_contains(s, taken, i, f, s.len() as int, k);
        assert(mk[k] == (taken[k] || k == i || g.contains(k)));
        let here = group(s, taken, i, f, mm);
        let prev = group(s, taken, i, f, mm - 1);
        if mm > i + 1 && !taken[k] && remainder(s[k], f) is Some {
            assert(here == prev.push(k));
            assert(here.drop_last() =~= prev);
        } else if mm > i + 1 {
            assert(here == prev);
        } else {
            assert(here =~= Seq::<int>::empty());
            assert(prev =~= Seq::<int>::empty());
        }
    }
}

/// Taking one more term takes its value out of what is left.
proof fn lemma_kept_rest<N>(s: Seq<Node<N>>, signs: Seq<bool>, taken: Seq<bool>, i: int, mm: int, m: Model<N>)
    requires
        0 <= i < taken.len(),
        !taken[i],
        0 <= mm <= taken.len(),
    ensures
        rest_sum(s, signs, taken.update(i, true), mm, m) == rest_sum(s, signs, taken, mm, m) - if i < mm {
            term_value(s, signs, i, m)
        } else {
            0
        },
    decreases mm,
{
    if mm > 0 {
        lemma_kept_rest(s, signs, taken, i, mm - 1, m);
    }
}

/// With every term taken nothing is left.
proof fn lemma_rest_all_taken<N>(s: Seq<Node<N>>, signs: Seq<bool>, taken: Seq<bool>, mm: int, m: Model<N>)
    requires
        forall|j: int| 0 <= j < mm ==> taken[j],
    ensures
        rest_sum(s, signs, taken, mm, m) == 0,
    decreases mm,
{
    if mm > 0 {
        lemma_rest_all_taken(s, signs, taken, mm - 1, m);
    }
}

/// With no term taken, what is left is the sum of the first terms.
proof fn lemma_rest_none_taken<N>(ts: Seq<(bool, Node<N>)>, mm: int, m: Model<N>)
    requires
        0 <= mm <= ts.len(),
    ensures
        rest_sum(term_nodes(ts), term_signs(ts), Seq::new(ts.len(), |k: int| false), mm, m) == signed_sum(ts.take(mm), m),
    decreases mm,
{
    if mm > 0 {
        lemma_rest_none_taken(ts, mm - 1, m);
        assert(ts.take(mm).drop_last() =~= ts.take(mm - 1));
        assert(ts.take(mm).last() == ts[mm - 1]);
        assert((term_signs(ts)[mm - 1], term_nodes(ts)[mm - 1]) == ts[mm - 1]);
    } else {
        assert(ts.take(0) =~= Seq::<(bool, Node<N>)>::empty());
    }
}

/// Each step of factoring moves values from the terms left to the new
/// terms, and takes the term it looks at.
proof fn lemma_factor_run_value<N>(s: Seq<Node<N>>, signs: Seq<bool>, k: int, m: Model<N>)
    requires
        0 <= k <= s.len(),
    ensures
        factor_run(s, signs, k).taken.len() == s.len(),
        forall|j: int| 0 <= j < k ==> #[trigger] factor_run(s, signs, k).taken[j],
        k >= 1 ==> factor_run(s, signs, k).out.len() >= 1,
        signed_sum(factor_run(s, signs, k).out, m) + rest_sum(s, signs, factor_run(s, signs, k).taken, s.len() as int, m)
            == rest_sum(s, signs, factor_run(s, signs, 0).taken, s.len() as int, m),
    decreases k,
{
    if k > 0 {
        lemma_factor_run_value(s, signs, k - 1, m);
        let st = factor_run(s, signs, k - 1);
        let i = k - 1;
        let next = factor_run(s, signs, k);
        assert(next == factor_step(s, signs, st, i));
        if k == 1 {
            assert(!st.taken[0]);
        }
        let len = s.len() as int;
        if !st.taken[i] {
            let kept = crate::associative::Factoring { taken: st.taken.update(i, true), out: st.out.push((signs[i], s[i])) };
            let is_grouped = factors(s[i]).len() != 0 && (group(s, st.taken, i, factors(s[i])[0], len).len() > 0
                || group(s, st.taken, i, factors(s[i])[1], len).len() > 0);
            if is_grouped {
                let f = if group(s, st.taken, i, factors(s[i])[0], len).len() > 0 {
                    factors(s[i])[0]
                } else {
                    factors(s[i])[1]
                };
                assert(next == grouped(s, signs, st, i, f));
                let g = group(s, st.taken, i, f, len);
                assert(remainder(s[i], f) is Some);
                assert forall|t: int| 0 <= t < g.len() implies remainder(s[#[trigger] g[t]], f) is Some by {
                    assert(g.contains(g[t]));
                    lemma_group_contains(s, st.taken, i, f, len, g[t]);
                }
                let gt = group_terms(s, signs, i, f, g);
                lemma_group_terms_value(s, signs, i, f, g, m);
                lemma_signed_tree_value(gt, m);
                let inner = signed_tree(gt);
                lemma_mul_unary_negation(value(f, m), value(inner.1, m));
                let added = (inner.0, Node::Binary(BinaryOperationKind::Multiply, Box::new(f), Box::new(inner.1)));
                assert(signed_value(added, m) == value(f, m) * signed_value(inner, m));
                assert(next.out == st.out.push(added));
                assert(next.out.drop_last() =~= st.out);
                lemma_marked_rest(s, signs, st.taken, i, f, len, m);
                assert(next.taken == marked(st.taken, i, g));
                assert forall|j: int| 0 <= j < k implies #[trigger] next.taken[j] by {
                    if j < k - 1 {
                        assert(st.taken[j]);
                    }
                }
            } else {
                assert(next == kept);
                assert(next.out.drop_last() =~= st.out);
                lemma_kept_rest(s, signs, st.taken, i, len, m);
                assert forall|j: int| 0 <= j < k implies #[trigger] next.taken[j] by {
                    if j < k - 1 {
                        assert(st.taken[j]);
                    }
                }
            }
        }
    }
}

/// Factoring keeps the value: a term gathered behind a shared factor stands
/// for the same sum of products.
pub proof fn law_factoring_keeps_value<N>(n: Node<N>, m: Model<N>)
    ensures
        value(factored(n), m) == value(n, m),
{
    if let Node::Binary(op, _, _) = n {
        if op == BinaryOperationKind::Plus || op == BinaryOperationKind::Minus {
            let ts = terms(n, false);
            let s = term_nodes(ts);
            let signs = term_signs(ts);
            let len = ts.len() as int;
            lemma_terms_value(n, false, m);
            lemma_terms_nonempty(n, false);
            lemma_factor_run_value(s, signs, len, m);
            let fin = factor_run(s, signs, len);
            lemma_rest_all_taken(s, signs, fin.taken, len, m);
            assert(factor_run(s, signs, 0).taken == Seq::new(ts.len(), |k: int| false));
            lemma_rest_none_taken(ts, len, m);
            assert(ts.take(len) =~= ts);
            lemma_signed_tree_value(fin.out, m);
            let t = signed_tree(fin.out);
            assert(factored(n) == settled(t));
            assert(value(settled(t), m) == signed_value(t, m));
        }
    }
}

/// Every tree one factoring away has the value of the tree.
pub proof fn law_factorings_keep_value<N>(n: Node<N>, m: Model<N>)
    ensures
        forall|i: int|
            0 <= i < single_step_factorings(n).len() ==> value(#[trigger] single_step_factorings(n)[i], m) == value(n, m),
{
    lemma_factorings_along_value(n, factorable_paths(n, Seq::empty()), m);
}

proof fn lemma_factorings_along_value<N>(n: Node<N>, paths: Seq<Seq<u8>>, m: Model<N>)
    ensures
        forall|i: int|
            0 <= i < factorings_along(n, paths).len() ==> value(#[trigger] factorings_along(n, paths)[i], m) == value(n, m),
    decreases paths.len(),
{
    if paths.len() > 0 {
        lemma_factorings_along_value(n, paths.drop_last(), m);
        let before = factorings_along(n, paths.drop_last());
        let r = factorings_along(n, paths);
        let p = paths.last();
        if let Some(t) = subtree_at(n, p) {
            law_factoring_keeps_value(t, m);
            lemma_replaced_value(n, p, factored(t), m);
        }
        assert forall|i: int| 0 <= i < r.len() implies value(#[trigger] r[i], m) == value(n, m) by {
            if i < before.len() {
                assert(r[i] == before[i]);
            }
        }
    }
}

/// Every form found, every form still to explore, and the fully expanded
/// form, if one was found, has the value `v`.
pub open spec fn search_valued(st: Search, v: int, m: Model<u64>) -> bool {
    &&& forall|i: int| 0 <= i < st.forms.len() ==> value(#[trigger] st.forms[i], m) == v
    &&& forall|i: int| 0 <= i < st.queue.len() ==> value(#[trigger] st.queue[i], m) == v
    &&& (st.fully matches Some(t) ==> value(t, m) == v)
}

proof fn lemma_absorb_valued(st: Search, steps: Seq<Node<u64>>, texts: Seq<String>, v: int, m: Model<u64>)
    requires
        search_valued(st, v, m),
        forall|i: int| 0 <= i < steps.len() ==> value(#[trigger] steps[i], m) == v,
    ensures
        search_valued(absorb(st, steps, texts), v, m),
    decreases steps.len(),
{
    if steps.len() > 0 {
        let e = steps[0];
        let k = crate::equivalent::form_key(e, texts);
        let next = if st.visited.contains(k) {
            st
        } else {
            Search { forms: st.forms.push(e), visited: st.visited.push(k), queue: st.queue.push(e), fully: st.fully }
        };
        assert(value(e, m) == v);
        assert forall|i: int| 0 <= i < next.forms.len() implies value(#[trigger] next.forms[i], m) == v by {
            if i < st.forms.len() {
                assert(next.forms[i] == st.forms[i]);
            }
        }
        assert forall|i: int| 0 <= i < next.queue.len() implies value(#[trigger] next.queue[i], m) == v by {
            if i < st.queue.len() {
                assert(next.queue[i] == st.queue[i]);
            }
        }
        assert forall|i: int| 0 <= i < steps.drop_first().len() implies value(#[trigger] steps.drop_first()[i], m) == v by {
            assert(steps.drop_first()[i] == steps[i + 1]);
        }
        lemma_absorb_valued(next, steps.drop_first(), texts, v, m);
    }
}

proof fn lemma_expansion_valued(st: Search, texts: Seq<String>, v: int, m: Model<u64>)
    requires
        search_valued(st, v, m),
    ensures
        search_valued(expansion_search(st, texts), v, m),
    decreases usize::MAX - st.visited.len(), st.queue.len(),
{
    if !(st.queue.len() == 0 || st.visited.len() > usize::MAX) {
        let current = st.queue[0];
        let steps = crate::laws::single_step_expansions(current);
        let popped = Search {
            queue: st.queue.drop_first(),
            fully: if steps.len() == 0 && st.fully is None {
                Some(current)
            } else {
                st.fully
            },
            ..st
        };
        assert(value(current, m) == v);
        assert forall|i: int| 0 <= i < popped.queue.len() implies value(#[trigger] popped.queue[i], m) == v by {
            assert(popped.queue[i] == st.queue[i + 1]);
        }
        law_expansions_keep_value(current, m);
        lemma_absorb_valued(popped, steps, texts, v, m);
        lemma_absorb_growth(popped, steps, texts);
        let next = absorb(popped, steps, texts);
        if next.visited.len() <= usize::MAX {
            lemma_expansion_valued(next, texts, v, m);
        }
    }
}

proof fn lemma_factoring_valued(st: Search, texts: Seq<String>, v: int, m: Model<u64>)
    requires
        search_valued(st, v, m),
    ensures
        search_valued(factoring_search(st, texts), v, m),
    decreases usize::MAX - st.visited.len(), st.queue.len(),
{
    if !(st.queue.len() == 0 || st.visited.len() > usize::MAX) {
        let current = st.queue[0];
        let popped = Search { queue: st.queue.drop_first(), ..st };
        let steps = single_step_factorings(current);
        assert(value(current, m) == v);
        assert forall|i: int| 0 <= i < popped.queue.len() implies value(#[trigger] popped.queue[i], m) == v by {
            assert(popped.queue[i] == st.queue[i + 1]);
        }
        law_factorings_keep_value(current, m);
        lemma_absorb_valued(popped, steps, texts, v, m);
        lemma_absorb_growth(popped, steps, texts);
        let next = absorb(popped, steps, texts);
        if next.visited.len() <= usize::MAX {
            lemma_factoring_valued(next, texts, v, m);
        }
    }
}

/// Every equivalent form of a tree has the value of the tree, in every
/// model: expanding and factoring only ever rewrite a tree into an equal
/// one.
pub proof fn law_equivalent_forms_keep_value(n: Node<u64>, texts: Seq<String>, m: Model<u64>)
    ensures
        forall|i: int|
            0 <= i < equivalent_forms(n, texts).len() ==> value(#[trigger] equivalent_forms(n, texts)[i], m) == value(n, m),
{
    let v = value(n, m);
    let init = Search {
        forms: seq![n],
        visited: seq![crate::equivalent::form_key(n, texts)],
        queue: seq![n],
        fully: None,
    };
    assert(search_valued(init, v, m));
    lemma_expansion_valued(init, texts, v, m);
    let expanded = expansion_search(init, texts);
    if let Some(start) = expanded.fully {
        let again = Search { queue: seq![start], ..expanded };
        assert(search_valued(again, v, m));
        lemma_factoring_valued(again, texts, v, m);
    }
}

proof fn lemma_values_push<N>(s: Seq<Node<N>>, n: Node<N>, m: Model<N>)
    ensures
        values(s.push(n), m) == values(s, m).push(value(n, m)),
{
    assert(s.push(n).drop_last() =~= s);
}

/// Division in `m` divides by a product as it divides in turn: `(a / b) / c`
/// is `a / (b * c)`, as it is for numbers with nonzero divisors.
pub open spec fn divides_in_turn<N>(m: Model<N>) -> bool {
    forall|a: int, b: int, c: int| #[trigger] (m.div)((m.div)(a, b), c) == (m.div)(a, b * c)
}

/// The product of some integers.
pub open spec fn product(vs: Seq<int>) -> int
    decreases vs.len(),
{
    if vs.len() == 0 {
        1
    } else {
        product(vs.drop_last()) * vs.last()
    }
}

proof fn lemma_left_product_value<N>(ts: Seq<Node<N>>, m: Model<N>)
    requires
        ts.len() >= 1,
    ensures
        value(left_tree(ts, BinaryOperationKind::Multiply), m) == product(values(ts, m)),
    decreases ts.len(),
{
    let vs = values(ts, m);
    if ts.len() == 1 {
        assert(ts.drop_last() =~= Seq::<Node<N>>::empty());
        assert(vs == values(ts.drop_last(), m).push(value(ts[0], m)));
        assert(values(Seq::<Node<N>>::empty(), m) =~= Seq::<int>::empty());
        assert(vs.drop_last() =~= Seq::<int>::empty());
        assert(product(vs.drop_last()) == 1);
        assert(product(vs) == 1 * value(ts[0], m));
    } else {
        lemma_left_product_value(ts.drop_last(), m);
        assert(vs.drop_last() == values(ts.drop_last(), m));
    }
}

/// A chain of divisions divides its head by the product of the divisors.
proof fn lemma_div_chain_value<N>(n: Node<N>, m: Model<N>)
    requires
        divides_in_turn(m),
        n matches Node::Binary(BinaryOperationKind::Divide, _, _),
    ensures
        value(n, m) == (m.div)(value(left_chain(n, BinaryOperationKind::Divide).0, m), product(values(left_chain(n, BinaryOperationKind::Divide).1, m))),
    decreases n,
{
    if let Node::Binary(_, l, r) = n {
        let (h, ts) = left_chain(*l, BinaryOperationKind::Divide);
        assert(left_chain(n, BinaryOperationKind::Divide) == (h, ts.push(*r)));
        lemma_values_push(ts, *r, m);
        assert(values(ts.push(*r), m).drop_last() == values(ts, m));
        if *l matches Node::Binary(BinaryOperationKind::Divide, _, _) {
            lemma_div_chain_value(*l, m);
            let (a, b, c) = (value(h, m), product(values(ts, m)), value(*r, m));
            assert((m.div)((m.div)(a, b), c) == (m.div)(a, b * c));
        } else {
            assert(ts =~= Seq::<Node<N>>::empty());
            assert(values(ts, m) =~= Seq::<int>::empty());
            assert(product(values(ts.push(*r), m)) == 1 * value(*r, m));
        }
    }
}

/// Rewriting keeps the value in every model in which dividing in turn is
/// dividing by the product: `a - b` and `a + -b`, `-(a + b)` and
/// `-a + -b`, `--a` and `a`, `a / b / c` and `a / (b * c)` are equal there.
pub proof fn law_transform_keeps_value<N>(n: Node<N>, m: Model<N>)
    requires
        divides_in_turn(m),
    ensures
        value(transformed(n), m) == value(n, m),
    decreases weight(n), 0int,
{
    match n {
        Node::Unary(UnaryOperationKind::Not, e) => {
            law_transform_keeps_value(*e, m);
        },
        Node::Unary(UnaryOperationKind::Minus, e) => {
            law_transform_keeps_value(*e, m);
            let t = transformed(*e);
            if let Node::Unary(UnaryOperationKind::Minus, inner) = t {
                assert(value(t, m) == -value(*inner, m));
                assert(transformed(n) == *inner);
            }
            if let Node::Binary(BinaryOperationKind::Plus, l, r) = t {
                let p = Node::Binary(
                    BinaryOperationKind::Plus,
                    Box::new(Node::Unary(UnaryOperationKind::Minus, l)),
                    Box::new(Node::Unary(UnaryOperationKind::Minus, r)),
                );
                assert(value(Node::Unary(UnaryOperationKind::Minus, l), m) == -value(*l, m));
                assert(value(Node::Unary(UnaryOperationKind::Minus, r), m) == -value(*r, m));
                assert(value(t, m) == value(*l, m) + value(*r, m));
                assert(value(p, m) == value(n, m));
                if weight(p) < weight(n) {
                    law_transform_keeps_value(p, m);
                }
            }
        },
        Node::Binary(BinaryOperationKind::Divide, _, _) => {
            lemma_chain_weight(n);
            let (h, ts) = left_chain(n, BinaryOperationKind::Divide);
            law_transform_keeps_value(h, m);
            lemma_transform_all_keeps_values(ts, m);
            lemma_transformed_all_len(ts);
            lemma_left_product_value(transformed_all(ts), m);
            lemma_div_chain_value(n, m);
            let rest = left_tree(transformed_all(ts), BinaryOperationKind::Multiply);
            assert(transformed(n) == Node::Binary(BinaryOperationKind::Divide, Box::new(transformed(h)), Box::new(rest)));
            assert(value(transformed(n), m) == (m.div)(value(transformed(h), m), value(rest, m)));
        },
        Node::Binary(op, l, r) => {
            law_transform_keeps_value(*l, m);
            law_transform_keeps_value(*r, m);
            let tr = transformed(*r);
            assert(value(Node::Unary(UnaryOperationKind::Minus, Box::new(tr)), m) == -value(tr, m));
        },
        Node::Call(name, args) => {
            lemma_transform_all_keeps_values(args, m);
        },
        Node::Access(name, idx) => {
            lemma_transform_all_keeps_values(idx, m);
        },
        _ => {},
    }
}

proof fn lemma_transform_all_keeps_values<N>(s: Seq<Node<N>>, m: Model<N>)
    requires
        divides_in_turn(m),
    ensures
        values(transformed_all(s), m) == values(s, m),
    decreases weights(s), 1int,
{
    if s.len() > 0 {
        crate::transform::lemma_weight_positive(s.last());
        lemma_transform_all_keeps_values(s.drop_last(), m);
        law_transform_keeps_value(s.last(), m);
        lemma_values_push(transformed_all(s.drop_last()), transformed(s.last()), m);
        assert(s.drop_last().push(s.last()) =~= s);
        lemma_values_push(s.drop_last(), s.last(), m);
    }
}

/// `a op b` for the operation of a chain.
pub open spec fn combine(op: BinaryOperationKind, a: int, b: int) -> int {
    if op == BinaryOperationKind::Plus {
        a + b
    } else {
        a * b
    }
}

/// What combining nothing gives.
pub open spec fn unit(op: BinaryOperationKind) -> int {
    if op == BinaryOperationKind::Plus {
        0
    } else {
        1
    }
}

/// The values of `vs` combined by `op`, left to right.
pub open spec fn combined(vs: Seq<int>, op: BinaryOperationKind) -> int
    decreases vs.len(),
{
    if vs.len() == 0 {
        unit(op)
    } else {
        combine(op, combined(vs.drop_last(), op), vs.last())
    }
}

proof fn lemma_combined_push(vs: Seq<int>, v: int, op: BinaryOperationKind)
    ensures
        combined(vs.push(v), op) == combine(op, combined(vs, op), v),
{
    assert(vs.push(v).drop_last() =~= vs);
}

proof fn lemma_combine_assoc(op: BinaryOperationKind, a: int, b: int, c: int)
    ensures
        combine(op, combine(op, a, b), c) == combine(op, a, combine(op, b, c)),
        combine(op, a, unit(op)) == a,
        combine(op, unit(op), a) == a,
{
    lemma_mul_is_associative(a, b, c);
}

proof fn lemma_combined_concat(a: Seq<int>, b: Seq<int>, op: BinaryOperationKind)
    ensures
        combined(a + b, op) == combine(op, combined(a, op), combined(b, op)),
    decreases b.len(),
{
    if b.len() == 0 {
        assert(a + b =~= a);
        lemma_combine_assoc(op, combined(a, op), 0, 0);
    } else {
        lemma_combined_concat(a, b.drop_last(), op);
        assert((a + b).drop_last() =~= a + b.drop_last());
        lemma_combine_assoc(op, combined(a, op), combined(b.drop_last(), op), b.last());
    }
}

proof fn lemma_values_concat<N>(a: Seq<Node<N>>, b: Seq<Node<N>>, m: Model<N>)
    ensures
        values(a + b, m) == values(a, m) + values(b, m),
    decreases b.len(),
{
    if b.len() == 0 {
        assert(a + b =~= a);
        assert(values(b, m) =~= Seq::<int>::empty());
        assert(values(a, m) + values(b, m) =~= values(a, m));
    } else {
        lemma_values_concat(a, b.drop_last(), m);
        assert((a + b).drop_last() =~= a + b.drop_last());
        assert(values(a, m) + values(b, m) =~= (values(a, m) + values(b.drop_last(), m)).push(value(b.last(), m)));
    }
}

/// A chain is worth its operands combined.
proof fn lemma_chain_value<N>(n: Node<N>, op: BinaryOperationKind, m: Model<N>)
    requires
        is_chain_op(op),
    ensures
        value(n, m) == combined(values(chain_operands(n, op), m), op),
    decreases n,
{
    let one = values(seq![n], m);
    assert(seq![n].drop_last() =~= Seq::<Node<N>>::empty());
    assert(values(Seq::<Node<N>>::empty(), m) =~= Seq::<int>::empty());
    assert(one == Seq::<int>::empty().push(value(n, m)));
    lemma_combined_push(Seq::<int>::empty(), value(n, m), op);
    assert(combined(Seq::<int>::empty(), op) == unit(op));
    lemma_combine_assoc(op, value(n, m), 0, 0);
    assert(combined(one, op) == value(n, m));
    if let Node::Binary(o, l, r) = n {
        if o == op {
            assert(chain_operands(n, op) == chain_operands(*l, op) + chain_operands(*r, op));
            assert(value(n, m) == combine(op, value(*l, m), value(*r, m)));
            lemma_chain_value(*l, op, m);
            lemma_chain_value(*r, op, m);
            lemma_values_concat(chain_operands(*l, op), chain_operands(*r, op), m);
            lemma_combined_concat(values(chain_operands(*l, op), m), values(chain_operands(*r, op), m), op);
        }
    }
}

proof fn lemma_paired_combined<N>(q: Seq<Node<N>>, op: BinaryOperationKind, k: int, m: Model<N>)
    requires
        is_chain_op(op),
        0 <= k <= q.len() / 2,
    ensures
        combined(values(paired(q, op).take(k), m), op) == combined(values(q.take(2 * k), m), op),
    decreases k,
{
    let p = paired(q, op);
    if k > 0 {
        lemma_paired_combined(q, op, k - 1, m);
        assert(p.take(k) =~= p.take(k - 1).push(p[k - 1]));
        assert(q.take(2 * k) =~= q.take(2 * k - 2).push(q[2 * k - 2]).push(q[2 * k - 1]));
        lemma_values_push(p.take(k - 1), p[k - 1], m);
        lemma_values_push(q.take(2 * k - 2), q[2 * k - 2], m);
        lemma_values_push(q.take(2 * k - 2).push(q[2 * k - 2]), q[2 * k - 1], m);
        let c = combined(values(q.take(2 * k - 2), m), op);
        let (a, b) = (value(q[2 * k - 2], m), value(q[2 * k - 1], m));
        assert(p[k - 1] == Node::Binary(op, Box::new(q[2 * k - 2]), Box::new(q[2 * k - 1])));
        assert(value(p[k - 1], m) == combine(op, a, b));
        lemma_combined_push(values(p.take(k - 1), m), value(p[k - 1], m), op);
        lemma_combined_push(values(q.take(2 * k - 2), m), a, op);
        lemma_combined_push(values(q.take(2 * k - 2).push(q[2 * k - 2]), m), b, op);
        lemma_combine_assoc(op, c, a, b);
    } else {
        assert(p.take(0) =~= Seq::<Node<N>>::empty());
        assert(q.take(0) =~= Seq::<Node<N>>::empty());
        assert(values(Seq::<Node<N>>::empty(), m) =~= Seq::<int>::empty());
    }
}

/// A tree joined level by level is worth its leaves combined.
proof fn lemma_balanced_tree_value<N>(q: Seq<Node<N>>, op: BinaryOperationKind, m: Model<N>)
    requires
        is_chain_op(op),
        q.len() >= 1,
    ensures
        value(balanced_tree(q, op), m) == combined(values(q, m), op),
    decreases q.len(),
{
    if q.len() > 1 {
        let half = q.len() as int / 2;
        lemma_paired_combined(q, op, half, m);
        let p = paired(q, op);
        assert(p.take(half) =~= p);
        if q.len() % 2 == 1 {
            assert(q.take(2 * half) =~= q.drop_last());
            lemma_values_push(p, q.last(), m);
            assert(q.drop_last().push(q.last()) =~= q);
            lemma_values_push(q.drop_last(), q.last(), m);
            lemma_combined_push(values(p, m), value(q.last(), m), op);
            lemma_combined_push(values(q.drop_last(), m), value(q.last(), m), op);
            assert(next_level(q, op) == p.push(q.last()));
        } else {
            assert(q.take(2 * half) =~= q);
            assert(next_level(q, op) == p);
        }
        assert(combined(values(next_level(q, op), m), op) == combined(values(q, m), op));
        lemma_balanced_tree_value(next_level(q, op), op, m);
        assert(balanced_tree(q, op) == balanced_tree(next_level(q, op), op));
    } else {
        assert(q.drop_last() =~= Seq::<Node<N>>::empty());
        assert(values(Seq::<Node<N>>::empty(), m) =~= Seq::<int>::empty());
        assert(values(q, m) == Seq::<int>::empty().push(value(q[0], m)));
        lemma_combined_push(Seq::<int>::empty(), value(q[0], m), op);
        assert(combined(Seq::<int>::empty(), op) == unit(op));
        lemma_combine_assoc(op, value(q[0], m), 0, 0);
    }
}

/// Rebalancing keeps the value: sums and products are regrouped, their
/// operands kept in order, and integer `+` and `*` are associative.
pub proof fn law_balance_keeps_value<N>(n: Node<N>, m: Model<N>)
    ensures
        value(balanced(n), m) == value(n, m),
    decreases weight(n), 0int,
{
    match n {
        Node::Unary(op, e) => {
            law_balance_keeps_value(*e, m);
        },
        Node::Binary(op, l, r) => {
            if is_chain_op(op) {
                lemma_operands_weight(n, op);
                let ops = chain_operands(n, op);
                lemma_balance_all_keeps_values(ops, m);
                lemma_balanced_all_len(ops);
                lemma_balanced_tree_value(balanced_all(ops), op, m);
                lemma_chain_value(n, op, m);
            } else {
                law_balance_keeps_value(*l, m);
                law_balance_keeps_value(*r, m);
            }
        },
        Node::Call(name, args) => {
            lemma_balance_all_keeps_values(args, m);
        },
        Node::Access(name, idx) => {
            lemma_balance_all_keeps_values(idx, m);
        },
        _ => {},
    }
}

proof fn lemma_balance_all_keeps_values<N>(s: Seq<Node<N>>, m: Model<N>)
    ensures
        values(balanced_all(s), m) == values(s, m),
    decreases weights(s), 1int,
{
    if s.len() > 0 {
        crate::transform::lemma_weight_positive(s.last());
        lemma_balance_all_keeps_values(s.drop_last(), m);
        law_balance_keeps_value(s.last(), m);
        lemma_values_push(balanced_all(s.drop_last()), balanced(s.last()), m);
        assert(s.drop_last().push(s.last()) =~= s);
        lemma_values_push(s.drop_last(), s.last(), m);
    }
}

/// A model that reads numbers from their text as arithmetic does: a
/// leading `-` negates, `1` and `-1` are one and minus one, and dividing
/// is multiplying by the reciprocal, as it is for nonzero divisors.
pub open spec fn reads_numbers(m: Model<Seq<char>>) -> bool {
    &&& forall|t: Seq<char>| negative_text(t) ==> #[trigger] (m.num)(negated_text(t)) == -(m.num)(t)
    &&& (m.num)(seq!['1']) == 1
    &&& (m.num)(seq!['-', '1']) == -1
    &&& forall|a: int, b: int| #[trigger] (m.div)(a, b) == a * (m.div)(1, b)
    &&& forall|b: int| #[trigger] (m.div)(-1, b) == -(m.div)(1, b)
}

/// One folding step keeps the value.
proof fn lemma_folded_binary_value(op: BinaryOperationKind, l: Node<Seq<char>>, r: Node<Seq<char>>, m: Model<Seq<char>>)
    requires
        reads_numbers(m),
    ensures
        value(folded_binary(op, l, r), m) == value(Node::Binary(op, Box::new(l), Box::new(r)), m),
{
    let (vl, vr) = (value(l, m), value(r, m));
    match op {
        BinaryOperationKind::Plus => {
            if let Node::Number(t) = r {
                if negative_text(t) {
                    assert((m.num)(negated_text(t)) == -(m.num)(t));
                    assert(value(Node::Number(negated_text(t)), m) == (m.num)(negated_text(t)));
                }
            }
        },
        BinaryOperationKind::Multiply => {
            if let Node::Binary(BinaryOperationKind::Divide, one, d) = r {
                if let Node::Number(t) = *one {
                    if unit_text(t) {
                        let vd = value(*d, m);
                        let q = Node::Binary(BinaryOperationKind::Divide, Box::new(l), d);
                        assert(value(q, m) == (m.div)(vl, vd));
                        assert((m.div)(vl, vd) == vl * (m.div)(1, vd));
                        if negative_text(t) {
                            assert(t == seq!['-', '1']) by {
                                if t == seq!['1'] {
                                    assert(t[0] == '1');
                                }
                            }
                            assert(value(*one, m) == -1);
                            assert((m.div)(-1, vd) == -(m.div)(1, vd));
                            lemma_mul_unary_negation(vl, (m.div)(1, vd));
                            assert(value(Node::Unary(UnaryOperationKind::Minus, Box::new(q)), m) == -value(q, m));
                        } else {
                            assert(t == seq!['1']) by {
                                if t == seq!['-', '1'] {
                                    assert(negative_text(t));
                                }
                            }
                            assert(value(*one, m) == 1);
                        }
                    }
                }
            }
        },
        _ => {},
    }
}

/// Folding keeps the value in every model that reads numbers as
/// arithmetic does: `a + -b` and `a - b`, `a + (-n)` and `a - n`,
/// `a * (1 / b)` and `a / b`, `a * (-1 / b)` and `-(a / b)` are equal there.
pub proof fn law_fold_keeps_value(n: Node<Seq<char>>, m: Model<Seq<char>>)
    requires
        reads_numbers(m),
    ensures
        value(folded(n), m) == value(n, m),
    decreases n,
{
    match n {
        Node::Unary(op, e) => {
            law_fold_keeps_value(*e, m);
        },
        Node::Binary(op, l, r) => {
            law_fold_keeps_value(*l, m);
            law_fold_keeps_value(*r, m);
            lemma_folded_binary_value(op, folded(*l), folded(*r), m);
        },
        Node::Call(name, args) => {
            lemma_fold_all_keeps_values(args, m);
        },
        Node::Access(name, idx) => {
            lemma_fold_all_keeps_values(idx, m);
        },
        _ => {},
    }
}

proof fn lemma_fold_all_keeps_values(s: Seq<Node<Seq<char>>>, m: Model<Seq<char>>)
    requires
        reads_numbers(m),
    ensures
        values(folded_all(s), m) == values(s, m),
    decreases s,
{
    if s.len() > 0 {
        lemma_fold_all_keeps_values(s.drop_last(), m);
        law_fold_keeps_value(s.last(), m);
        lemma_values_push(folded_all(s.drop_last()), folded(s.last()), m);
        assert(s.drop_last().push(s.last()) =~= s);
        lemma_values_push(s.drop_last(), s.last(), m);
    }
}

} // verus!
