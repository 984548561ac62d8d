//! One step of factoring: in a sum or difference, the terms that share a
//! factor with an earlier term are gathered behind it, `a*b + a*c` becoming
//! `a*(b + c)`, at any sum or difference of a tree. Numbers are held as
//! `u64` keys: two numbers are the same value exactly when their keys are
//! equal.
use vstd::prelude::*;
use crate::ast::{AbstractSyntaxTree, AstNode, Node, views, lemma_views_push, lemma_views_len, lemma_views_index};

use crate::laws::{subtree_at, replaced_at, path_views, copy_path, expanded};
use crate::operations::{BinaryOperationKind, UnaryOperationKind};

verus! {

/// The terms of a chain of sums and differences, left to right, each with
/// whether it is subtracted: the right operand of a difference comes with
/// the opposite sign. `neg` is the sign of the whole chain.
pub open spec fn terms<N>(n: Node<N>, neg: bool) -> Seq<(bool, Node<N>)>
    decreases n,
{
    match n {
        Node::Binary(BinaryOperationKind::Plus, l, r) => terms(*l, neg) + terms(*r, neg),
        Node::Binary(BinaryOperationKind::Minus, l, r) => terms(*l, neg) + terms(*r, !neg),
        _ => seq![(neg, n)],
    }
}

/// The trees of signed terms.
pub open spec fn term_nodes<N>(ts: Seq<(bool, Node<N>)>) -> Seq<Node<N>> {
    ts.map_values(|t: (bool, Node<N>)| t.1)
}

/// The signs of signed terms.
pub open spec fn term_signs<N>(ts: Seq<(bool, Node<N>)>) -> Seq<bool> {
    ts.map_values(|t: (bool, Node<N>)| t.0)
}

/// Two signed terms joined into one: the sign of the first, and the sum of
/// the two trees where the signs agree, their difference where they do not.
pub open spec fn joined<N>(a: (bool, Node<N>), b: (bool, Node<N>)) -> (bool, Node<N>) {
    (
        a.0,
        Node::Binary(
            if a.0 == b.0 {
                BinaryOperationKind::Plus
            } else {
                BinaryOperationKind::Minus
            },
            Box::new(a.1),
            Box::new(b.1),
        ),
    )
}

/// Neighbouring signed terms joined.
pub open spec fn signed_paired<N>(q: Seq<(bool, Node<N>)>) -> Seq<(bool, Node<N>)> {
    Seq::new((q.len() / 2) as nat, |i: int| joined(q[2 * i], q[2 * i + 1]))
}

/// The next level of signed terms: the pairs, then the odd one out, if any.
pub open spec fn signed_level<N>(q: Seq<(bool, Node<N>)>) -> Seq<(bool, Node<N>)> {
    if q.len() % 2 == 1 {
        signed_paired(q).push(q.last())
    } else {
        signed_paired(q)
    }
}

/// The signed term that joining `q` level by level leaves.
pub open spec fn signed_tree<N>(q: Seq<(bool, Node<N>)>) -> (bool, Node<N>)
    decreases q.len(),
{
    if q.len() <= 1 {
        q[0]
    } else {
        signed_tree(signed_level(q))
    }
}

/// A signed term as a tree: negated where it is subtracted.
pub open spec fn settled<N>(t: (bool, Node<N>)) -> Node<N> {
    if t.0 {
        Node::Unary(UnaryOperationKind::Minus, Box::new(t.1))
    } else {
        t.1
    }
}

/// The factors of a product, left then right; none for anything else.
pub open spec fn factors<N>(n: Node<N>) -> Seq<Node<N>> {
    match n {
        Node::Binary(BinaryOperationKind::Multiply, l, r) => seq![*l, *r],
        _ => Seq::empty(),
    }
}

/// What is left of the product `n` without the factor `f`: the right
/// operand where `f` is the left one, else the left operand where `f` is
/// the right one.
pub open spec fn remainder<N>(n: Node<N>, f: Node<N>) -> Option<Node<N>> {
    match n {
        Node::Binary(BinaryOperationKind::Multiply, l, r) => if *l == f {
            Some(*r)
        } else if *r == f {
            Some(*l)
        } else {
            None
        },
        _ => None,
    }
}

/// The terms after `i` and before `m`, not yet taken, that have the factor
/// `f`, by index.
pub open spec fn group<N>(s: Seq<Node<N>>, taken: Seq<bool>, i: int, f: Node<N>, m: int) -> Seq<int>
    decreases m - i,
{
    if m <= i + 1 {
        Seq::empty()
    } else if !taken[m - 1] && remainder(s[m - 1], f) is Some {
        group(s, taken, i, f, m - 1).push(m - 1)
    } else {
        group(s, taken, i, f, m - 1)
    }
}

/// What the terms of a group keep once the factor is taken out, each with
/// its sign: first that of term `i`, then those of the group.
pub open spec fn group_terms<N>(s: Seq<Node<N>>, signs: Seq<bool>, i: int, f: Node<N>, g: Seq<int>) -> Seq<
    (bool, Node<N>),
> {
    seq![(signs[i], remainder(s[i], f)->0)] + g.map_values(|j: int| (signs[j], remainder(s[j], f)->0))
}

/// `taken` with term `i` and the terms of `g` marked.
pub open spec fn marked(taken: Seq<bool>, i: int, g: Seq<int>) -> Seq<bool> {
    Seq::new(taken.len(), |k: int| taken[k] || k == i || g.contains(k))
}

/// Where the terms stand after some of them were looked at: which are taken,
/// and the new signed terms so far.
pub struct Factoring<N> {
    pub taken: Seq<bool>,
    pub out: Seq<(bool, Node<N>)>,
}

/// Looking at term `i` with factor `f`: the group it leads, gathered as `f`
/// times the signed sum of what its terms keep.
pub open spec fn grouped<N>(s: Seq<Node<N>>, signs: Seq<bool>, st: Factoring<N>, i: int, f: Node<N>) -> Factoring<N> {
    let g = group(s, st.taken, i, f, s.len() as int);
    let inner = signed_tree(group_terms(s, signs, i, f, g));
    Factoring {
        taken: marked(st.taken, i, g),
        out: st.out.push((inner.0, Node::Binary(BinaryOperationKind::Multiply, Box::new(f), Box::new(inner.1)))),
    }
}

/// Looking at term `i`: a term already taken is passed over; otherwise its
/// left factor, then its right one, is tried for a group, and a term with
/// no group is kept as it is.
pub open spec fn factor_step<N>(s: Seq<Node<N>>, signs: Seq<bool>, st: Factoring<N>, i: int) -> Factoring<N> {
    let kept = Factoring { taken: st.taken.update(i, true), out: st.out.push((signs[i], s[i])) };
    if st.taken[i] {
        st
    } else if factors(s[i]).len() == 0 {
        kept
    } else if group(s, st.taken, i, factors(s[i])[0], s.len() as int).len() > 0 {
        grouped(s, signs, st, i, factors(s[i])[0])
    } else if group(s, st.taken, i, factors(s[i])[1], s.len() as int).len() > 0 {
        grouped(s, signs, st, i, factors(s[i])[1])
    } else {
        kept
    }
}

/// The state after looking at the first `m` terms.
pub open spec fn factor_run<N>(s: Seq<Node<N>>, signs: Seq<bool>, m: int) -> Factoring<N>
    decreases m,
{
    if m <= 0 {
        Factoring { taken: Seq::new(s.len(), |k: int| false), out: Seq::empty() }
    } else {
        factor_step(s, signs, factor_run(s, signs, m - 1), m - 1)
    }
}

/// One factoring at the root of `n`: a sum or difference is rebuilt from its
/// signed terms with each group gathered, joined level by level; anything
/// else stays.
pub open spec fn factored<N>(n: Node<N>) -> Node<N> {
    match n {
        Node::Binary(op, _, _) => if op == BinaryOperationKind::Plus || op == BinaryOperationKind::Minus {
            let ts = terms(n, false);
            settled(signed_tree(factor_run(term_nodes(ts), term_signs(ts), ts.len() as int).out))
        } else {
            n
        },
        _ => n,
    }
}

/// The paths, from `prefix`, of the sums and differences of `n`, in
/// pre-order; calls and indexing are not entered.
pub open spec fn factorable_paths<N>(n: Node<N>, prefix: Seq<u8>) -> Seq<Seq<u8>>
    decreases n,
{
    let here = if n matches Node::Binary(op, _, _) && (op == BinaryOperationKind::Plus || op == BinaryOperationKind::Minus) {
        seq![prefix]
    } else {
        Seq::empty()
    };
    here + match n {
        Node::Binary(_, l, r) => factorable_paths(*l, prefix.push(0u8)) + factorable_paths(*r, prefix.push(1u8)),
        Node::Unary(_, e) => factorable_paths(*e, prefix.push(2u8)),
        _ => Seq::empty(),
    }
}

/// The trees that one factoring at one of `paths` makes, where it changes
/// something.
pub open spec fn factorings_along<N>(n: Node<N>, paths: Seq<Seq<u8>>) -> Seq<Node<N>>
    decreases paths.len(),
{
    if paths.len() == 0 {
        Seq::empty()
    } else {
        let before = factorings_along(n, paths.drop_last());
        match subtree_at(n, paths.last()) {
            Some(t) => if factored(t) != t {
                before.push(replaced_at(n, paths.last(), factored(t)))
            } else {
                before
            },
            None => before,
        }
    }
}

/// Every tree one factoring away from `n`.
pub open spec fn single_step_factorings<N>(n: Node<N>) -> Seq<Node<N>> {
    factorings_along(n, factorable_paths(n, Seq::empty()))
}

/// Factoring undoes expanding a product over a sum or a difference:
/// expanding `a * (b ± c)` into `a*b ± a*c` and factoring that gives back
/// `a * (b ± c)`.
pub proof fn law_factoring_undoes_expansion<N>(a: Node<N>, b: Node<N>, c: Node<N>, op: BinaryOperationKind)
    requires
        op == BinaryOperationKind::Plus || op == BinaryOperationKind::Minus,
    ensures
        ({
            let n = Node::Binary(
                BinaryOperationKind::Multiply,
                Box::new(a),
                Box::new(Node::Binary(op, Box::new(b), Box::new(c))),
            );
            factored(expanded(n)) == n
        }),
{
    let mul = BinaryOperationKind::Multiply;
    let inner = Node::Binary(op, Box::new(b), Box::new(c));
    let n = Node::Binary(mul, Box::new(a), Box::new(inner));
    let ab = Node::Binary(mul, Box::new(a), Box::new(b));
    let ac = Node::Binary(mul, Box::new(a), Box::new(c));
    let e = Node::Binary(op, Box::new(ab), Box::new(ac));
    assert(expanded(n) == e);
    let minus = op == BinaryOperationKind::Minus;
    assert(terms(ab, false) == seq![(false, ab)]);
    assert(terms(ac, minus) == seq![(minus, ac)]);
    let ts = terms(e, false);
    assert(ts =~= seq![(false, ab), (minus, ac)]);
    let s = term_nodes(ts);
    let signs = term_signs(ts);
    assert(s =~= seq![ab, ac]);
    assert(signs =~= seq![false, minus]);
    let init = factor_run(s, signs, 0);
    assert(init.taken =~= seq![false, false]);
    assert(factors(s[0]) == seq![a, b]);
    assert(remainder(s[0], a) == Some(b));
    assert(remainder(s[1], a) == Some(c));
    let g = group(s, init.taken, 0, a, 2);
    assert(group(s, init.taken, 0, a, 1) =~= Seq::<int>::empty());
    assert(g =~= seq![1int]);
    assert(group_terms(s, signs, 0, a, g) =~= seq![(false, b), (minus, c)]);
    assert(signed_level(seq![(false, b), (minus, c)]) =~= seq![(false, inner)]);
    assert(signed_tree(seq![(false, inner)]) == (false, inner));
    assert(signed_tree(seq![(false, b), (minus, c)]) == (false, inner));
    let first = factor_run(s, signs, 1);
    assert(first == factor_step(s, signs, init, 0));
    assert(first == grouped(s, signs, init, 0, a));
    assert(first.taken =~= seq![true, true]);
    assert(first.out =~= seq![(false, n)]);
    let last = factor_run(s, signs, 2);
    assert(last == factor_step(s, signs, first, 1));
    assert(last == first);
    assert(signed_tree(seq![(false, n)]) == (false, n));
}

/// Whether two trees are the same.
pub fn same_tree(a: &AstNode<u64>, b: &AstNode<u64>) -> (r: bool)
    ensures
        r == (a.view_node() == b.view_node()),
    decreases a,
{
    match (a, b) {
        (AstNode::Number(x), AstNode::Number(y)) => *x == *y,
        (AstNode::Identifier(x), AstNode::Identifier(y)) => *x == *y,
        (AstNode::StringLiteral(x), AstNode::StringLiteral(y)) => *x == *y,
        (
            AstNode::UnaryOperation { operation: o1, expression: e1 },
            AstNode::UnaryOperation { operation: o2, expression: e2 },
        ) => *o1 == *o2 && same_tree(e1, e2),
        (
            AstNode::BinaryOperation { operation: o1, left: l1, right: r1 },
            AstNode::BinaryOperation { operation: o2, left: l2, right: r2 },
        ) => *o1 == *o2 && same_tree(l1, l2) && same_tree(r1, r2),
        (
            AstNode::FunctionCall { name: n1, arguments: a1 },
            AstNode::FunctionCall { name: n2, arguments: a2 },
        ) => *n1 == *n2 && same_trees(a1, a2),
        (
            AstNode::ArrayAccess { identifier: n1, indices: a1 },
            AstNode::ArrayAccess { identifier: n2, indices: a2 },
        ) => *n1 == *n2 && same_trees(a1, a2),
        _ => false,
    }
}

fn same_trees(a: &Vec<AstNode<u64>>, b: &Vec<AstNode<u64>>) -> (r: bool)
    ensures
        r == (views(a@) == views(b@)),
    decreases a,
{
    proof {
        lemma_views_len(a@);
        lemma_views_len(b@);
    }
    if a.len() != b.len() {
        return false;
    }
    let mut k: usize = 0;
    while k < a.len()
        invariant
            k <= a.len() == b.len(),
            views(a@).len() == a.len() && views(b@).len() == b.len(),
            forall|j: int| 0 <= j < k ==> views(a@)[j] == views(b@)[j],
        decreases a.len() - k,
    {
        proof {
            lemma_views_index(a@, k as int);
            lemma_views_index(b@, k as int);
        }
        if !same_tree(&a[k], &b[k]) {
            return false;
        }
        k += 1;
    }
    assert(views(a@) =~= views(b@));
    true
}

pub proof fn lemma_terms_nonempty<N>(n: Node<N>, neg: bool)
    ensures
        terms(n, neg).len() >= 1,
    decreases n,
{
    if let Node::Binary(o, l, r) = n {
        lemma_terms_nonempty(*l, neg);
        lemma_terms_nonempty(*r, neg);
        lemma_terms_nonempty(*r, !neg);
    }
}

/// Signed terms with their trees taken by view.
pub open spec fn sviews(s: Seq<(bool, AstNode<u64>)>) -> Seq<(bool, Node<u64>)> {
    s.map_values(|t: (bool, AstNode<u64>)| (t.0, t.1.view_node()))
}

pub proof fn lemma_group_bound<N>(s: Seq<Node<N>>, taken: Seq<bool>, i: int, f: Node<N>, m: int)
    ensures
        forall|t: int| 0 <= t < group(s, taken, i, f, m).len() ==> i < #[trigger] group(s, taken, i, f, m)[t] < m,
    decreases m - i,
{
    if m > i + 1 {
        lemma_group_bound(s, taken, i, f, m - 1);
        let g = group(s, taken, i, f, m - 1);
        assert forall|t: int| 0 <= t < group(s, taken, i, f, m).len() implies i < #[trigger] group(s, taken, i, f, m)[t] < m by {
            if t < g.len() {
                assert(group(s, taken, i, f, m)[t] == g[t]);
            }
        }
    }
}

proof fn lemma_indices_bound<N>(ids: Seq<usize>, i: int, g: Seq<int>, len: int, s: Seq<Node<N>>, taken: Seq<bool>, f: Node<N>)
    requires
        g == group(s, taken, i, f, len),
        ids.map_values(|x: usize| x as int) == seq![i] + g,
        0 <= i < len,
    ensures
        forall|t: int| 0 <= t < ids.len() ==> #[trigger] ids[t] < len,
{
    lemma_group_bound(s, taken, i, f, len);
    assert(ids.map_values(|x: usize| x as int).len() == ids.len());
    assert forall|t: int| 0 <= t < ids.len() implies #[trigger] ids[t] < len by {
        assert(ids.map_values(|x: usize| x as int)[t] == ids[t] as int);
        if t > 0 {
            assert((seq![i] + g)[t] == g[t - 1]);
        }
    }
}

proof fn lemma_marked(taken: Seq<bool>, now: Seq<bool>, ids: Seq<usize>, i: int, g: Seq<int>)
    requires
        ids.map_values(|x: usize| x as int) == seq![i] + g,
        now.len() == taken.len(),
        forall|k: int| 0 <= k < taken.len() ==> #[trigger] now[k] == (taken[k] || ids.map_values(|x: usize| x as int).contains(k)),
    ensures
        now == marked(taken, i, g),
{
    let m = seq![i] + g;
    assert forall|k: int| 0 <= k < taken.len() implies #[trigger] now[k] == marked(taken, i, g)[k] by {
        if k == i {
            assert(m[0] == k);
        }
        if g.contains(k) {
            let w = choose|w: int| 0 <= w < g.len() && g[w] == k;
            assert(m[w + 1] == k);
        }
        if m.contains(k) {
            let w = choose|w: int| 0 <= w < m.len() && m[w] == k;
            if w > 0 {
                assert(g[w - 1] == k);
            }
        }
    }
    assert(now =~= marked(taken, i, g));
}

impl AbstractSyntaxTree<u64> {
    /// Appends the signed terms of `node` (see [`terms`]): the trees to
    /// `operands`, their signs to `signs`.
    fn local_collect_operands(
        node: AstNode<u64>,
        negated: bool,
        operands: &mut Vec<AstNode<u64>>,
        signs: &mut Vec<bool>,
    )
        ensures
            views(final(operands)@) == views(old(operands)@) + term_nodes(terms(node.view_node(), negated)),
            final(signs)@ == old(signs)@ + term_signs(terms(node.view_node(), negated)),
        decreases node,
    {
        let ghost n = node.view_node();
        let ghost start = views(operands@);
        let ghost start_signs = signs@;
        match node {
            AstNode::BinaryOperation { operation, left, right } => {
                if operation == BinaryOperationKind::Plus || operation == BinaryOperationKind::Minus {
                    let right_negated = if operation == BinaryOperationKind::Minus {
                        !negated
                    } else {
                        negated
                    };
                    let ghost lt = terms(left.view_node(), negated);
                    let ghost rt = terms(right.view_node(), right_negated);
                    Self::local_collect_operands(*left, negated, operands, signs);
                    Self::local_collect_operands(*right, right_negated, operands, signs);
                    assert(terms(n, negated) == lt + rt);
                    assert(term_nodes(lt + rt) =~= term_nodes(lt) + term_nodes(rt));
                    assert(term_signs(lt + rt) =~= term_signs(lt) + term_signs(rt));
                    assert(views(operands@) =~= start + term_nodes(lt + rt));
                    assert(signs@ =~= start_signs + term_signs(lt + rt));
                } else {
                    let whole = AstNode::BinaryOperation { operation, left, right };
                    proof {
                        lemma_views_push(operands@, whole);
                    }
                    operands.push(whole);
                    signs.push(negated);
                    assert(term_nodes(terms(n, negated)) =~= seq![n]);
                    assert(term_signs(terms(n, negated)) =~= seq![negated]);
                    assert(views(operands@) =~= start + seq![n]);
                    assert(signs@ =~= start_signs + seq![negated]);
                }
            },
            other => {
                proof {
                    lemma_views_push(operands@, other);
                }
                operands.push(other);
                signs.push(negated);
                assert(term_nodes(terms(n, negated)) =~= seq![n]);
                assert(term_signs(terms(n, negated)) =~= seq![negated]);
                assert(views(operands@) =~= start + seq![n]);
                assert(signs@ =~= start_signs + seq![negated]);
            },
        }
    }

    /// The factors of `node` (see [`factors`]).
    fn get_factors(node: &AstNode<u64>) -> (r: Vec<AstNode<u64>>)
        ensures
            views(r@) == factors(node.view_node()),
    {
        let mut out: Vec<AstNode<u64>> = Vec::new();
        match node {
            AstNode::BinaryOperation { operation: BinaryOperationKind::Multiply, left, right } => {
                let l = left.copy_tree();
                let r = right.copy_tree();
                proof {
                    lemma_views_push(out@, l);
                }
                out.push(l);
                proof {
                    lemma_views_push(out@, r);
                }
                out.push(r);
                assert(views(out@) =~= seq![l.view_node(), r.view_node()]);
            },
            _ => {
                assert(views(out@) =~= Seq::<Node<u64>>::empty());
            },
        }
        out
    }

    /// What is left of `node` without `factor` (see [`remainder`]).
    fn get_remainder(node: &AstNode<u64>, factor: &AstNode<u64>) -> (r: Option<AstNode<u64>>)
        ensures
            match r {
                Some(t) => remainder(node.view_node(), factor.view_node()) == Some(t.view_node()),
                None => remainder(node.view_node(), factor.view_node()) is None,
            },
    {
        match node {
            AstNode::BinaryOperation { operation: BinaryOperationKind::Multiply, left, right } => {
                if same_tree(left, factor) {
                    return Some(right.copy_tree());
                }
                if same_tree(right, factor) {
                    return Some(left.copy_tree());
                }
                None
            },
            _ => None,
        }
    }

    /// The group that term `i` leads with its factor `factor`: what its
    /// terms keep without the factor, each with its sign, term `i` first,
    /// and their indices.
    fn collect_group(
        summands: &Vec<AstNode<u64>>,
        signs: &Vec<bool>,
        processed: &Vec<bool>,
        i: usize,
        factor: &AstNode<u64>,
    ) -> (r: (Vec<(bool, AstNode<u64>)>, Vec<usize>))
        requires
            i < summands.len() == processed.len() == signs.len(),
            remainder(summands@[i as int].view_node(), factor.view_node()) is Some,
        ensures
            sviews(r.0@) == group_terms(
                views(summands@),
                signs@,
                i as int,
                factor.view_node(),
                group(views(summands@), processed@, i as int, factor.view_node(), summands.len() as int),
            ),
            r.1@.map_values(|k: usize| k as int) == seq![i as int] + group(
                views(summands@),
                processed@,
                i as int,
                factor.view_node(),
                summands.len() as int,
            ),
    {
        let ghost s = views(summands@);
        let ghost f = factor.view_node();
        proof {
            lemma_views_len(summands@);
            lemma_views_index(summands@, i as int);
        }
        let first = match Self::get_remainder(&summands[i], factor) {
            Some(t) => t,
            None => {
                assert(false);
                AstNode::Number(0)
            },
        };
        let mut found: Vec<(bool, AstNode<u64>)> = Vec::new();
        found.push((signs[i], first));
        let mut group_indices: Vec<usize> = Vec::new();
        group_indices.push(i);
        let mut j: usize = i + 1;
        proof {
            assert(group(s, processed@, i as int, f, j as int) =~= Seq::<int>::empty());
            assert(sviews(found@) =~= group_terms(s, signs@, i as int, f, Seq::<int>::empty()));
            assert(group_indices@.map_values(|k: usize| k as int) =~= seq![i as int] + Seq::<int>::empty());
        }
        while j < summands.len()
            invariant
                s == views(summands@),
                f == factor.view_node(),
                s.len() == summands.len() == processed.len() == signs.len(),
                i < j <= summands.len(),
                sviews(found@) == group_terms(s, signs@, i as int, f, group(s, processed@, i as int, f, j as int)),
                group_indices@.map_values(|k: usize| k as int) == seq![i as int] + group(
                    s,
                    processed@,
                    i as int,
                    f,
                    j as int,
                ),
            decreases summands.len() - j,
        {
            let ghost g = group(s, processed@, i as int, f, j as int);
            proof {
                lemma_views_index(summands@, j as int);
            }
            if !processed[j] {
                match Self::get_remainder(&summands[j], factor) {
                    Some(rest) => {
                        let ghost before_found = found@;
                        found.push((signs[j], rest));
                        proof {
                            assert(group(s, processed@, i as int, f, j + 1) == g.push(j as int));
                            assert(sviews(found@) =~= sviews(before_found).push((signs@[j as int], rest.view_node())));
                            assert(group_terms(s, signs@, i as int, f, g.push(j as int)) =~= group_terms(
                                s,
                                signs@,
                                i as int,
                                f,
                                g,
                            ).push((signs@[j as int], rest.view_node())));
                        }
                        let ghost before = group_indices@;
                        group_indices.push(j);
                        assert(group_indices@ == before.push(j));
                        assert(group_indices@.map_values(|k: usize| k as int) =~= before.map_values(|k: usize| k as int).push(
                            j as int,
                        ));
                        assert(group_indices@.map_values(|k: usize| k as int) =~= seq![i as int] + g.push(j as int));
                    },
                    None => {
                        assert(group(s, processed@, i as int, f, j + 1) == g);
                    },
                }
            } else {
                assert(group(s, processed@, i as int, f, j + 1) == g);
            }
            j += 1;
        }
        (found, group_indices)
    }

    /// Marks as taken every term of `indices`.
    fn mark_all(processed: &mut Vec<bool>, indices: &Vec<usize>)
        requires
            forall|t: int| 0 <= t < indices.len() ==> #[trigger] indices@[t] < old(processed).len(),
        ensures
            final(processed)@.len() == old(processed)@.len(),
            forall|k: int| 0 <= k < old(processed)@.len() ==> #[trigger] final(processed)@[k] == (old(processed)@[k]
                || indices@.map_values(|x: usize| x as int).contains(k)),
    {
        let ghost start = processed@;
        let ghost ids = indices@.map_values(|x: usize| x as int);
        let mut t: usize = 0;
        while t < indices.len()
            invariant
                start == old(processed)@,
                ids == indices@.map_values(|x: usize| x as int),
                t <= indices.len(),
                processed@.len() == start.len(),
                forall|u: int| 0 <= u < indices.len() ==> #[trigger] indices@[u] < start.len(),
                forall|k: int| 0 <= k < start.len() ==> #[trigger] processed@[k] == (start[k] || ids.take(t as int).contains(k)),
            decreases indices.len() - t,
        {
            let idx = indices[t];
            processed.set(idx, true);
            proof {
                assert forall|k: int| 0 <= k < start.len() implies #[trigger] processed@[k] == (start[k] || ids.take(
                    t + 1,
                ).contains(k)) by {
                    assert(ids.take(t + 1) =~= ids.take(t as int).push(idx as int));
                    if k == idx {
                        assert(ids.take(t + 1)[t as int] == k);
                    } else if ids.take(t as int).contains(k) {
                        let w = choose|w: int| 0 <= w < t && #[trigger] ids.take(t as int)[w] == k;
                        assert(ids.take(t + 1)[w] == k);
                    } else if ids.take(t + 1).contains(k) {
                        let w = choose|w: int| 0 <= w < t + 1 && #[trigger] ids.take(t + 1)[w] == k;
                        assert(w < t);
                        assert(ids.take(t as int)[w] == k);
                    }
                }
            }
            t += 1;
        }
        assert(ids.take(indices.len() as int) =~= ids);
    }

    /// Joins signed terms level by level (see [`signed_tree`]).
    fn build_signed_tree(items: Vec<(bool, AstNode<u64>)>) -> (r: (bool, AstNode<u64>))
        requires
            items.len() > 0,
        ensures
            (r.0, r.1.view_node()) == signed_tree(sviews(items@)),
    {
        let ghost goal = signed_tree(sviews(items@));
        let mut level = items;
        while level.len() > 1
            invariant
                level.len() >= 1,
                signed_tree(sviews(level@)) == goal,
            decreases level.len(),
        {
            let ghost lv = sviews(level@);
            let n = level.len();
            let mut rest = level;
            let mut next: Vec<(bool, AstNode<u64>)> = Vec::new();
            let mut k: usize = 0;
            assert(lv.skip(0) =~= lv);
            assert(rest.len() == n);
            assert(sviews(next@) =~= signed_paired(lv).take(0));
            while k < n / 2
                invariant
                    n == lv.len(),
                    n > 1,
                    k <= n / 2,
                    sviews(rest@) == lv.skip(2 * k),
                    rest.len() == n - 2 * k,
                    sviews(next@) == signed_paired(lv).take(k as int),
                decreases n / 2 - k,
            {
                let ghost r0 = rest@;
                assert(sviews(r0)[0] == lv[2 * k]);
                assert(sviews(r0)[1] == lv[2 * k + 1]);
                let (s1, x) = rest.remove(0);
                let (s2, y) = rest.remove(0);
                let operation = if s1 == s2 {
                    BinaryOperationKind::Plus
                } else {
                    BinaryOperationKind::Minus
                };
                let ghost before = next@;
                next.push((s1, AstNode::BinaryOperation { operation, left: Box::new(x), right: Box::new(y) }));
                proof {
                    assert(lv[2 * k] == (s1, x.view_node()));
                    assert(lv[2 * k + 1] == (s2, y.view_node()));
                    assert(sviews(next@) =~= sviews(before).push(joined(lv[2 * k], lv[2 * k + 1])));
                    assert(signed_paired(lv).take(k + 1) =~= signed_paired(lv).take(k as int).push(
                        signed_paired(lv)[k as int],
                    ));
                    assert(rest@ =~= r0.skip(2));
                    assert forall|j: int| 0 <= j < rest@.len() implies #[trigger] sviews(rest@)[j] == lv.skip(2 * (k + 1))[j] by {
                        assert(sviews(rest@)[j] == sviews(r0)[j + 2]);
                    }
                    assert(sviews(rest@) =~= lv.skip(2 * (k + 1)));
                }
                k += 1;
            }
            if n % 2 == 1 {
                let ghost r0 = rest@;
                assert(sviews(r0)[0] == lv[n - 1]);
                let last = rest.remove(0);
                let ghost before = next@;
                next.push(last);
                proof {
                    assert(lv[n - 1] == (last.0, last.1.view_node()));
                    assert(sviews(next@) =~= sviews(before).push(lv.last()));
                }
            }
            proof {
                assert(signed_paired(lv).take((n / 2) as int) =~= signed_paired(lv));
                assert(sviews(next@) =~= signed_level(lv));
            }
            level = next;
        }
        let r = level.remove(0);
        proof {
            assert(sviews(level@).len() == 0 || true);
        }
        r
    }

    /// Marks the terms of a group as taken and adds `factor` times their
    /// signed sum to the new terms.
    fn gather_group(
        processed: &mut Vec<bool>,
        new_summands: &mut Vec<(bool, AstNode<u64>)>,
        factor: &AstNode<u64>,
        group_terms_found: Vec<(bool, AstNode<u64>)>,
        group_indices: &Vec<usize>,
    )
        requires
            group_terms_found.len() > 0,
            forall|t: int| 0 <= t < group_indices.len() ==> #[trigger] group_indices@[t] < old(processed).len(),
        ensures
            final(processed)@.len() == old(processed)@.len(),
            forall|k: int| 0 <= k < old(processed)@.len() ==> #[trigger] final(processed)@[k] == (old(processed)@[k]
                || group_indices@.map_values(|x: usize| x as int).contains(k)),
            sviews(final(new_summands)@) == sviews(old(new_summands)@).push(
                (
                    signed_tree(sviews(group_terms_found@)).0,
                    Node::Binary(
                        BinaryOperationKind::Multiply,
                        Box::new(factor.view_node()),
                        Box::new(signed_tree(sviews(group_terms_found@)).1),
                    ),
                ),
            ),
    {
        Self::mark_all(processed, group_indices);
        let (sign, sum_of_terms) = Self::build_signed_tree(group_terms_found);
        let new_node = AstNode::BinaryOperation {
            operation: BinaryOperationKind::Multiply,
            left: Box::new(factor.copy_tree()),
            right: Box::new(sum_of_terms),
        };
        let ghost before = new_summands@;
        new_summands.push((sign, new_node));
        assert(sviews(new_summands@) =~= sviews(before).push((sign, new_node.view_node())));
    }

    /// One factoring at the root of `node` (see [`factored`]).
    fn perform_factoring(node: AstNode<u64>) -> (r: AstNode<u64>)
        ensures
            r.view_node() == factored(node.view_node()),
    {
        let ghost n = node.view_node();
        let is_additive = match &node {
            AstNode::BinaryOperation { operation, .. } => *operation == BinaryOperationKind::Plus || *operation
                == BinaryOperationKind::Minus,
            _ => false,
        };
        if !is_additive {
            return node;
        }
        let mut summands: Vec<AstNode<u64>> = Vec::new();
        let mut signs: Vec<bool> = Vec::new();
        assert(views(summands@) =~= Seq::<Node<u64>>::empty());
        assert(signs@ =~= Seq::<bool>::empty());
        Self::local_collect_operands(node, false, &mut summands, &mut signs);
        let ghost ts = terms(n, false);
        proof {
            assert(views(summands@) =~= term_nodes(ts));
            assert(signs@ =~= term_signs(ts));
            lemma_terms_nonempty(n, false);
            lemma_views_len(summands@);
        }
        let ghost s = views(summands@);
        let len = summands.len();
        let mut processed: Vec<bool> = Vec::new();
        while processed.len() < len
            invariant
                processed.len() <= len,
                forall|k: int| 0 <= k < processed.len() ==> !#[trigger] processed@[k],
            decreases len - processed.len(),
        {
            processed.push(false);
        }
        assert(processed@ =~= factor_run(s, signs@, 0).taken);
        let mut new_summands: Vec<(bool, AstNode<u64>)> = Vec::new();
        assert(sviews(new_summands@) =~= factor_run(s, signs@, 0).out);
        let mut i: usize = 0;
        while i < len
            invariant
                s == views(summands@),
                len == summands.len() == s.len() == signs.len(),
                1 <= len,
                i <= len,
                processed@ == factor_run(s, signs@, i as int).taken,
                sviews(new_summands@) == factor_run(s, signs@, i as int).out,
                processed@.len() == len,
                forall|k: int| 0 <= k < i ==> #[trigger] processed@[k],
                i > 0 ==> new_summands.len() > 0,
            decreases len - i,
        {
            let ghost st = factor_run(s, signs@, i as int);
            proof {
                lemma_views_index(summands@, i as int);
            }
            if !processed[i] {
                let factors_i = Self::get_factors(&summands[i]);
                proof {
                    lemma_views_len(factors_i@);
                }
                if factors_i.len() == 0 {
                    let c = summands[i].copy_tree();
                    let ghost before = new_summands@;
                    new_summands.push((signs[i], c));
                    assert(sviews(new_summands@) =~= sviews(before).push((signs@[i as int], s[i as int])));
                    processed.set(i, true);
                } else {
                    proof {
                        lemma_views_index(factors_i@, 0);
                        lemma_views_index(factors_i@, 1);
                    }
                    let ghost f0 = factors(s[i as int])[0];
                    let ghost g0 = group(s, st.taken, i as int, f0, len as int);
                    let (terms0, idx0) = Self::collect_group(&summands, &signs, &processed, i, &factors_i[0]);
                    if terms0.len() > 1 {
                        proof {
                            lemma_indices_bound(idx0@, i as int, g0, len as int, s, st.taken, f0);
                        }
                        Self::gather_group(&mut processed, &mut new_summands, &factors_i[0], terms0, &idx0);
                        proof {
                            lemma_marked(st.taken, processed@, idx0@, i as int, g0);
                        }
                    } else {
                        let ghost f1 = factors(s[i as int])[1];
                        let ghost g1 = group(s, st.taken, i as int, f1, len as int);
                        let (terms1, idx1) = Self::collect_group(&summands, &signs, &processed, i, &factors_i[1]);
                        if terms1.len() > 1 {
                            proof {
                                lemma_indices_bound(idx1@, i as int, g1, len as int, s, st.taken, f1);
                            }
                            Self::gather_group(&mut processed, &mut new_summands, &factors_i[1], terms1, &idx1);
                            proof {
                                lemma_marked(st.taken, processed@, idx1@, i as int, g1);
                            }
                        } else {
                            let c = summands[i].copy_tree();
                            let ghost before = new_summands@;
                            new_summands.push((signs[i], c));
                            assert(sviews(new_summands@) =~= sviews(before).push((signs@[i as int], s[i as int])));
                            processed.set(i, true);
                        }
                    }
                }
            }
            proof {
                assert(factor_run(s, signs@, i + 1) == factor_step(s, signs@, st, i as int));
                assert(processed@ =~= factor_run(s, signs@, i + 1).taken);
            }
            i += 1;
        }
        let mut k: usize = 0;
        while k < len
            invariant
                s == views(summands@),
                len == summands.len() == processed.len() == signs.len(),
                k <= len,
                forall|j: int| 0 <= j < len ==> #[trigger] processed@[j],
                sviews(new_summands@) == factor_run(s, signs@, len as int).out,
            decreases len - k,
        {
            if !processed[k] {
                let c = summands[k].copy_tree();
                new_summands.push((signs[k], c));
            }
            k += 1;
        }
        let (sign, tree) = Self::build_signed_tree(new_summands);
        if sign {
            AstNode::UnaryOperation { operation: UnaryOperationKind::Minus, expression: Box::new(tree) }
        } else {
            tree
        }
    }

    /// Every tree one factoring away from this one (see
    /// [`single_step_factorings`]).
    pub fn get_all_single_step_factorings(&self) -> (r: Vec<AbstractSyntaxTree<u64>>)
        ensures
            r@.len() == single_step_factorings(self.peek.view_node()).len(),
            forall|k: int| 0 <= k < r@.len() ==> #[trigger] r@[k].peek.view_node() == single_step_factorings(
                self.peek.view_node(),
            )[k],
    {
        let ghost n = self.peek.view_node();
        let mut factorable_nodes_paths: Vec<Vec<u8>> = Vec::new();
        let mut path: Vec<u8> = Vec::new();
        assert(path_views(factorable_nodes_paths@) =~= Seq::<Seq<u8>>::empty());
        Self::find_factorable_nodes_recursive(&self.peek, &mut path, &mut factorable_nodes_paths);
        assert(path_views(factorable_nodes_paths@) =~= factorable_paths(n, Seq::empty()));
        let ghost paths = path_views(factorable_nodes_paths@);
        let mut all_forms: Vec<AbstractSyntaxTree<u64>> = Vec::new();
        let mut k: usize = 0;
        assert(paths.take(0) =~= Seq::<Seq<u8>>::empty());
        while k < factorable_nodes_paths.len()
            invariant
                n == self.peek.view_node(),
                paths == path_views(factorable_nodes_paths@),
                paths == factorable_paths(n, Seq::empty()),
                k <= factorable_nodes_paths.len(),
                all_forms@.len() == factorings_along(n, paths.take(k as int)).len(),
                forall|j: int| 0 <= j < all_forms@.len() ==> #[trigger] all_forms@[j].peek.view_node()
                    == factorings_along(n, paths.take(k as int))[j],
            decreases factorable_nodes_paths.len() - k,
        {
            let ghost before = factorings_along(n, paths.take(k as int));
            proof {
                assert(paths.take(k + 1).drop_last() =~= paths.take(k as int));
                assert(paths.take(k + 1).last() == paths[k as int]);
            }
            let mut new_tree = AbstractSyntaxTree::from_node(self.peek.copy_tree());
            let changed = match Self::get_node_mut_by_path(&mut new_tree.peek, factorable_nodes_paths[k].as_slice()) {
                Some(target_node) => {
                    let original_node = target_node.copy_tree();
                    *target_node = Self::perform_factoring(target_node.copy_tree());
                    !same_tree(&original_node, target_node)
                },
                None => false,
            };
            if changed {
                all_forms.push(new_tree);
            }
            k += 1;
        }
        assert(paths.take(factorable_nodes_paths.len() as int) =~= paths);
        all_forms
    }

    /// Appends the paths of the sums and differences of `node` (see
    /// [`factorable_paths`]) from `path`, which it leaves as it found it.
    fn find_factorable_nodes_recursive(node: &AstNode<u64>, path: &mut Vec<u8>, paths: &mut Vec<Vec<u8>>)
        ensures
            final(path)@ == old(path)@,
            path_views(final(paths)@) == path_views(old(paths)@) + factorable_paths(node.view_node(), old(path)@),
        decreases node,
    {
        let ghost prefix = path@;
        let ghost start = path_views(paths@);
        let here = match node {
            AstNode::BinaryOperation { operation: op, .. } => *op == BinaryOperationKind::Plus || *op
                == BinaryOperationKind::Minus,
            _ => false,
        };
        if here {
            let copy = copy_path(path);
            paths.push(copy);
        }
        let ghost mid = path_views(paths@);
        assert(mid =~= start + (if here {
            seq![prefix]
        } else {
            Seq::<Seq<u8>>::empty()
        }));
        match node {
            AstNode::BinaryOperation { left, right, .. } => {
                path.push(0);
                Self::find_factorable_nodes_recursive(left, path, paths);
                path.pop();
                assert(path@ =~= prefix);
                path.push(1);
                Self::find_factorable_nodes_recursive(right, path, paths);
                path.pop();
                assert(path@ =~= prefix);
            },
            AstNode::UnaryOperation { expression, .. } => {
                path.push(2);
                Self::find_factorable_nodes_recursive(expression, path, paths);
                path.pop();
                assert(path@ =~= prefix);
            },
            _ => {},
        }
        assert(path_views(paths@) =~= start + factorable_paths(node.view_node(), prefix));
    }
}

} // verus!
