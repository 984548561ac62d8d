//! The equivalent forms of an expression: the forms reached from it by
//! expanding brackets one step at a time, then the forms reached by
//! factoring from the first form where nothing is left to expand. Numbers
//! are held as `u64` keys; two forms count as one when their canonical
//! strings, with each key written by its text, agree.
use vstd::prelude::*;
use std::collections::VecDeque;
use crate::associative::{
    factored, terms, term_nodes, term_signs, factors, remainder, group, group_terms, factor_run, factor_step, grouped,
    single_step_factorings, factorings_along, factorable_paths, Factoring, signed_tree, signed_level, signed_paired,
};
use crate::ast::{AbstractSyntaxTree, AstNode, Node, views, lemma_views_len, lemma_views_index};
use crate::laws::{expanded, expanded_left, expanded_at, subtree_at, replaced_at, single_step_expansions};
use crate::printer::canonical;

verus! {

/// The tree with each number key written by its text.
pub open spec fn with_texts(n: Node<u64>, texts: Seq<String>) -> Node<String>
    decreases n,
{
    match n {
        Node::Number(k) => Node::Number(texts[k as int]),
        Node::Identifier(s) => Node::Identifier(s),
        Node::StringLiteral(s) => Node::StringLiteral(s),
        Node::Unary(op, e) => Node::Unary(op, Box::new(with_texts(*e, texts))),
        Node::Binary(op, l, r) => Node::Binary(op, Box::new(with_texts(*l, texts)), Box::new(with_texts(*r, texts))),
        Node::Call(name, args) => Node::Call(name, with_texts_all(args, texts)),
        Node::Access(name, idx) => Node::Access(name, with_texts_all(idx, texts)),
    }
}

/// Each tree of `s` with its number keys written by their texts.
pub open spec fn with_texts_all(s: Seq<Node<u64>>, texts: Seq<String>) -> Seq<Node<String>>
    decreases s,
{
    if s.len() == 0 {
        Seq::empty()
    } else {
        with_texts_all(s.drop_last(), texts).push(with_texts(s.last(), texts))
    }
}

/// Every number key of `n` is below `m`.
pub open spec fn keys_below(n: Node<u64>, m: int) -> bool
    decreases n,
{
    match n {
        Node::Number(k) => k < m,
        Node::Unary(_, e) => keys_below(*e, m),
        Node::Binary(_, l, r) => keys_below(*l, m) && keys_below(*r, m),
        Node::Call(_, args) => forall|i: int| 0 <= i < args.len() ==> keys_below(#[trigger] args[i], m),
        Node::Access(_, idx) => forall|i: int| 0 <= i < idx.len() ==> keys_below(#[trigger] idx[i], m),
        _ => true,
    }
}

/// Every number key of the trees of `s` is below `m`.
pub open spec fn all_keys_below(s: Seq<Node<u64>>, m: int) -> bool {
    forall|i: int| 0 <= i < s.len() ==> keys_below(#[trigger] s[i], m)
}

/// The text by which a form is known.
pub open spec fn form_key(n: Node<u64>, texts: Seq<String>) -> Seq<char> {
    canonical(with_texts(n, texts))
}

proof fn lemma_subtree_keys(n: Node<u64>, path: Seq<u8>, m: int)
    requires
        keys_below(n, m),
        subtree_at(n, path) is Some,
    ensures
        keys_below(subtree_at(n, path)->0, m),
    decreases path.len(),
{
    if path.len() > 0 {
        match n {
            Node::Binary(_, l, r) => {
                lemma_subtree_keys(if path[0] == 0 { *l } else { *r }, path.drop_first(), m);
            },
            Node::Unary(_, e) => {
                lemma_subtree_keys(*e, path.drop_first(), m);
            },
            _ => {},
        }
    }
}

proof fn lemma_replaced_keys(n: Node<u64>, path: Seq<u8>, new: Node<u64>, m: int)
    requires
        keys_below(n, m),
        keys_below(new, m),
    ensures
        keys_below(replaced_at(n, path, new), m),
    decreases path.len(),
{
    if path.len() > 0 {
        match n {
            Node::Binary(_, l, r) => {
                if path[0] == 0 {
                    lemma_replaced_keys(*l, path.drop_first(), new, m);
                } else {
                    lemma_replaced_keys(*r, path.drop_first(), new, m);
                }
            },
            Node::Unary(_, e) => {
                lemma_replaced_keys(*e, path.drop_first(), new, m);
            },
            _ => {},
        }
    }
}

proof fn lemma_expanded_keys(n: Node<u64>, m: int)
    requires
        keys_below(n, m),
    ensures
        keys_below(expanded(n), m),
{
    lemma_expanded_left_keys(n, m);
    if let Node::Binary(crate::operations::BinaryOperationKind::Multiply, a, r) = n {
        assert(keys_below(*a, m) && keys_below(*r, m));
        if let Node::Binary(op, b, c) = *r {
            if op == crate::operations::BinaryOperationKind::Plus || op == crate::operations::BinaryOperationKind::Minus {
                let ab = Node::Binary(crate::operations::BinaryOperationKind::Multiply, a, b);
                let ac = Node::Binary(crate::operations::BinaryOperationKind::Multiply, a, c);
                assert(keys_below(*a, m) && keys_below(*b, m) && keys_below(*c, m));
                assert(keys_below(ab, m));
                assert(keys_below(ac, m));
                assert(expanded(n) == Node::Binary(op, Box::new(ab), Box::new(ac)));
            }
        }
    }
}

proof fn lemma_expanded_left_keys(n: Node<u64>, m: int)
    requires
        keys_below(n, m),
    ensures
        keys_below(expanded_left(n), m),
{
    if let Node::Binary(crate::operations::BinaryOperationKind::Multiply, l, c) = n {
        assert(keys_below(*l, m) && keys_below(*c, m));
        if let Node::Binary(op, a, b) = *l {
            if op == crate::operations::BinaryOperationKind::Plus || op == crate::operations::BinaryOperationKind::Minus {
                let ac = Node::Binary(crate::operations::BinaryOperationKind::Multiply, a, c);
                let bc = Node::Binary(crate::operations::BinaryOperationKind::Multiply, b, c);
                assert(keys_below(*a, m) && keys_below(*b, m) && keys_below(*c, m));
                assert(keys_below(ac, m));
                assert(keys_below(bc, m));
                assert(expanded_left(n) == Node::Binary(op, Box::new(ac), Box::new(bc)));
            }
        }
    }
}

/// Every tree one distributive step away keeps the keys below `m`.
proof fn lemma_expansions_keys(n: Node<u64>, m: int)
    requires
        keys_below(n, m),
    ensures
        all_keys_below(single_step_expansions(n), m),
{
    let s = single_step_expansions(n);
    assert forall|i: int| 0 <= i < s.len() implies keys_below(#[trigger] s[i], m) by {
        let p = crate::laws::expandable_paths(n, Seq::empty())[i];
        assert(s[i] == expanded_at(n, p));
        if subtree_at(n, p) is Some {
            lemma_subtree_keys(n, p, m);
            lemma_expanded_keys(subtree_at(n, p)->0, m);
            lemma_replaced_keys(n, p, expanded(subtree_at(n, p)->0), m);
        }
    }
}

/// Every number key of the trees of signed terms is below `m`.
pub open spec fn signed_keys_below(q: Seq<(bool, Node<u64>)>, m: int) -> bool {
    forall|i: int| 0 <= i < q.len() ==> keys_below(#[trigger] q[i].1, m)
}

proof fn lemma_terms_keys(n: Node<u64>, neg: bool, m: int)
    requires
        keys_below(n, m),
    ensures
        signed_keys_below(terms(n, neg), m),
    decreases n,
{
    if let Node::Binary(o, l, r) = n {
        if o == crate::operations::BinaryOperationKind::Plus || o == crate::operations::BinaryOperationKind::Minus {
            let rn = if o == crate::operations::BinaryOperationKind::Minus { !neg } else { neg };
            lemma_terms_keys(*l, neg, m);
            lemma_terms_keys(*r, rn, m);
            let t = terms(n, neg);
            let lt = terms(*l, neg);
            let rt = terms(*r, rn);
            assert(t == lt + rt);
            assert forall|i: int| 0 <= i < t.len() implies keys_below(#[trigger] t[i].1, m) by {
                if i < lt.len() {
                    assert(t[i] == lt[i]);
                } else {
                    assert(t[i] == rt[i - lt.len()]);
                }
            }
        }
    }
}

proof fn lemma_signed_keys(q: Seq<(bool, Node<u64>)>, m: int)
    requires
        q.len() >= 1,
        signed_keys_below(q, m),
    ensures
        keys_below(signed_tree(q).1, m),
    decreases q.len(),
{
    if q.len() > 1 {
        let nq = signed_level(q);
        assert forall|i: int| 0 <= i < nq.len() implies keys_below(#[trigger] nq[i].1, m) by {
            if i < q.len() / 2 {
                assert(nq[i] == signed_paired(q)[i]);
                assert(keys_below(q[2 * i].1, m));
                assert(keys_below(q[2 * i + 1].1, m));
            } else {
                assert(nq[i] == q[q.len() - 1]);
            }
        }
        lemma_signed_keys(nq, m);
    } else {
        assert(keys_below(q[0].1, m));
    }
}

proof fn lemma_group_keys(s: Seq<Node<u64>>, signs: Seq<bool>, st: Factoring<u64>, i: int, f: Node<u64>, m: int)
    requires
        0 <= i < s.len(),
        all_keys_below(s, m),
        keys_below(f, m),
        remainder(s[i], f) is Some,
        st.taken.len() == s.len(),
        signed_keys_below(st.out, m),
    ensures
        signed_keys_below(grouped(s, signs, st, i, f).out, m),
{
    let g = group(s, st.taken, i, f, s.len() as int);
    crate::associative::lemma_group_bound(s, st.taken, i, f, s.len() as int);
    let gt = group_terms(s, signs, i, f, g);
    assert forall|k: int| 0 <= k < gt.len() implies keys_below(#[trigger] gt[k].1, m) by {
        let j = if k == 0 { i } else { g[k - 1] };
        assert(remainder(s[j], f) is Some) by {
            if k > 0 {
                lemma_group_members(s, st.taken, i, f, s.len() as int, k - 1);
            }
        }
        assert(keys_below(s[j], m));
        assert(gt[k].1 == remainder(s[j], f)->0);
    }
    lemma_signed_keys(gt, m);
    let out = grouped(s, signs, st, i, f).out;
    assert forall|k: int| 0 <= k < out.len() implies keys_below(#[trigger] out[k].1, m) by {
        if k < st.out.len() {
            assert(out[k] == st.out[k]);
        }
    }
}

proof fn lemma_group_members(
    s: Seq<Node<u64>>,
    taken: Seq<bool>,
    i: int,
    f: Node<u64>,
    mm: int,
    t: int,
)
    requires
        0 <= t < group(s, taken, i, f, mm).len(),
    ensures
        remainder(s[group(s, taken, i, f, mm)[t]], f) is Some,
    decreases mm - i,
{
    if mm > i + 1 {
        let prev = group(s, taken, i, f, mm - 1);
        if t < prev.len() {
            lemma_group_members(s, taken, i, f, mm - 1, t);
            if !taken[mm - 1] && remainder(s[mm - 1], f) is Some {
                assert(group(s, taken, i, f, mm)[t] == prev[t]);
            }
        }
    }
}

proof fn lemma_factor_run_keys(s: Seq<Node<u64>>, signs: Seq<bool>, k: int, m: int)
    requires
        0 <= k <= s.len(),
        all_keys_below(s, m),
    ensures
        signed_keys_below(factor_run(s, signs, k).out, m),
        factor_run(s, signs, k).taken.len() == s.len(),
    decreases k,
{
    if k > 0 {
        lemma_factor_run_keys(s, signs, k - 1, m);
        let st = factor_run(s, signs, k - 1);
        let i = k - 1;
        assert(factor_run(s, signs, k) == factor_step(s, signs, st, i));
        assert(keys_below(s[i], m));
        if !st.taken[i] {
            let f0 = factors(s[i])[0];
            let f1 = factors(s[i])[1];
            if factors(s[i]).len() != 0 {
                assert(keys_below(f0, m) && keys_below(f1, m));
            }
            if factors(s[i]).len() != 0 && group(s, st.taken, i, f0, s.len() as int).len() > 0 {
                lemma_group_keys(s, signs, st, i, f0, m);
            } else if factors(s[i]).len() != 0 && group(s, st.taken, i, f1, s.len() as int).len() > 0 {
                lemma_group_keys(s, signs, st, i, f1, m);
            } else {
                let r = factor_step(s, signs, st, i);
                assert forall|j: int| 0 <= j < r.out.len() implies keys_below(#[trigger] r.out[j].1, m) by {
                    if j < st.out.len() {
                        assert(r.out[j] == st.out[j]);
                    }
                }
            }
        }
    }
}

proof fn lemma_factored_keys(n: Node<u64>, m: int)
    requires
        keys_below(n, m),
    ensures
        keys_below(factored(n), m),
{
    if let Node::Binary(op, _, _) = n {
        if op == crate::operations::BinaryOperationKind::Plus || op == crate::operations::BinaryOperationKind::Minus {
            let ts = terms(n, false);
            let s = term_nodes(ts);
            let signs = term_signs(ts);
            lemma_terms_keys(n, false, m);
            crate::associative::lemma_terms_nonempty(n, false);
            assert forall|i: int| 0 <= i < s.len() implies keys_below(#[trigger] s[i], m) by {
                assert(s[i] == ts[i].1);
            }
            lemma_factor_run_keys(s, signs, s.len() as int, m);
            lemma_factor_run_out_nonempty(s, signs);
            lemma_signed_keys(factor_run(s, signs, s.len() as int).out, m);
        }
    }
}

proof fn lemma_factor_run_out_nonempty(s: Seq<Node<u64>>, signs: Seq<bool>)
    requires
        s.len() >= 1,
    ensures
        factor_run(s, signs, s.len() as int).out.len() >= 1,
{
    lemma_factor_run_grows(s, signs, 1, s.len() as int);
    let init = factor_run(s, signs, 0);
    assert(!init.taken[0]);
    assert(factor_run(s, signs, 1) == factor_step(s, signs, init, 0));
}

proof fn lemma_factor_run_grows(s: Seq<Node<u64>>, signs: Seq<bool>, j: int, k: int)
    requires
        0 <= j <= k <= s.len(),
    ensures
        factor_run(s, signs, j).out.len() <= factor_run(s, signs, k).out.len(),
    decreases k - j,
{
    if j < k {
        lemma_factor_run_grows(s, signs, j, k - 1);
    }
}

/// Every tree one factoring away keeps the keys below `m`.
proof fn lemma_factorings_keys(n: Node<u64>, m: int)
    requires
        keys_below(n, m),
    ensures
        all_keys_below(single_step_factorings(n), m),
{
    lemma_factorings_along_keys(n, factorable_paths(n, Seq::empty()), m);
}

proof fn lemma_factorings_along_keys(n: Node<u64>, paths: Seq<Seq<u8>>, m: int)
    requires
        keys_below(n, m),
    ensures
        all_keys_below(factorings_along(n, paths), m),
    decreases paths.len(),
{
    if paths.len() > 0 {
        lemma_factorings_along_keys(n, paths.drop_last(), m);
        let before = factorings_along(n, paths.drop_last());
        let r = factorings_along(n, paths);
        let p = paths.last();
        if subtree_at(n, p) is Some {
            lemma_subtree_keys(n, p, m);
            lemma_factored_keys(subtree_at(n, p)->0, m);
            lemma_replaced_keys(n, p, factored(subtree_at(n, p)->0), m);
        }
        assert forall|i: int| 0 <= i < r.len() implies keys_below(#[trigger] r[i], m) by {
            if i < before.len() {
                assert(r[i] == before[i]);
            }
        }
    }
}

/// Where the search stands: the forms found, in order; the keys seen; the
/// forms still to explore; and the first form found with nothing left to
/// expand.
pub struct Search {
    pub forms: Seq<Node<u64>>,
    pub visited: Seq<Seq<char>>,
    pub queue: Seq<Node<u64>>,
    pub fully: Option<Node<u64>>,
}

/// Meeting `steps` in order: each form whose key was not seen yet is
/// recorded and queued.
pub open spec fn absorb(st: Search, steps: Seq<Node<u64>>, texts: Seq<String>) -> Search
    decreases steps.len(),
{
    if steps.len() == 0 {
        st
    } else {
        let e = steps[0];
        let k = form_key(e, texts);
        let next = if st.visited.contains(k) {
            st
        } else {
            Search { forms: st.forms.push(e), visited: st.visited.push(k), queue: st.queue.push(e), fully: st.fully }
        };
        absorb(next, steps.drop_first(), texts)
    }
}

pub proof fn lemma_absorb_growth(st: Search, steps: Seq<Node<u64>>, texts: Seq<String>)
    ensures
        absorb(st, steps, texts).visited.len() >= st.visited.len(),
        absorb(st, steps, texts).visited.len() - st.visited.len() == absorb(st, steps, texts).queue.len()
            - st.queue.len(),
        absorb(st, steps, texts).fully == st.fully,
    decreases steps.len(),
{
    if steps.len() > 0 {
        let e = steps[0];
        let k = form_key(e, texts);
        let next = if st.visited.contains(k) {
            st
        } else {
            Search { forms: st.forms.push(e), visited: st.visited.push(k), queue: st.queue.push(e), fully: st.fully }
        };
        lemma_absorb_growth(next, steps.drop_first(), texts);
    }
}

/// Exploring by expansion, breadth first, until no form is left to explore.
pub open spec fn expansion_search(st: Search, texts: Seq<String>) -> Search
    decreases usize::MAX - st.visited.len(), st.queue.len(),
{
    if st.queue.len() == 0 || st.visited.len() > usize::MAX {
        st
    } else {
        let current = st.queue[0];
        let steps = single_step_expansions(current);
        let popped = Search {
            queue: st.queue.drop_first(),
            fully: if steps.len() == 0 && st.fully is None {
                Some(current)
            } else {
                st.fully
            },
            ..st
        };
        let next = absorb(popped, steps, texts);
        proof {
            lemma_absorb_growth(popped, steps, texts);
        }
        if next.visited.len() <= usize::MAX {
            expansion_search(next, texts)
        } else {
            next
        }
    }
}

/// Exploring by factoring, breadth first, until no form is left to explore.
pub open spec fn factoring_search(st: Search, texts: Seq<String>) -> Search
    decreases usize::MAX - st.visited.len(), st.queue.len(),
{
    if st.queue.len() == 0 || st.visited.len() > usize::MAX {
        st
    } else {
        let popped = Search { queue: st.queue.drop_first(), ..st };
        let steps = single_step_factorings(st.queue[0]);
        let next = absorb(popped, steps, texts);
        proof {
            lemma_absorb_growth(popped, steps, texts);
        }
        if next.visited.len() <= usize::MAX {
            factoring_search(next, texts)
        } else {
            next
        }
    }
}

/// The equivalent forms of `n`: `n` and every form that expanding reaches
/// from it, then every form that factoring reaches from the first form found
/// with nothing left to expand, each once, in the order found.
pub open spec fn equivalent_forms(n: Node<u64>, texts: Seq<String>) -> Seq<Node<u64>> {
    let init = Search { forms: seq![n], visited: seq![form_key(n, texts)], queue: seq![n], fully: None };
    let expanded = expansion_search(init, texts);
    match expanded.fully {
        None => expanded.forms,
        Some(start) => factoring_search(Search { queue: seq![start], ..expanded }, texts).forms,
    }
}

/// The forms found so far are known by the keys seen, in order, and no key
/// is seen twice.
pub open spec fn keyed_once(st: Search, texts: Seq<String>, first: Node<u64>) -> bool {
    &&& st.forms.len() == st.visited.len()
    &&& st.forms.len() >= 1
    &&& st.forms[0] == first
    &&& forall|i: int| 0 <= i < st.forms.len() ==> form_key(#[trigger] st.forms[i], texts) == st.visited[i]
    &&& st.visited.no_duplicates()
}

proof fn lemma_absorb_keyed(st: Search, steps: Seq<Node<u64>>, texts: Seq<String>, first: Node<u64>)
    requires
        keyed_once(st, texts, first),
    ensures
        keyed_once(absorb(st, steps, texts), texts, first),
    decreases steps.len(),
{
    if steps.len() > 0 {
        let e = steps[0];
        let k = form_key(e, texts);
        if !st.visited.contains(k) {
            let next = Search {
                forms: st.forms.push(e),
                visited: st.visited.push(k),
                queue: st.queue.push(e),
                fully: st.fully,
            };
            assert forall|i: int| 0 <= i < next.forms.len() implies form_key(#[trigger] next.forms[i], texts)
                == next.visited[i] by {
                if i < st.forms.len() {
                    assert(next.forms[i] == st.forms[i]);
                    assert(next.visited[i] == st.visited[i]);
                }
            }
            assert forall|i: int, j: int| 0 <= i < next.visited.len() && 0 <= j < next.visited.len() && i != j
                implies next.visited[i] != next.visited[j] by {
                if i < st.visited.len() && j < st.visited.len() {
                } else if i < st.visited.len() {
                    assert(next.visited[i] == st.visited[i]);
                } else {
                    assert(next.visited[j] == st.visited[j]);
                }
            }
            lemma_absorb_keyed(next, steps.drop_first(), texts, first);
        } else {
            lemma_absorb_keyed(st, steps.drop_first(), texts, first);
        }
    }
}

pub proof fn lemma_expansion_keyed(st: Search, texts: Seq<String>, first: Node<u64>)
    requires
        keyed_once(st, texts, first),
    ensures
        keyed_once(expansion_search(st, texts), texts, first),
    decreases usize::MAX - st.visited.len(), st.queue.len(),
{
    if !(st.queue.len() == 0 || st.visited.len() > usize::MAX) {
        let current = st.queue[0];
        let steps = single_step_expansions(current);
        let popped = Search {
            queue: st.queue.drop_first(),
            fully: if steps.len() == 0 && st.fully is None {
                Some(current)
            } else {
                st.fully
            },
            ..st
        };
        lemma_absorb_keyed(popped, steps, texts, first);
        lemma_absorb_growth(popped, steps, texts);
        let next = absorb(popped, steps, texts);
        if next.visited.len() <= usize::MAX {
            lemma_expansion_keyed(next, texts, first);
        }
    }
}

pub proof fn lemma_factoring_keyed(st: Search, texts: Seq<String>, first: Node<u64>)
    requires
        keyed_once(st, texts, first),
    ensures
        keyed_once(factoring_search(st, texts), texts, first),
    decreases usize::MAX - st.visited.len(), st.queue.len(),
{
    if !(st.queue.len() == 0 || st.visited.len() > usize::MAX) {
        let popped = Search { queue: st.queue.drop_first(), ..st };
        let steps = single_step_factorings(st.queue[0]);
        lemma_absorb_keyed(popped, steps, texts, first);
        lemma_absorb_growth(popped, steps, texts);
        let next = absorb(popped, steps, texts);
        if next.visited.len() <= usize::MAX {
            lemma_factoring_keyed(next, texts, first);
        }
    }
}

/// The search lists each form once: the first form is the tree itself, and
/// no two forms listed have the same key.
pub proof fn law_forms_listed_once(n: Node<u64>, texts: Seq<String>)
    ensures
        equivalent_forms(n, texts).len() >= 1,
        equivalent_forms(n, texts)[0] == n,
        forall|i: int, j: int|
            0 <= i < j < equivalent_forms(n, texts).len() ==> form_key(#[trigger] equivalent_forms(n, texts)[i], texts)
                != form_key(#[trigger] equivalent_forms(n, texts)[j], texts),
{
    let init = Search { forms: seq![n], visited: seq![form_key(n, texts)], queue: seq![n], fully: None };
    assert(keyed_once(init, texts, n));
    lemma_expansion_keyed(init, texts, n);
    let expanded = expansion_search(init, texts);
    let result = match expanded.fully {
        None => expanded,
        Some(start) => {
            lemma_factoring_keyed(Search { queue: seq![start], ..expanded }, texts, n);
            factoring_search(Search { queue: seq![start], ..expanded }, texts)
        },
    };
    assert(keyed_once(result, texts, n));
    assert(result.forms == equivalent_forms(n, texts));
    assert forall|i: int, j: int| 0 <= i < j < result.forms.len() implies form_key(#[trigger] result.forms[i], texts)
        != form_key(#[trigger] result.forms[j], texts) by {
        assert(result.visited[i] != result.visited[j]);
    }
}

pub open spec fn tree_views(s: Seq<AbstractSyntaxTree<u64>>) -> Seq<Node<u64>> {
    s.map_values(|t: AbstractSyntaxTree<u64>| t.peek.view_node())
}

pub open spec fn text_views(s: Seq<String>) -> Seq<Seq<char>> {
    s.map_values(|t: String| t@)
}

/// `node` with each number key written by its text.
fn texted(node: &AstNode<u64>, texts: &Vec<String>) -> (r: AstNode<String>)
    requires
        keys_below(node.view_node(), texts.len() as int),
    ensures
        r.view_node() == with_texts(node.view_node(), texts@),
    decreases node,
{
    match node {
        AstNode::Number(k) => AstNode::Number(texts[*k as usize].clone()),
        AstNode::Identifier(s) => AstNode::Identifier(s.clone()),
        AstNode::StringLiteral(s) => AstNode::StringLiteral(s.clone()),
        AstNode::UnaryOperation { operation, expression } => AstNode::UnaryOperation {
            operation: *operation,
            expression: Box::new(texted(expression, texts)),
        },
        AstNode::BinaryOperation { operation, left, right } => AstNode::BinaryOperation {
            operation: *operation,
            left: Box::new(texted(left, texts)),
            right: Box::new(texted(right, texts)),
        },
        AstNode::FunctionCall { name, arguments } => {
            proof {
                lemma_views_len(arguments@);
            }
            AstNode::FunctionCall { name: name.clone(), arguments: texted_all(arguments, texts) }
        },
        AstNode::ArrayAccess { identifier, indices } => {
            proof {
                lemma_views_len(indices@);
            }
            AstNode::ArrayAccess { identifier: identifier.clone(), indices: texted_all(indices, texts) }
        },
    }
}

fn texted_all(items: &Vec<AstNode<u64>>, texts: &Vec<String>) -> (r: Vec<AstNode<String>>)
    requires
        forall|i: int| 0 <= i < items@.len() ==> keys_below(#[trigger] views(items@)[i], texts.len() as int),
    ensures
        views(r@) == with_texts_all(views(items@), texts@),
    decreases items,
{
    proof {
        lemma_views_len(items@);
    }
    let mut out: Vec<AstNode<String>> = Vec::new();
    let mut k: usize = 0;
    assert(views(items@).take(0) =~= Seq::<Node<u64>>::empty());
    assert(views(out@) =~= Seq::<Node<String>>::empty());
    while k < items.len()
        invariant
            k <= items.len(),
            views(items@).len() == items@.len(),
            forall|i: int| 0 <= i < items@.len() ==> keys_below(#[trigger] views(items@)[i], texts.len() as int),
            views(out@) == with_texts_all(views(items@).take(k as int), texts@),
        decreases items.len() - k,
    {
        proof {
            lemma_views_index(items@, k as int);
        }
        let t = texted(&items[k], texts);
        proof {
            crate::ast::lemma_views_push(out@, t);
            assert(views(items@).take(k + 1).drop_last() =~= views(items@).take(k as int));
        }
        out.push(t);
        k += 1;
    }
    assert(views(items@).take(items.len() as int) =~= views(items@));
    out
}

/// The key of a form (see [`form_key`]).
fn key_of(node: &AstNode<u64>, texts: &Vec<String>) -> (r: String)
    requires
        keys_below(node.view_node(), texts.len() as int),
    ensures
        r@ == form_key(node.view_node(), texts@),
{
    AbstractSyntaxTree::from_node(texted(node, texts)).to_canonical_string()
}

/// Whether `key` was seen.
fn seen(visited: &Vec<String>, key: &String) -> (r: bool)
    ensures
        r == text_views(visited@).contains(key@),
{
    let ghost vs = text_views(visited@);
    let mut k: usize = 0;
    while k < visited.len()
        invariant
            vs == text_views(visited@),
            k <= visited.len(),
            forall|j: int| 0 <= j < k ==> vs[j] != key@,
        decreases visited.len() - k,
    {
        if visited[k] == *key {
            assert(vs[k as int] == key@);
            return true;
        }
        k += 1;
    }
    false
}

proof fn lemma_absorb_keys(st: Search, steps: Seq<Node<u64>>, texts: Seq<String>, m: int)
    requires
        all_keys_below(st.queue, m),
        all_keys_below(steps, m),
    ensures
        all_keys_below(absorb(st, steps, texts).queue, m),
    decreases steps.len(),
{
    if steps.len() > 0 {
        let e = steps[0];
        let k = form_key(e, texts);
        let next = if st.visited.contains(k) {
            st
        } else {
            Search { forms: st.forms.push(e), visited: st.visited.push(k), queue: st.queue.push(e), fully: st.fully }
        };
        assert(keys_below(steps[0], m));
        assert forall|i: int| 0 <= i < next.queue.len() implies keys_below(#[trigger] next.queue[i], m) by {
            if i < st.queue.len() {
                assert(next.queue[i] == st.queue[i]);
            }
        }
        let rest = steps.drop_first();
        assert forall|i: int| 0 <= i < rest.len() implies keys_below(#[trigger] rest[i], m) by {
            assert(rest[i] == steps[i + 1]);
        }
        lemma_absorb_keys(next, rest, texts, m);
    }
}

pub open spec fn fully_view(f: Option<AbstractSyntaxTree<u64>>) -> Option<Node<u64>> {
    match f {
        Some(t) => Some(t.peek.view_node()),
        None => None,
    }
}

/// The search as the executable state holds it.
pub open spec fn search_of(
    forms: Seq<AbstractSyntaxTree<u64>>,
    visited: Seq<String>,
    queue: Seq<AbstractSyntaxTree<u64>>,
    fully: Option<Node<u64>>,
) -> Search {
    Search { forms: tree_views(forms), visited: text_views(visited), queue: tree_views(queue), fully }
}

fn copy_tree_of(t: &AbstractSyntaxTree<u64>) -> (r: AbstractSyntaxTree<u64>)
    ensures
        r.peek.view_node() == t.peek.view_node(),
{
    AbstractSyntaxTree::from_node(t.peek.copy_tree())
}

impl AbstractSyntaxTree<u64> {
    /// Meets the forms of `steps` in order (see [`absorb`]).
    fn absorb_steps(
        all_forms: &mut Vec<AbstractSyntaxTree<u64>>,
        visited: &mut Vec<String>,
        queue: &mut VecDeque<AbstractSyntaxTree<u64>>,
        steps: &Vec<AbstractSyntaxTree<u64>>,
        texts: &Vec<String>,
        Ghost(fully): Ghost<Option<Node<u64>>>,
    )
        requires
            all_keys_below(tree_views(steps@), texts.len() as int),
        ensures
            search_of(final(all_forms)@, final(visited)@, final(queue)@, fully) == absorb(
                search_of(old(all_forms)@, old(visited)@, old(queue)@, fully),
                tree_views(steps@),
                texts@,
            ),
    {
        let ghost sv = tree_views(steps@);
        let ghost goal = absorb(search_of(all_forms@, visited@, queue@, fully), sv, texts@);
        let mut k: usize = 0;
        assert(sv.skip(0) =~= sv);
        while k < steps.len()
            invariant
                sv == tree_views(steps@),
                sv.len() == steps@.len(),
                all_keys_below(sv, texts.len() as int),
                k <= steps.len(),
                absorb(search_of(all_forms@, visited@, queue@, fully), sv.skip(k as int), texts@) == goal,
            decreases steps.len() - k,
        {
            let ghost cur = search_of(all_forms@, visited@, queue@, fully);
            let e = &steps[k];
            assert(sv[k as int] == e.peek.view_node());
            assert(keys_below(sv[k as int], texts.len() as int));
            let key = key_of(&e.peek, texts);
            proof {
                assert(sv.skip(k as int)[0] == sv[k as int]);
                assert(sv.skip(k as int).drop_first() =~= sv.skip(k + 1));
            }
            if !seen(visited, &key) {
                let ghost old_forms = all_forms@;
                let ghost old_visited = visited@;
                let ghost old_queue = queue@;
                visited.push(key);
                all_forms.push(copy_tree_of(e));
                queue.push_back(copy_tree_of(e));
                proof {
                    assert(tree_views(all_forms@) =~= tree_views(old_forms).push(e.peek.view_node()));
                    assert(text_views(visited@) =~= text_views(old_visited).push(key@));
                    assert(tree_views(queue@) =~= tree_views(old_queue).push(e.peek.view_node()));
                }
            }
            k += 1;
        }
        assert(sv.skip(steps.len() as int) =~= Seq::<Node<u64>>::empty());
    }

    /// The equivalent forms of this tree (see [`equivalent_forms`]): the
    /// forms that expanding reaches, then those that factoring reaches from
    /// the first form with nothing left to expand, each once. The number
    /// keys are written by `number_texts` where forms are compared.
    pub fn find_equivalent_forms(&self, number_texts: &Vec<String>) -> (r: Vec<AbstractSyntaxTree<u64>>)
        requires
            keys_below(self.peek.view_node(), number_texts.len() as int),
        ensures
            tree_views(r@) == equivalent_forms(self.peek.view_node(), number_texts@),
    {
        let ghost n = self.peek.view_node();
        let ghost texts = number_texts@;
        let ghost m = number_texts.len() as int;
        let mut all_forms: Vec<AbstractSyntaxTree<u64>> = Vec::new();
        let mut visited: Vec<String> = Vec::new();
        let mut expansion_queue: VecDeque<AbstractSyntaxTree<u64>> = VecDeque::new();
        visited.push(key_of(&self.peek, number_texts));
        expansion_queue.push_back(copy_tree_of(self));
        all_forms.push(copy_tree_of(self));
        let mut fully_expanded: Option<AbstractSyntaxTree<u64>> = None;
        let ghost init = Search { forms: seq![n], visited: seq![form_key(n, texts)], queue: seq![n], fully: None };
        proof {
            assert(tree_views(all_forms@) =~= seq![n]);
            assert(text_views(visited@) =~= seq![form_key(n, texts)]);
            assert(tree_views(expansion_queue@) =~= seq![n]);
        }
        let ghost goal = expansion_search(init, texts);
        while expansion_queue.len() > 0
            invariant
                texts == number_texts@,
                m == number_texts.len(),
                expansion_search(
                    search_of(all_forms@, visited@, expansion_queue@, fully_view(fully_expanded)),
                    texts,
                ) == goal,
                all_keys_below(tree_views(expansion_queue@), m),
                fully_view(fully_expanded) is Some ==> keys_below(fully_view(fully_expanded)->0, m),
            decreases usize::MAX - visited.len(), expansion_queue.len(),
        {
            let ghost cur = search_of(all_forms@, visited@, expansion_queue@, fully_view(fully_expanded));
            let current = expansion_queue.pop_front().unwrap();
            let ghost cv = current.peek.view_node();
            assert(cur.queue[0] == cv);
            assert(keys_below(cur.queue[0], m));
            let steps = current.get_all_single_step_expansions();
            proof {
                assert(tree_views(steps@) =~= single_step_expansions(cv));
                lemma_expansions_keys(cv, m);
                assert(tree_views(expansion_queue@) =~= cur.queue.drop_first());
                assert forall|i: int| 0 <= i < cur.queue.drop_first().len() implies keys_below(
                    #[trigger] cur.queue.drop_first()[i],
                    m,
                ) by {
                    assert(cur.queue.drop_first()[i] == cur.queue[i + 1]);
                }
            }
            if steps.len() == 0 && fully_expanded.is_none() {
                fully_expanded = Some(copy_tree_of(&current));
            }
            let ghost popped = search_of(all_forms@, visited@, expansion_queue@, fully_view(fully_expanded));
            Self::absorb_steps(
                &mut all_forms,
                &mut visited,
                &mut expansion_queue,
                &steps,
                number_texts,
                Ghost(fully_view(fully_expanded)),
            );
            proof {
                lemma_absorb_keys(popped, tree_views(steps@), texts, m);
                lemma_absorb_growth(popped, tree_views(steps@), texts);
                assert(cur.visited.len() <= usize::MAX);
            }
        }
        proof {
            assert(tree_views(expansion_queue@) =~= Seq::<Node<u64>>::empty());
        }
        match fully_expanded {
            None => all_forms,
            Some(start) => {
                let ghost sv = start.peek.view_node();
                let mut factoring_queue: VecDeque<AbstractSyntaxTree<u64>> = VecDeque::new();
                factoring_queue.push_back(start);
                let ghost second = Search { queue: seq![sv], ..goal };
                proof {
                    assert(tree_views(factoring_queue@) =~= seq![sv]);
                }
                let ghost fully = goal.fully;
                let ghost goal2 = factoring_search(second, texts);
                while factoring_queue.len() > 0
                    invariant
                        texts == number_texts@,
                        m == number_texts.len(),
                        factoring_search(search_of(all_forms@, visited@, factoring_queue@, fully), texts) == goal2,
                        all_keys_below(tree_views(factoring_queue@), m),
                    decreases usize::MAX - visited.len(), factoring_queue.len(),
                {
                    let ghost cur = search_of(all_forms@, visited@, factoring_queue@, fully);
                    let current = factoring_queue.pop_front().unwrap();
                    let ghost cv = current.peek.view_node();
                    assert(cur.queue[0] == cv);
                    assert(keys_below(cur.queue[0], m));
                    let steps = current.get_all_single_step_factorings();
                    proof {
                        assert(tree_views(steps@) =~= single_step_factorings(cv));
                        lemma_factorings_keys(cv, m);
                        assert(tree_views(factoring_queue@) =~= cur.queue.drop_first());
                        assert forall|i: int| 0 <= i < cur.queue.drop_first().len() implies keys_below(
                            #[trigger] cur.queue.drop_first()[i],
                            m,
                        ) by {
                            assert(cur.queue.drop_first()[i] == cur.queue[i + 1]);
                        }
                    }
                    let ghost popped = search_of(all_forms@, visited@, factoring_queue@, fully);
                    Self::absorb_steps(&mut all_forms, &mut visited, &mut factoring_queue, &steps, number_texts, Ghost(fully));
                    proof {
                        lemma_absorb_keys(popped, tree_views(steps@), texts, m);
                        lemma_absorb_growth(popped, tree_views(steps@), texts);
                        assert(cur.visited.len() <= usize::MAX);
                    }
                }
                proof {
                    assert(tree_views(factoring_queue@) =~= Seq::<Node<u64>>::empty());
                }
                all_forms
            },
        }
    }
}

} // verus!
