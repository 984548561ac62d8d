//! What the search for equivalent forms is sure to list: the first form
//! that cannot be expanded any further is factored, and every form one
//! factoring away from it is among the forms returned.
use vstd::prelude::*;
use crate::ast::Node;
use crate::associative::single_step_factorings;
use crate::equivalent::{
    Search, absorb, expansion_search, factoring_search, equivalent_forms, form_key, keyed_once, lemma_absorb_growth,
    lemma_expansion_keyed, lemma_factoring_keyed,
};
use crate::laws::single_step_expansions;

verus! {

/// Form `j` is the first of `forms` that expanding leaves as it is.
pub open spec fn first_unexpandable(forms: Seq<Node<u64>>, j: int) -> bool {
    &&& 0 <= j < forms.len()
    &&& single_step_expansions(forms[j]).len() == 0
    &&& forall|k: int| 0 <= k < j ==> single_step_expansions(#[trigger] forms[k]).len() > 0
}

/// Some form of `forms` has the key of `t`.
pub open spec fn listed(forms: Seq<Node<u64>>, t: Node<u64>, texts: Seq<String>) -> bool {
    exists|i: int| 0 <= i < forms.len() && form_key(#[trigger] forms[i], texts) == form_key(t, texts)
}

/// Meeting forms appends the same new forms to the forms found and to the
/// queue, keeps what was there, and leaves every key met seen.
proof fn lemma_absorb_shape(st: Search, steps: Seq<Node<u64>>, texts: Seq<String>)
    requires
        st.forms.len() >= st.queue.len(),
    ensures
        ({
            let r = absorb(st, steps, texts);
            &&& r.forms.len() - st.forms.len() == r.queue.len() - st.queue.len() >= 0
            &&& r.forms.take(st.forms.len() as int) == st.forms
            &&& r.queue.take(st.queue.len() as int) == st.queue
            &&& forall|k: int|
                0 <= k < r.forms.len() - st.forms.len() ==> #[trigger] r.forms[st.forms.len() + k] == r.queue[st.queue.len()
                    + k]
            &&& r.fully == st.fully
            &&& r.visited.len() >= st.visited.len()
            &&& r.visited.take(st.visited.len() as int) == st.visited
            &&& forall|i: int| 0 <= i < steps.len() ==> r.visited.contains(form_key(#[trigger] steps[i], texts))
        }),
    decreases steps.len(),
{
    if steps.len() > 0 {
        let e = steps[0];
        let k = form_key(e, texts);
        let next = if st.visited.contains(k) {
            st
        } else {
            Search { forms: st.forms.push(e), visited: st.visited.push(k), queue: st.queue.push(e), fully: st.fully }
        };
        lemma_absorb_shape(next, steps.drop_first(), texts);
        let r = absorb(st, steps, texts);
        assert(r == absorb(next, steps.drop_first(), texts));
        assert(r.forms.take(st.forms.len() as int) =~= st.forms) by {
            assert(r.forms.take(next.forms.len() as int) == next.forms);
            assert forall|x: int| 0 <= x < st.forms.len() implies r.forms[x] == st.forms[x] by {
                assert(r.forms.take(next.forms.len() as int)[x] == r.forms[x]);
                assert(next.forms[x] == st.forms[x]);
            }
        }
        assert(r.queue.take(st.queue.len() as int) =~= st.queue) by {
            assert(r.queue.take(next.queue.len() as int) == next.queue);
            assert forall|x: int| 0 <= x < st.queue.len() implies r.queue[x] == st.queue[x] by {
                assert(r.queue.take(next.queue.len() as int)[x] == r.queue[x]);
                assert(next.queue[x] == st.queue[x]);
            }
        }
        assert(r.visited.take(st.visited.len() as int) =~= st.visited) by {
            assert(r.visited.take(next.visited.len() as int) == next.visited);
            assert forall|x: int| 0 <= x < st.visited.len() implies r.visited[x] == st.visited[x] by {
                assert(r.visited.take(next.visited.len() as int)[x] == r.visited[x]);
                assert(next.visited[x] == st.visited[x]);
            }
        }
        assert forall|q: int| 0 <= q < r.forms.len() - st.forms.len() implies #[trigger] r.forms[st.forms.len() + q]
            == r.queue[st.queue.len() + q] by {
            if !st.visited.contains(k) && q == 0 {
                assert(r.forms.take(next.forms.len() as int)[st.forms.len() as int] == r.forms[st.forms.len() as int]);
                assert(r.queue.take(next.queue.len() as int)[st.queue.len() as int] == r.queue[st.queue.len() as int]);
            } else if !st.visited.contains(k) {
                assert(r.forms[next.forms.len() + (q - 1)] == r.queue[next.queue.len() + (q - 1)]);
            }
        }
        assert forall|i: int| 0 <= i < steps.len() implies r.visited.contains(form_key(#[trigger] steps[i], texts)) by {
            if i > 0 {
                assert(steps.drop_first()[i - 1] == steps[i]);
            } else if st.visited.contains(k) {
                let w = choose|w: int| 0 <= w < st.visited.len() && st.visited[w] == k;
                assert(r.visited.take(st.visited.len() as int)[w] == r.visited[w]);
            } else {
                let w = st.visited.len() as int;
                assert(next.visited[w] == k);
                assert(r.visited.take(next.visited.len() as int)[w] == r.visited[w]);
            }
        }
    } else {
        let r = absorb(st, steps, texts);
        assert(r.forms.take(st.forms.len() as int) =~= st.forms);
        assert(r.queue.take(st.queue.len() as int) =~= st.queue);
        assert(r.visited.take(st.visited.len() as int) =~= st.visited);
    }
}

/// Breadth first: the queue holds the forms not yet explored, in the order
/// found, and the fully expanded form recorded is the first explored form
/// with nothing to expand.
pub open spec fn explored_in_order(st: Search) -> bool {
    let p = st.forms.len() - st.queue.len();
    &&& p >= 0
    &&& st.queue == st.forms.skip(p)
    &&& match st.fully {
        None => forall|k: int| 0 <= k < p ==> single_step_expansions(#[trigger] st.forms[k]).len() > 0,
        Some(f) => exists|j: int| 0 <= j < p && first_unexpandable(st.forms, j) && #[trigger] st.forms[j] == f,
    }
}

proof fn lemma_expansion_in_order(st: Search, texts: Seq<String>)
    requires
        explored_in_order(st),
    ensures
        explored_in_order(expansion_search(st, texts)),
        expansion_search(st, texts).visited.len() <= usize::MAX ==> expansion_search(st, texts).queue.len() == 0,
        expansion_search(st, texts).forms.len() >= st.forms.len(),
        expansion_search(st, texts).forms.take(st.forms.len() as int) == st.forms,
    decreases usize::MAX - st.visited.len(), st.queue.len(),
{
    if !(st.queue.len() == 0 || st.visited.len() > usize::MAX) {
        let p = st.forms.len() - st.queue.len();
        let current = st.queue[0];
        assert(current == st.forms[p]);
        let steps = single_step_expansions(current);
        let popped = Search {
            queue: st.queue.drop_first(),
            fully: if steps.len() == 0 && st.fully is None {
                Some(current)
            } else {
                st.fully
            },
            ..st
        };
        assert(popped.queue =~= popped.forms.skip(p + 1));
        assert(explored_in_order(popped)) by {
            if st.fully is None {
                if steps.len() == 0 {
                    assert(first_unexpandable(st.forms, p));
                    assert(popped.forms[p] == current);
                } else {
                    assert forall|k: int| 0 <= k < p + 1 implies single_step_expansions(#[trigger] popped.forms[k]).len()
                        > 0 by {
                        if k == p {
                            assert(popped.forms[k] == current);
                        }
                    }
                }
            } else {
                let j = choose|j: int| 0 <= j < p && first_unexpandable(st.forms, j) && #[trigger] st.forms[j] == st.fully->0;
                assert(popped.forms[j] == popped.fully->0);
            }
        }
        lemma_absorb_shape(popped, steps, texts);
        lemma_absorb_growth(popped, steps, texts);
        let next = absorb(popped, steps, texts);
        let np = next.forms.len() - next.queue.len();
        assert(np == p + 1);
        assert forall|x: int| 0 <= x < next.forms.len() implies #[trigger] next.forms[x] == (if x < popped.forms.len() {
            popped.forms[x]
        } else {
            next.queue[popped.queue.len() + (x - popped.forms.len())]
        }) by {
            if x < popped.forms.len() {
                assert(next.forms.take(popped.forms.len() as int)[x] == next.forms[x]);
            } else {
                assert(next.forms[popped.forms.len() + (x - popped.forms.len())] == next.queue[popped.queue.len() + (x
                    - popped.forms.len())]);
            }
        }
        assert forall|x: int| 0 <= x < next.queue.len() implies #[trigger] next.queue[x] == next.forms.skip(np)[x] by {
            if x < popped.queue.len() {
                assert(next.queue.take(popped.queue.len() as int)[x] == next.queue[x]);
                assert(popped.queue[x] == popped.forms.skip(p + 1)[x]);
            }
        }
        assert(next.queue =~= next.forms.skip(np));
        assert(explored_in_order(next)) by {
            match next.fully {
                None => {
                    assert forall|k: int| 0 <= k < np implies single_step_expansions(#[trigger] next.forms[k]).len() > 0 by {
                        assert(next.forms[k] == popped.forms[k]);
                    }
                },
                Some(f) => {
                    let j = choose|j: int| 0 <= j < p + 1 && first_unexpandable(popped.forms, j) && #[trigger] popped.forms[j] == f;
                    assert(next.forms[j] == popped.forms[j]);
                    assert forall|k: int| 0 <= k < j implies single_step_expansions(#[trigger] next.forms[k]).len() > 0 by {
                        assert(next.forms[k] == popped.forms[k]);
                    }
                    assert(first_unexpandable(next.forms, j));
                },
            }
        }
        if next.visited.len() <= usize::MAX {
            lemma_expansion_in_order(next, texts);
            let r = expansion_search(next, texts);
            assert forall|x: int| 0 <= x < st.forms.len() implies r.forms.take(st.forms.len() as int)[x] == st.forms[x] by {
                assert(r.forms.take(next.forms.len() as int)[x] == r.forms[x]);
                assert(next.forms.take(popped.forms.len() as int)[x] == next.forms[x]);
            }
            assert(r.forms.take(st.forms.len() as int) =~= st.forms);
        } else {
            assert(next.forms.take(st.forms.len() as int) =~= st.forms);
        }
    } else {
        assert(st.forms.take(st.forms.len() as int) =~= st.forms);
    }
}

/// Factoring only adds: the forms and keys already there stay, in place.
proof fn lemma_factoring_keeps(st: Search, texts: Seq<String>)
    requires
        st.forms.len() >= st.queue.len(),
    ensures
        factoring_search(st, texts).forms.len() >= st.forms.len(),
        factoring_search(st, texts).forms.take(st.forms.len() as int) == st.forms,
        factoring_search(st, texts).visited.len() >= st.visited.len(),
        factoring_search(st, texts).visited.take(st.visited.len() as int) == st.visited,
    decreases usize::MAX - st.visited.len(), st.queue.len(),
{
    if !(st.queue.len() == 0 || st.visited.len() > usize::MAX) {
        let popped = Search { queue: st.queue.drop_first(), ..st };
        let steps = single_step_factorings(st.queue[0]);
        lemma_absorb_shape(popped, steps, texts);
        lemma_absorb_growth(popped, steps, texts);
        let next = absorb(popped, steps, texts);
        if next.visited.len() <= usize::MAX {
            lemma_factoring_keeps(next, texts);
            let r = factoring_search(next, texts);
            assert forall|x: int| 0 <= x < st.forms.len() implies r.forms.take(st.forms.len() as int)[x] == st.forms[x] by {
                assert(r.forms.take(next.forms.len() as int)[x] == r.forms[x]);
                assert(next.forms.take(st.forms.len() as int)[x] == next.forms[x]);
            }
            assert forall|x: int| 0 <= x < st.visited.len() implies r.visited.take(st.visited.len() as int)[x]
                == st.visited[x] by {
                assert(r.visited.take(next.visited.len() as int)[x] == r.visited[x]);
                assert(next.visited.take(st.visited.len() as int)[x] == next.visited[x]);
            }
            assert(r.forms.take(st.forms.len() as int) =~= st.forms);
            assert(r.visited.take(st.visited.len() as int) =~= st.visited);
        }
    } else {
        assert(st.forms.take(st.forms.len() as int) =~= st.forms);
        assert(st.visited.take(st.visited.len() as int) =~= st.visited);
    }
}

/// The search lists every form one factoring away from the first form that
/// cannot be expanded: factoring starts there, so each of its factorings is
/// among the forms returned (as the same form, up to its key). Where no form
/// is left unexpandable there is nothing to require.
pub proof fn law_first_unexpandable_form_is_factored(n: Node<u64>, texts: Seq<String>, j: int)
    requires
        equivalent_forms(n, texts).len() <= usize::MAX,
        first_unexpandable(equivalent_forms(n, texts), j),
    ensures
        forall|i: int|
            0 <= i < single_step_factorings(equivalent_forms(n, texts)[j]).len() ==> listed(
                equivalent_forms(n, texts),
                #[trigger] single_step_factorings(equivalent_forms(n, texts)[j])[i],
                texts,
            ),
{
    let init = Search { forms: seq![n], visited: seq![form_key(n, texts)], queue: seq![n], fully: None };
    assert(init.queue =~= init.forms.skip(0));
    assert(explored_in_order(init));
    assert(keyed_once(init, texts, n));
    lemma_expansion_in_order(init, texts);
    lemma_expansion_keyed(init, texts, n);
    let ex = expansion_search(init, texts);
    let forms = equivalent_forms(n, texts);
    match ex.fully {
        None => {
            assert(forms == ex.forms);
            assert(ex.visited.len() <= usize::MAX);
            assert(ex.queue.len() == 0);
            assert(single_step_expansions(forms[j]).len() > 0);
        },
        Some(start) => {
            let again = Search { queue: seq![start], ..ex };
            assert(keyed_once(again, texts, n));
            lemma_factoring_keyed(again, texts, n);
            lemma_factoring_keeps(again, texts);
            let r = factoring_search(again, texts);
            assert(forms == r.forms);
            assert(ex.visited.len() <= usize::MAX);
            assert(ex.queue.len() == 0);
            let j0 = choose|j0: int| 0 <= j0 < ex.forms.len() && first_unexpandable(ex.forms, j0) && #[trigger] ex.forms[j0] == start;
            assert(forms[j0] == ex.forms[j0]) by {
                assert(r.forms.take(ex.forms.len() as int)[j0] == r.forms[j0]);
            }
            assert(j == j0) by {
                if j < j0 {
                    assert(forms[j] == ex.forms[j]) by {
                        assert(r.forms.take(ex.forms.len() as int)[j] == r.forms[j]);
                    }
                    assert(single_step_expansions(ex.forms[j]).len() > 0);
                } else if j > j0 {
                    assert(single_step_expansions(forms[j0]).len() > 0);
                }
            }
            let popped = Search { queue: again.queue.drop_first(), ..again };
            let steps = single_step_factorings(start);
            lemma_absorb_shape(popped, steps, texts);
            lemma_absorb_growth(popped, steps, texts);
            let next = absorb(popped, steps, texts);
            assert(again.visited.len() <= usize::MAX);
            let fin = if next.visited.len() <= usize::MAX {
                lemma_factoring_keeps(next, texts);
                factoring_search(next, texts)
            } else {
                next
            };
            assert(fin == r);
            assert(r.visited.len() >= next.visited.len());
            assert(r.visited.take(next.visited.len() as int) == next.visited) by {
                if next.visited.len() > usize::MAX {
                    assert(next.visited.take(next.visited.len() as int) =~= next.visited);
                }
            }
            assert forall|i: int| 0 <= i < single_step_factorings(forms[j]).len() implies listed(
                forms,
                #[trigger] single_step_factorings(forms[j])[i],
                texts,
            ) by {
                let t = steps[i];
                assert(next.visited.contains(form_key(t, texts)));
                let w = choose|w: int| 0 <= w < next.visited.len() && next.visited[w] == form_key(t, texts);
                assert(r.visited.take(next.visited.len() as int)[w] == r.visited[w]);
                assert(form_key(r.forms[w], texts) == r.visited[w]);
            }
        },
    }
}

} // verus!
