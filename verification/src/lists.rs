//! Lists: what filtering and taking a prefix keep.

use vstd::prelude::*;

verus! {

/// A filter that drops a member leaves a shorter list.
pub proof fn lemma_filter_drops<A>(g: Seq<A>, pred: spec_fn(A) -> bool, i: int)
    requires
        0 <= i < g.len(),
        !pred(g[i]),
    ensures
        g.filter(pred).len() < g.len(),
    decreases g.len(),
{
    reveal(Seq::filter);
    g.drop_last().lemma_filter_len(pred);
    if i < g.len() - 1 {
        lemma_filter_drops(g.drop_last(), pred, i);
    }
}

/// A filter and its opposite share out the list.
pub proof fn lemma_filter_halves<A>(g: Seq<A>, yes: spec_fn(A) -> bool, no: spec_fn(A) -> bool)
    requires
        forall|x: A| #[trigger] no(x) == !yes(x),
    ensures
        g.filter(yes).len() + g.filter(no).len() == g.len(),
    decreases g.len(),
{
    reveal(Seq::filter);
    if g.len() > 0 {
        lemma_filter_halves(g.drop_last(), yes, no);
    }
}

/// A member of a list is in its filter where the filter holds of it, and
/// only there.
pub proof fn lemma_filter_member<A>(g: Seq<A>, pred: spec_fn(A) -> bool, x: A)
    ensures
        g.filter(pred).contains(x) <==> g.contains(x) && pred(x),
    decreases g.len(),
{
    reveal(Seq::filter);
    if g.len() > 0 {
        let init = g.drop_last();
        lemma_filter_member(init, pred, x);
        let f = g.filter(pred);
        if g.contains(x) && pred(x) {
            let i = choose|i: int| 0 <= i < g.len() && g[i] == x;
            if i < g.len() - 1 {
                assert(init[i] == x);
                assert(init.contains(x));
                let j = choose|j: int| 0 <= j < init.filter(pred).len() && init.filter(pred)[j] == x;
                assert(f[j] == x);
            } else {
                assert(f[f.len() - 1] == x);
            }
        }
        if f.contains(x) {
            let j = choose|j: int| 0 <= j < f.len() && f[j] == x;
            if pred(g.last()) && j == f.len() - 1 {
                assert(g[g.len() - 1] == x);
            } else {
                assert(init.filter(pred)[j] == x);
                assert(init.filter(pred).contains(x));
                let i = choose|i: int| 0 <= i < init.len() && init[i] == x;
                assert(g[i] == x);
            }
        }
    }
}

/// A filter that keeps the length keeps the list.
pub proof fn lemma_filter_all<A>(g: Seq<A>, pred: spec_fn(A) -> bool)
    requires
        g.filter(pred).len() == g.len(),
    ensures
        g.filter(pred) == g,
    decreases g.len(),
{
    reveal(Seq::filter);
    if g.len() > 0 {
        g.drop_last().lemma_filter_len(pred);
        lemma_filter_all(g.drop_last(), pred);
        assert(g.drop_last().push(g.last()) =~= g);
    }
}

/// A list holds, up to one place more, what it held up to the place and
/// the member in the place.
pub proof fn lemma_take_one_more<A>(g: Seq<A>, j: int, q: A)
    requires
        0 <= j < g.len(),
    ensures
        g.take(j + 1).contains(q) <==> g.take(j).contains(q) || q == g[j],
{
    let t0 = g.take(j);
    let t1 = g.take(j + 1);
    if t1.contains(q) {
        let k = choose|k: int| 0 <= k < t1.len() && t1[k] == q;
        if k < j {
            assert(t0[k] == q);
        }
    }
    if t0.contains(q) {
        let k = choose|k: int| 0 <= k < t0.len() && t0[k] == q;
        assert(t1[k] == q);
    }
    if q == g[j] {
        assert(t1[j] == q);
    }
}

} // verus!
