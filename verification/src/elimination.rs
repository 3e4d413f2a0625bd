//! Generalized automata, whose edges carry regular-expression fragments,
//! and the elimination of their states.

use vstd::prelude::*;
use crate::automaton::{fanned, lemma_fanned_distinct, Automaton};
use crate::fragment::Fragment;
use crate::gnfa::State;
use crate::lists::lemma_take_one_more;
use crate::table::{
    distinct_keys,
    has_key,
    key_index,
    keys,
    lemma_key_index,
    lemma_keys,
    lemma_put,
    lookup,
    put,
};

verus! {

/// The finite map that a list of pairs without a repeated key stands for.
pub open spec fn to_map<K, V>(t: Seq<(K, V)>) -> Map<K, V> {
    Map::new(|k: K| has_key(t, k), |k: K| lookup(t, k))
}

/// Putting a value in the list puts it in the map.
pub proof fn lemma_put_map<K, V>(t: Seq<(K, V)>, k: K, v: V)
    requires
        distinct_keys(t),
    ensures
        to_map(put(t, k, v)) == to_map(t).insert(k, v),
        distinct_keys(put(t, k, v)),
{
    lemma_put(t, k, v);
    assert(to_map(put(t, k, v)) =~= to_map(t).insert(k, v));
}

/// The fragment on the edge from `a` to `b`: the empty language where
/// there is no edge.
pub open spec fn label(m: Map<(State, State), Fragment>, a: State, b: State) -> Fragment {
    if m.dom().contains((a, b)) {
        m[(a, b)]
    } else {
        Fragment::Empty
    }
}

/// Whether an edge starts or ends at `q`.
pub open spec fn touches(m: Map<(State, State), Fragment>, q: State) -> bool {
    exists|k: (State, State)| #[trigger] m.dom().contains(k) && (k.0 == q || k.1 == q)
}

/// Whether no edge starts or ends at a state of the automaton: all that is
/// left runs between the initial and the final state.
pub open spec fn cleared(m: Map<(State, State), Fragment>) -> bool {
    forall|k: (State, State)| #[trigger] m.dom().contains(k) ==> !(k.0 is State) && !(k.1 is State)
}

/// Whether no edge ends at the initial state or starts at the final one.
pub open spec fn proper(m: Map<(State, State), Fragment>) -> bool {
    forall|k: (State, State)| #[trigger]
        m.dom().contains(k) ==> !(k.1 is Init) && !(k.0 is Final)
}

/// Whether there is a way from `a` to `b` through `q`, where `a` and `b`
/// are other states.
pub open spec fn passes(m: Map<(State, State), Fragment>, q: State, a: State, b: State) -> bool {
    a != q && b != q && m.dom().contains((a, q)) && m.dom().contains((q, b))
}

/// The fragment of the way from `a` to `b` through `q`: into `q`, around
/// it any number of times, and out of it.
pub open spec fn bypass(m: Map<(State, State), Fragment>, q: State, a: State, b: State) -> Fragment {
    Fragment::Concat(seq![m[(a, q)], Fragment::Star(Box::new(label(m, q, q))), m[(q, b)]])
}

/// The fragment from `a` to `b` once `q` is gone: what was there, and the
/// way through `q` as one more branch.
pub open spec fn rerouted(m: Map<(State, State), Fragment>, q: State, a: State, b: State) -> Fragment {
    if passes(m, q, a, b) {
        if m.dom().contains((a, b)) {
            m[(a, b)].or(bypass(m, q, a, b))
        } else {
            bypass(m, q, a, b)
        }
    } else {
        m[(a, b)]
    }
}

/// The edges without the state `q`: every way through `q` is folded into
/// the edge between its ends, and the edges at `q` are gone.
pub open spec fn ripped(m: Map<(State, State), Fragment>, q: State) -> Map<
    (State, State),
    Fragment,
> {
    Map::new(
        |k: (State, State)|
            k.0 != q && k.1 != q && (m.dom().contains(k) || passes(m, q, k.0, k.1)),
        |k: (State, State)| rerouted(m, q, k.0, k.1),
    )
}

/// The edges without the states `qs`, taken out one after the other.
pub open spec fn rip_seq(m: Map<(State, State), Fragment>, qs: Seq<usize>) -> Map<
    (State, State),
    Fragment,
>
    decreases qs.len(),
{
    if qs.len() == 0 {
        m
    } else {
        ripped(rip_seq(m, qs.drop_last()), State::State(qs.last()))
    }
}

/// The edges of `m` that neither start nor end at `q`.
pub open spec fn without(m: Map<(State, State), Fragment>, q: State) -> Map<
    (State, State),
    Fragment,
> {
    Map::new(|k: (State, State)| m.dom().contains(k) && k.0 != q && k.1 != q, |k: (State, State)| m[k])
}

/// The edges of the generalized automaton of `a`: from the initial state
/// to the start state and from every accepting state to the final state
/// the empty word; from a state to a state the group of the symbols that
/// lead from the one to the other, where there is one.
pub open spec fn lifted(a: Automaton) -> Map<(State, State), Fragment> {
    Map::new(
        |k: (State, State)|
            match k {
                (State::Init, State::State(t)) => t == a.start,
                (State::State(s), State::Final) => a.is_accepting(s),
                (State::State(s), State::State(t)) => a.has_state(s) && has_key(
                    fanned(a.row(s)),
                    t,
                ),
                _ => false,
            },
        |k: (State, State)|
            match k {
                (State::State(s), State::State(t)) => Fragment::Group(lookup(fanned(a.row(s)), t)),
                _ => Fragment::eps(),
            },
    )
}

/// Whether `r` is a regular expression that state elimination gives for
/// `a`: the simplified fragment from the initial to the final state, once
/// the states of `a` are taken out in some order.
pub open spec fn eliminates_to(a: Automaton, r: Fragment) -> bool {
    exists|qs: Seq<usize>|
        cleared(#[trigger] rip_seq(lifted(a), qs)) && r == label(
            rip_seq(lifted(a), qs),
            State::Init,
            State::Final,
        ).simplified()
}

/// Whether the way from `k.0` to `k.1` through `q` is folded in already
/// when the edges into `q` before place `i`, and for the edge in place `i`
/// the edges out of `q` before place `j`, have been gone through.
pub open spec fn folded(
    m: Map<(State, State), Fragment>,
    q: State,
    ins: Seq<(State, Fragment)>,
    outs: Seq<(State, Fragment)>,
    i: int,
    j: int,
    k: (State, State),
) -> bool {
    passes(m, q, k.0, k.1) && (key_index(ins, k.0) < i || (key_index(ins, k.0) == i && key_index(
        outs,
        k.1,
    ) < j))
}

/// The edges when the ways through `q` are folded in as far as `i` and `j`
/// say.
pub open spec fn partly_ripped(
    m: Map<(State, State), Fragment>,
    q: State,
    ins: Seq<(State, Fragment)>,
    outs: Seq<(State, Fragment)>,
    i: int,
    j: int,
) -> Map<(State, State), Fragment> {
    Map::new(
        |k: (State, State)| m.dom().contains(k) || folded(m, q, ins, outs, i, j, k),
        |k: (State, State)|
            if folded(m, q, ins, outs, i, j, k) {
                rerouted(m, q, k.0, k.1)
            } else {
                m[k]
            },
    )
}

/// The states of the automaton at the ends of the edges, in order.
pub open spec fn endpoints(t: Seq<((State, State), Fragment)>) -> Seq<usize>
    decreases t.len(),
{
    if t.len() == 0 {
        Seq::empty()
    } else {
        endpoints(t.drop_last()) + inner(t.last().0.0) + inner(t.last().0.1)
    }
}

/// The state of the automaton that `s` is, if it is one.
pub open spec fn inner(s: State) -> Seq<usize> {
    match s {
        State::State(q) => seq![q],
        _ => Seq::empty(),
    }
}

/// A state of the automaton at which an edge starts or ends is among the
/// endpoints.
pub proof fn lemma_endpoints(t: Seq<((State, State), Fragment)>, q: usize)
    requires
        touches(to_map(t), State::State(q)),
    ensures
        endpoints(t).contains(q),
    decreases t.len(),
{
    let k = choose|k: (State, State)| #[trigger]
        to_map(t).dom().contains(k) && (k.0 == State::State(q) || k.1 == State::State(q));
    let i = key_index(t, k);
    assert(t[i].0 == k);
    let init = endpoints(t.drop_last());
    let a = inner(t.last().0.0);
    let b = inner(t.last().0.1);
    if i == t.len() - 1 {
        if k.0 == State::State(q) {
            assert((init + a + b)[init.len() as int] == q);
        } else {
            assert((init + a + b)[(init.len() + a.len()) as int] == q);
        }
    } else {
        assert(t.drop_last()[i].0 == k);
        assert(to_map(t.drop_last()).dom().contains(k));
        lemma_endpoints(t.drop_last(), q);
        let p = choose|p: int| 0 <= p < init.len() && init[p] == q;
        assert((init + a + b)[p] == q);
    }
}

/// Taking out a state brings no state to the edges and leaves none at the
/// state itself.
pub proof fn lemma_ripped_touches(m: Map<(State, State), Fragment>, q: State, p: State)
    requires
        touches(ripped(m, q), p),
    ensures
        touches(m, p),
        p != q,
{
    let k = choose|k: (State, State)| #[trigger]
        ripped(m, q).dom().contains(k) && (k.0 == p || k.1 == p);
    if m.dom().contains(k) {
    } else {
        assert(m.dom().contains((k.0, q)));
        assert(m.dom().contains((q, k.1)));
    }
}

/// Whether `s` is another state than `q`.
pub open spec fn other_than(q: usize) -> spec_fn(usize) -> bool {
    |s: usize| s != q
}

/// The edges of the generalized automaton of `a` as far as they are
/// there when the first `i` rows are gone through, of the row in place `i`
/// the first `j` states that it leads to, and the first `k` accepting
/// states; the edge from the initial state where `init` says so.
pub open spec fn lifted_upto(a: Automaton, i: int, j: int, init: bool, k: int) -> Map<
    (State, State),
    Fragment,
> {
    Map::new(
        |e: (State, State)|
            match e {
                (State::Init, State::State(t)) => init && t == a.start,
                (State::State(s), State::Final) => a.accepting.take(k).contains(s),
                (State::State(s), State::State(t)) => (a.states().take(i).contains(s) && has_key(
                    fanned(a.row(s)),
                    t,
                )) || (0 <= i < a.table.len() && s == a.table[i].0 && keys(
                    fanned(a.row(s)),
                ).take(j).contains(t)),
                _ => false,
            },
        |e: (State, State)|
            match e {
                (State::State(s), State::State(t)) => Fragment::Group(lookup(fanned(a.row(s)), t)),
                _ => Fragment::eps(),
            },
    )
}

/// Whether `ins` lists the edges of `m` that end at `q`: each once, with
/// the state it starts at and its fragment.
pub open spec fn enters(m: Map<(State, State), Fragment>, q: State, ins: Seq<(State, Fragment)>) -> bool {
    &&& distinct_keys(ins)
    &&& forall|s: State| has_key(ins, s) <==> #[trigger] m.dom().contains((s, q))
    &&& forall|s: State| #[trigger] has_key(ins, s) ==> lookup(ins, s) == m[(s, q)]
}

/// Whether `outs` lists the edges of `m` that start at `q`: each once, with
/// the state it ends at and its fragment.
pub open spec fn leaves(m: Map<(State, State), Fragment>, q: State, outs: Seq<(State, Fragment)>) -> bool {
    &&& distinct_keys(outs)
    &&& forall|s: State| has_key(outs, s) <==> #[trigger] m.dom().contains((q, s))
    &&& forall|s: State| #[trigger] has_key(outs, s) ==> lookup(outs, s) == m[(q, s)]
}

/// The ends of a way through `q` have their places in the lists of the
/// edges at `q`.
pub proof fn lemma_places(
    m: Map<(State, State), Fragment>,
    q: State,
    ins: Seq<(State, Fragment)>,
    outs: Seq<(State, Fragment)>,
    k: (State, State),
)
    requires
        enters(m, q, ins),
        leaves(m, q, outs),
        passes(m, q, k.0, k.1),
    ensures
        0 <= key_index(ins, k.0) < ins.len(),
        ins[key_index(ins, k.0)].0 == k.0,
        0 <= key_index(outs, k.1) < outs.len(),
        outs[key_index(outs, k.1)].0 == k.1,
{
    assert(m.dom().contains((k.0, q)));
    assert(has_key(ins, k.0));
    assert(m.dom().contains((q, k.1)));
    assert(has_key(outs, k.1));
}

/// Before any edge is gone through, nothing is folded in.
pub proof fn lemma_rip_start(
    m: Map<(State, State), Fragment>,
    q: State,
    ins: Seq<(State, Fragment)>,
    outs: Seq<(State, Fragment)>,
)
    requires
        enters(m, q, ins),
        leaves(m, q, outs),
    ensures
        partly_ripped(m, q, ins, outs, 0, 0) == m,
{
    let p = partly_ripped(m, q, ins, outs, 0, 0);
    assert forall|k: (State, State)| !folded(m, q, ins, outs, 0, 0, k) by {
        if passes(m, q, k.0, k.1) {
            lemma_places(m, q, ins, outs, k);
        }
    }
    assert(p =~= m);
}

/// Folding in the way from the edge in place `i` to the edge in place `j`
/// is one step on.
pub proof fn lemma_rip_fold(
    m: Map<(State, State), Fragment>,
    q: State,
    ins: Seq<(State, Fragment)>,
    outs: Seq<(State, Fragment)>,
    i: int,
    j: int,
)
    requires
        enters(m, q, ins),
        leaves(m, q, outs),
        0 <= i < ins.len(),
        0 <= j < outs.len(),
        ins[i].0 != q,
        outs[j].0 != q,
    ensures
        passes(m, q, ins[i].0, outs[j].0),
        m[(ins[i].0, q)] == ins[i].1,
        m[(q, outs[j].0)] == outs[j].1,
        partly_ripped(m, q, ins, outs, i, j + 1) == partly_ripped(m, q, ins, outs, i, j).insert(
            (ins[i].0, outs[j].0),
            if partly_ripped(m, q, ins, outs, i, j).dom().contains((ins[i].0, outs[j].0)) {
                partly_ripped(m, q, ins, outs, i, j)[(ins[i].0, outs[j].0)].or(
                    bypass(m, q, ins[i].0, outs[j].0),
                )
            } else {
                bypass(m, q, ins[i].0, outs[j].0)
            },
        ),
{
    let a = ins[i].0;
    let b = outs[j].0;
    lemma_key_index(ins, i);
    lemma_key_index(outs, j);
    assert(m.dom().contains((a, q)));
    assert(m.dom().contains((q, b)));
    let cur = partly_ripped(m, q, ins, outs, i, j);
    let next = partly_ripped(m, q, ins, outs, i, j + 1);
    assert forall|k: (State, State)|
        folded(m, q, ins, outs, i, j + 1, k) <==> folded(m, q, ins, outs, i, j, k) || k == (
            a,
            b,
        ) by {
        if passes(m, q, k.0, k.1) {
            lemma_places(m, q, ins, outs, k);
            lemma_key_index(ins, key_index(ins, k.0));
            lemma_key_index(outs, key_index(outs, k.1));
        }
    }
    assert(!folded(m, q, ins, outs, i, j, (a, b)));
    let v = if cur.dom().contains((a, b)) {
        cur[(a, b)].or(bypass(m, q, a, b))
    } else {
        bypass(m, q, a, b)
    };
    assert(v == rerouted(m, q, a, b));
    assert(next =~= cur.insert((a, b), v));
}

/// An edge out of `q` that ends at `q` adds no way.
pub proof fn lemma_rip_skip(
    m: Map<(State, State), Fragment>,
    q: State,
    ins: Seq<(State, Fragment)>,
    outs: Seq<(State, Fragment)>,
    i: int,
    j: int,
)
    requires
        enters(m, q, ins),
        leaves(m, q, outs),
        0 <= j < outs.len(),
        outs[j].0 == q,
    ensures
        partly_ripped(m, q, ins, outs, i, j + 1) == partly_ripped(m, q, ins, outs, i, j),
{
    lemma_key_index(outs, j);
    assert forall|k: (State, State)|
        folded(m, q, ins, outs, i, j + 1, k) <==> folded(m, q, ins, outs, i, j, k) by {
        if passes(m, q, k.0, k.1) {
            lemma_places(m, q, ins, outs, k);
            lemma_key_index(outs, key_index(outs, k.1));
        }
    }
    assert(partly_ripped(m, q, ins, outs, i, j + 1) =~= partly_ripped(m, q, ins, outs, i, j));
}

/// When the edges out of `q` are gone through for the edge in place `i`,
/// the edge in the next place comes.
pub proof fn lemma_rip_next(
    m: Map<(State, State), Fragment>,
    q: State,
    ins: Seq<(State, Fragment)>,
    outs: Seq<(State, Fragment)>,
    i: int,
)
    requires
        enters(m, q, ins),
        leaves(m, q, outs),
        0 <= i < ins.len(),
    ensures
        partly_ripped(m, q, ins, outs, i + 1, 0) == partly_ripped(
            m,
            q,
            ins,
            outs,
            i,
            outs.len() as int,
        ),
        ins[i].0 == q ==> partly_ripped(m, q, ins, outs, i + 1, 0) == partly_ripped(
            m,
            q,
            ins,
            outs,
            i,
            0,
        ),
{
    lemma_key_index(ins, i);
    assert forall|k: (State, State)|
        folded(m, q, ins, outs, i + 1, 0, k) <==> folded(
            m,
            q,
            ins,
            outs,
            i,
            outs.len() as int,
            k,
        ) by {
        if passes(m, q, k.0, k.1) {
            lemma_places(m, q, ins, outs, k);
        }
    }
    assert(partly_ripped(m, q, ins, outs, i + 1, 0) =~= partly_ripped(
        m,
        q,
        ins,
        outs,
        i,
        outs.len() as int,
    ));
    if ins[i].0 == q {
        assert forall|k: (State, State)|
            folded(m, q, ins, outs, i + 1, 0, k) <==> folded(m, q, ins, outs, i, 0, k) by {
            if passes(m, q, k.0, k.1) {
                lemma_places(m, q, ins, outs, k);
                lemma_key_index(ins, key_index(ins, k.0));
            }
        }
        assert(partly_ripped(m, q, ins, outs, i + 1, 0) =~= partly_ripped(m, q, ins, outs, i, 0));
    }
}

/// When all the edges into `q` are gone through, taking out the edges at
/// `q` leaves the edges without `q`.
pub proof fn lemma_rip_end(
    m: Map<(State, State), Fragment>,
    q: State,
    ins: Seq<(State, Fragment)>,
    outs: Seq<(State, Fragment)>,
)
    requires
        enters(m, q, ins),
        leaves(m, q, outs),
    ensures
        without(partly_ripped(m, q, ins, outs, ins.len() as int, 0), q) == ripped(m, q),
{
    assert forall|k: (State, State)| passes(m, q, k.0, k.1) implies folded(
        m,
        q,
        ins,
        outs,
        ins.len() as int,
        0,
        k,
    ) by {
        lemma_places(m, q, ins, outs, k);
    }
    assert(without(partly_ripped(m, q, ins, outs, ins.len() as int, 0), q) =~= ripped(m, q));
}

/// Before any row is gone through there is no edge.
pub proof fn lemma_lift_start(a: Automaton)
    ensures
        lifted_upto(a, 0, 0, false, 0) == Map::<(State, State), Fragment>::empty(),
{
    assert(a.states().take(0) =~= Seq::<usize>::empty());
    assert(a.accepting.take(0) =~= Seq::<usize>::empty());
    assert forall|s: usize| keys(fanned(a.row(s))).take(0) =~= Seq::<usize>::empty() by {}
    assert(lifted_upto(a, 0, 0, false, 0) =~= Map::<(State, State), Fragment>::empty());
}

/// The edge to the state in place `j` of the fanned row in place `i` is
/// one step on.
pub proof fn lemma_lift_fan(a: Automaton, i: int, j: int)
    requires
        a.wf(),
        0 <= i < a.table.len(),
        0 <= j < fanned(a.table[i].1).len(),
    ensures
        lifted_upto(a, i, j + 1, false, 0) == lifted_upto(a, i, j, false, 0).insert(
            (State::State(a.table[i].0), State::State(fanned(a.table[i].1)[j].0)),
            Fragment::Group(fanned(a.table[i].1)[j].1),
        ),
{
    a.lemma_row(i);
    let s1 = a.table[i].0;
    let f = fanned(a.row(s1));
    lemma_fanned_distinct(a.row(s1));
    lemma_key_index(f, j);
    let s2 = f[j].0;
    assert(keys(f)[j] == s2);
    let cur = lifted_upto(a, i, j, false, 0);
    let next = lifted_upto(a, i, j + 1, false, 0);
    let goal = cur.insert((State::State(s1), State::State(s2)), Fragment::Group(f[j].1));
    assert forall|e: (State, State)| next.dom().contains(e) <==> goal.dom().contains(e) by {
        match e {
            (State::State(s), State::State(t)) => {
                if s == s1 {
                    lemma_take_one_more(keys(f), j, t);
                }
            },
            _ => {},
        }
    }
    assert(next =~= goal);
}

/// When the fanned row in place `i` is gone through, the next row comes.
pub proof fn lemma_lift_row(a: Automaton, i: int)
    requires
        a.wf(),
        0 <= i < a.table.len(),
    ensures
        lifted_upto(a, i + 1, 0, false, 0) == lifted_upto(
            a,
            i,
            fanned(a.table[i].1).len() as int,
            false,
            0,
        ),
{
    a.lemma_row(i);
    let s1 = a.table[i].0;
    let f = fanned(a.row(s1));
    let cur = lifted_upto(a, i, f.len() as int, false, 0);
    let next = lifted_upto(a, i + 1, 0, false, 0);
    assert(keys(f).take(f.len() as int) =~= keys(f));
    assert(a.states()[i] == s1);
    assert forall|e: (State, State)| next.dom().contains(e) <==> cur.dom().contains(e) by {
        match e {
            (State::State(s), State::State(t)) => {
                lemma_take_one_more(a.states(), i, s);
                lemma_keys(f, t);
                assert(keys(fanned(a.row(s))).take(0) =~= Seq::<usize>::empty());
                if a.states().take(i).contains(s) {
                    let p = choose|p: int|
                        0 <= p < a.states().take(i).len() && a.states().take(i)[p] == s;
                    assert(a.table[p].0 == s);
                    assert(s != s1);
                }
            },
            _ => {},
        }
    }
    assert(next =~= cur);
}

/// The edge from the initial state to the start state.
pub proof fn lemma_lift_init(a: Automaton)
    ensures
        lifted_upto(a, a.table.len() as int, 0, true, 0) == lifted_upto(
            a,
            a.table.len() as int,
            0,
            false,
            0,
        ).insert((State::Init, State::State(a.start)), Fragment::eps()),
{
    let n = a.table.len() as int;
    assert(lifted_upto(a, n, 0, true, 0) =~= lifted_upto(a, n, 0, false, 0).insert(
        (State::Init, State::State(a.start)),
        Fragment::eps(),
    ));
}

/// The edge from the accepting state in place `k` to the final state is
/// one step on.
pub proof fn lemma_lift_accept(a: Automaton, k: int)
    requires
        0 <= k < a.accepting.len(),
    ensures
        lifted_upto(a, a.table.len() as int, 0, true, k + 1) == lifted_upto(
            a,
            a.table.len() as int,
            0,
            true,
            k,
        ).insert((State::State(a.accepting[k]), State::Final), Fragment::eps()),
{
    let n = a.table.len() as int;
    let cur = lifted_upto(a, n, 0, true, k);
    let next = lifted_upto(a, n, 0, true, k + 1);
    let goal = cur.insert((State::State(a.accepting[k]), State::Final), Fragment::eps());
    assert forall|e: (State, State)| next.dom().contains(e) <==> goal.dom().contains(e) by {
        match e {
            (State::State(s), State::Final) => {
                lemma_take_one_more(a.accepting, k, s);
            },
            _ => {},
        }
    }
    assert(next =~= goal);
}

/// When all rows and accepting states are gone through, the edges are
/// those of the generalized automaton.
pub proof fn lemma_lift_end(a: Automaton)
    ensures
        lifted_upto(a, a.table.len() as int, 0, true, a.accepting.len() as int) == lifted(a),
{
    let n = a.table.len() as int;
    let got = lifted_upto(a, n, 0, true, a.accepting.len() as int);
    assert(a.accepting.take(a.accepting.len() as int) =~= a.accepting);
    assert(a.states().take(n) =~= a.states());
    assert forall|e: (State, State)| got.dom().contains(e) <==> lifted(a).dom().contains(e) by {
        match e {
            (State::State(s), State::State(t)) => {
                lemma_keys(a.table, s);
            },
            _ => {},
        }
    }
    assert(got =~= lifted(a));
}

} // verus!
