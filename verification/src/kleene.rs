//! State elimination keeps the language: the regular expression that it
//! gives for an automaton matches exactly what the automaton accepts.

use vstd::prelude::*;
use crate::automaton::{fanned, lemma_fanned, Automaton};
use crate::elimination::{
    bypass,
    cleared,
    eliminates_to,
    label,
    lifted,
    passes,
    proper,
    rip_seq,
    ripped,
};
use crate::fragment::Fragment;
use crate::gnfa::State;
use crate::language::{
    lemma_chain_cut,
    lemma_chain_join,
    lemma_chain_one,
    lemma_eps,
    lemma_star_join,
    lemma_star_one,
    simplify_keeps_language,
};
use crate::table::{has_key, key_index, lemma_key_index, lookup};

verus! {

/// Whether `n` edges lead from `a` to the final state and their fragments
/// match, one after the other, the pieces of `w`.
pub open spec fn reach(m: Map<(State, State), Fragment>, a: State, w: Seq<char>, n: nat) -> bool
    decreases n,
{
    if n == 0 {
        a == State::Final && w.len() == 0
    } else {
        exists|b: State, k: int|
            0 <= k <= w.len() && #[trigger] label(m, a, b).matches(w.take(k)) && reach(
                m,
                b,
                w.skip(k),
                (n - 1) as nat,
            )
    }
}

/// Whether the generalized automaton accepts `w`: some edges lead from the
/// initial to the final state and match the pieces of `w`.
pub open spec fn accepted(m: Map<(State, State), Fragment>, w: Seq<char>) -> bool {
    exists|n: nat| reach(m, State::Init, w, n)
}

/// An edge that matches `u`, before a way that matches `v`, is a way that
/// matches the two, one after the other.
pub proof fn lemma_edge(
    m: Map<(State, State), Fragment>,
    a: State,
    b: State,
    u: Seq<char>,
    v: Seq<char>,
    n: nat,
)
    requires
        label(m, a, b).matches(u),
        reach(m, b, v, n),
    ensures
        reach(m, a, u + v, n + 1),
{
    let w = u + v;
    let k = u.len() as int;
    assert(w.take(k) =~= u);
    assert(w.skip(k) =~= v);
    assert(0 <= k <= w.len() && label(m, a, b).matches(w.take(k)) && reach(
        m,
        b,
        w.skip(k),
        ((n + 1) - 1) as nat,
    ));
}

/// A fragment with one more branch matches what it matched and what the
/// branch matches.
pub proof fn lemma_or(x: Fragment, r: Fragment, w: Seq<char>)
    ensures
        x.or(r).matches(w) == (x.matches(w) || r.matches(w)),
{
    match x {
        Fragment::Alternation(xs) => {
            let ys = xs.push(r);
            assert(x.or(r)->Alternation_0 == ys);
            if x.matches(w) {
                let i = choose|i: int| 0 <= i < xs.len() && (#[trigger] xs[i]).matches(w);
                assert(ys[i].matches(w));
            }
            if r.matches(w) {
                assert(ys[xs.len() as int].matches(w));
            }
            if x.or(r).matches(w) {
                let i = choose|i: int| 0 <= i < ys.len() && (#[trigger] ys[i]).matches(w);
                if i < xs.len() {
                    assert(xs[i].matches(w));
                }
            }
        },
        _ => {
            let ys = seq![x, r];
            assert(x.or(r)->Alternation_0 == ys);
            if x.matches(w) {
                assert(ys[0].matches(w));
            }
            if r.matches(w) {
                assert(ys[1].matches(w));
            }
            if x.or(r).matches(w) {
                let i = choose|i: int| 0 <= i < ys.len() && (#[trigger] ys[i]).matches(w);
            }
        },
    }
}

/// Three fragments in a row match three words in a row.
pub proof fn lemma_three_join(
    x: Fragment,
    y: Fragment,
    z: Fragment,
    u: Seq<char>,
    s: Seq<char>,
    v: Seq<char>,
)
    requires
        x.matches(u),
        y.matches(s),
        z.matches(v),
    ensures
        Fragment::Concat(seq![x, y, z]).matches(u + s + v),
{
    lemma_chain_one(x, u);
    lemma_chain_one(y, s);
    lemma_chain_one(z, v);
    lemma_chain_join(seq![x], seq![y], u, s);
    lemma_chain_join(seq![x] + seq![y], seq![z], u + s, v);
    assert(seq![x] + seq![y] + seq![z] =~= seq![x, y, z]);
}

/// A word that three fragments in a row match is three words in a row
/// that they match.
pub proof fn lemma_three_cut(x: Fragment, y: Fragment, z: Fragment, w: Seq<char>) -> (cut: (
    int,
    int,
))
    requires
        Fragment::Concat(seq![x, y, z]).matches(w),
    ensures
        0 <= cut.0 <= cut.1 <= w.len(),
        x.matches(w.subrange(0, cut.0)),
        y.matches(w.subrange(cut.0, cut.1)),
        z.matches(w.subrange(cut.1, w.len() as int)),
{
    assert(seq![x] + seq![y] + seq![z] =~= seq![x, y, z]);
    let k2 = lemma_chain_cut(seq![x] + seq![y], seq![z], w);
    let k1 = lemma_chain_cut(seq![x], seq![y], w.take(k2));
    lemma_chain_one(x, w.take(k2).take(k1));
    lemma_chain_one(y, w.take(k2).skip(k1));
    lemma_chain_one(z, w.skip(k2));
    assert(w.take(k2).take(k1) =~= w.subrange(0, k1));
    assert(w.take(k2).skip(k1) =~= w.subrange(k1, k2));
    assert(w.skip(k2) =~= w.subrange(k2, w.len() as int));
    (k1, k2)
}

/// Once `q` is gone, the edge from `a` to `b` matches what it matched and
/// what the way through `q` matched.
pub proof fn lemma_ripped_label(
    m: Map<(State, State), Fragment>,
    q: State,
    a: State,
    b: State,
    w: Seq<char>,
)
    requires
        a != q,
        b != q,
    ensures
        label(ripped(m, q), a, b).matches(w) == (label(m, a, b).matches(w) || (passes(m, q, a, b)
            && bypass(m, q, a, b).matches(w))),
{
    if passes(m, q, a, b) {
        if m.dom().contains((a, b)) {
            lemma_or(m[(a, b)], bypass(m, q, a, b), w);
        }
    }
}

/// A way in the old edges that comes into `q`, goes around it and on to
/// the final state is a way in the edges without `q`.
pub proof fn lemma_through(
    m: Map<(State, State), Fragment>,
    q: State,
    a: State,
    u: Seq<char>,
    s: Seq<char>,
    w: Seq<char>,
    n: nat,
) -> (n2: nat)
    requires
        a != q,
        q != State::Final,
        m.dom().contains((a, q)),
        m[(a, q)].matches(u),
        Fragment::Star(Box::new(label(m, q, q))).matches(s),
        reach(m, q, w, n),
    ensures
        reach(ripped(m, q), a, u + s + w, n2),
    decreases n, 0nat,
{
    let (b, k) = choose|b: State, k: int|
        0 <= k <= w.len() && #[trigger] label(m, q, b).matches(w.take(k)) && reach(
            m,
            b,
            w.skip(k),
            (n - 1) as nat,
        );
    let p = w.take(k);
    let rest = w.skip(k);
    assert(p + rest =~= w);
    if b == q {
        lemma_star_one(label(m, q, q), p);
        lemma_star_join(label(m, q, q), s, p);
        let n2 = lemma_through(m, q, a, u, s + p, rest, (n - 1) as nat);
        assert(u + (s + p) + rest =~= u + s + w);
        n2
    } else {
        assert(m.dom().contains((q, b)));
        lemma_three_join(
            m[(a, q)],
            Fragment::Star(Box::new(label(m, q, q))),
            m[(q, b)],
            u,
            s,
            p,
        );
        lemma_ripped_label(m, q, a, b, u + s + p);
        let n1 = lemma_complete(m, q, b, rest, (n - 1) as nat);
        lemma_edge(ripped(m, q), a, b, u + s + p, rest, n1);
        assert((u + s + p) + rest =~= u + s + w);
        n1 + 1
    }
}

/// A way in the old edges from another state than `q` to the final state
/// is a way in the edges without `q`.
pub proof fn lemma_complete(
    m: Map<(State, State), Fragment>,
    q: State,
    a: State,
    w: Seq<char>,
    n: nat,
) -> (n2: nat)
    requires
        a != q,
        q != State::Final,
        reach(m, a, w, n),
    ensures
        reach(ripped(m, q), a, w, n2),
    decreases n, 1nat,
{
    if n == 0 {
        0
    } else {
        let (b, k) = choose|b: State, k: int|
            0 <= k <= w.len() && #[trigger] label(m, a, b).matches(w.take(k)) && reach(
                m,
                b,
                w.skip(k),
                (n - 1) as nat,
            );
        let p = w.take(k);
        let rest = w.skip(k);
        assert(p + rest =~= w);
        if b == q {
            assert(m.dom().contains((a, q)));
            let n2 = lemma_through(m, q, a, p, Seq::empty(), rest, (n - 1) as nat);
            assert(p + Seq::<char>::empty() + rest =~= w);
            n2
        } else {
            lemma_ripped_label(m, q, a, b, p);
            let n1 = lemma_complete(m, q, b, rest, (n - 1) as nat);
            lemma_edge(ripped(m, q), a, b, p, rest, n1);
            n1 + 1
        }
    }
}

/// A way that goes around `q` before it goes on from `q` is a way from
/// `q`.
pub proof fn lemma_loops(
    m: Map<(State, State), Fragment>,
    q: State,
    s: Seq<char>,
    w: Seq<char>,
    n: nat,
) -> (n2: nat)
    requires
        Fragment::Star(Box::new(label(m, q, q))).matches(s),
        reach(m, q, w, n),
    ensures
        reach(m, q, s + w, n2),
    decreases s.len(),
{
    if s.len() == 0 {
        assert(s + w =~= w);
        n
    } else {
        let star = Fragment::Star(Box::new(label(m, q, q)));
        let k = choose|k: int|
            0 < k <= s.len() && label(m, q, q).matches(#[trigger] s.take(k)) && star.matches(
                s.skip(k),
            );
        let n1 = lemma_loops(m, q, s.skip(k), w, n);
        lemma_edge(m, q, q, s.take(k), s.skip(k) + w, n1);
        assert(s.take(k) + (s.skip(k) + w) =~= s + w);
        n1 + 1
    }
}

/// A way in the edges without `q` is a way in the old edges.
pub proof fn lemma_sound(
    m: Map<(State, State), Fragment>,
    q: State,
    a: State,
    w: Seq<char>,
    n: nat,
) -> (n2: nat)
    requires
        a != q,
        reach(ripped(m, q), a, w, n),
    ensures
        reach(m, a, w, n2),
    decreases n,
{
    if n == 0 {
        0
    } else {
        let r = ripped(m, q);
        let (b, k) = choose|b: State, k: int|
            0 <= k <= w.len() && #[trigger] label(r, a, b).matches(w.take(k)) && reach(
                r,
                b,
                w.skip(k),
                (n - 1) as nat,
            );
        let p = w.take(k);
        let rest = w.skip(k);
        assert(p + rest =~= w);
        assert(r.dom().contains((a, b)));
        assert(b != q);
        let n1 = lemma_sound(m, q, b, rest, (n - 1) as nat);
        lemma_ripped_label(m, q, a, b, p);
        if label(m, a, b).matches(p) {
            lemma_edge(m, a, b, p, rest, n1);
            n1 + 1
        } else {
            let star = Fragment::Star(Box::new(label(m, q, q)));
            let (k1, k2) = lemma_three_cut(m[(a, q)], star, m[(q, b)], p);
            let u = p.subrange(0, k1);
            let s = p.subrange(k1, k2);
            let v = p.subrange(k2, p.len() as int);
            lemma_edge(m, q, b, v, rest, n1);
            let n3 = lemma_loops(m, q, s, v + rest, n1 + 1);
            lemma_edge(m, a, q, u, s + (v + rest), n3);
            assert(u + (s + (v + rest)) =~= w);
            n3 + 1
        }
    }
}

/// Taking out a state of the automaton keeps what the generalized
/// automaton accepts.
pub proof fn rip_keeps_language(m: Map<(State, State), Fragment>, q: usize, w: Seq<char>)
    ensures
        accepted(ripped(m, State::State(q)), w) == accepted(m, w),
{
    let s = State::State(q);
    if accepted(m, w) {
        let n = choose|n: nat| reach(m, State::Init, w, n);
        let n2 = lemma_complete(m, s, State::Init, w, n);
    }
    if accepted(ripped(m, s), w) {
        let n = choose|n: nat| reach(ripped(m, s), State::Init, w, n);
        let n2 = lemma_sound(m, s, State::Init, w, n);
    }
}

/// Taking out states of the automaton one after the other keeps what the
/// generalized automaton accepts.
pub proof fn rip_seq_keeps_language(m: Map<(State, State), Fragment>, qs: Seq<usize>, w: Seq<char>)
    ensures
        accepted(rip_seq(m, qs), w) == accepted(m, w),
    decreases qs.len(),
{
    if qs.len() > 0 {
        rip_seq_keeps_language(m, qs.drop_last(), w);
        rip_keeps_language(rip_seq(m, qs.drop_last()), qs.last(), w);
    }
}

/// Taking out states brings no edge into the initial or out of the final
/// state.
pub proof fn lemma_rip_seq_proper(m: Map<(State, State), Fragment>, qs: Seq<usize>)
    requires
        proper(m),
    ensures
        proper(rip_seq(m, qs)),
    decreases qs.len(),
{
    if qs.len() > 0 {
        let before = rip_seq(m, qs.drop_last());
        let q = State::State(qs.last());
        lemma_rip_seq_proper(m, qs.drop_last());
        assert forall|k: (State, State)| #[trigger] ripped(before, q).dom().contains(k) implies !(
        k.1 is Init) && !(k.0 is Final) by {
            if before.dom().contains(k) {
            } else {
                assert(before.dom().contains((k.0, q)));
                assert(before.dom().contains((q, k.1)));
            }
        }
    }
}

/// When the states of the automaton are gone, the generalized automaton
/// accepts what the fragment from the initial to the final state matches.
pub proof fn lemma_cleared(m: Map<(State, State), Fragment>, w: Seq<char>)
    requires
        cleared(m),
        proper(m),
    ensures
        accepted(m, w) == label(m, State::Init, State::Final).matches(w),
{
    let direct = label(m, State::Init, State::Final);
    if direct.matches(w) {
        let k = w.len() as int;
        assert(w.take(k) =~= w);
        assert(reach(m, State::Final, w.skip(k), 0));
        assert(0 <= k <= w.len() && label(m, State::Init, State::Final).matches(w.take(k))
            && reach(m, State::Final, w.skip(k), (1 - 1) as nat));
        assert(reach(m, State::Init, w, 1));
    }
    if accepted(m, w) {
        let n = choose|n: nat| reach(m, State::Init, w, n);
        assert(n > 0);
        let (b, k) = choose|b: State, k: int|
            0 <= k <= w.len() && #[trigger] label(m, State::Init, b).matches(w.take(k)) && reach(
                m,
                b,
                w.skip(k),
                (n - 1) as nat,
            );
        assert(m.dom().contains((State::Init, b)));
        assert(b == State::Final);
        if n - 1 > 0 {
            let v = w.skip(k);
            let (b2, k2) = choose|b2: State, k2: int|
                0 <= k2 <= v.len() && #[trigger] label(m, State::Final, b2).matches(v.take(k2))
                    && reach(m, b2, v.skip(k2), (n - 2) as nat);
            assert(m.dom().contains((State::Final, b2)));
        }
        assert(w.skip(k).len() == 0);
        assert(w.take(k) =~= w);
    }
}

/// A group of the generalized automaton of `a` matches the one symbol on
/// which `a` steps from the one state to the other.
pub proof fn lemma_lifted_label(a: Automaton, s: usize, t: usize, u: Seq<char>)
    requires
        a.wf(),
        a.has_state(s),
    ensures
        label(lifted(a), State::State(s), State::State(t)).matches(u) == (u.len() == 1
            && a.has_symbol(u[0]) && a.next(s, u[0]) == t),
{
    let row = a.row(s);
    let i = key_index(a.table, s);
    a.lemma_row(i);
    lemma_fanned(row);
    let f = fanned(row);
    if u.len() == 1 {
        let x = u[0];
        if a.has_symbol(x) && a.next(s, x) == t {
            a.lemma_step(s, x);
            let j = key_index(row, x);
            lemma_key_index(row, j);
            assert(row[j] == (x, t));
            assert(row[j].1 == t);
            assert(has_key(f, t));
            assert(lookup(f, t).contains(x));
        }
        if label(lifted(a), State::State(s), State::State(t)).matches(u) {
            assert(has_key(f, t));
            assert(lookup(f, t).contains(x));
            let j = choose|j: int| 0 <= j < row.len() && #[trigger] row[j] == (x, t);
            assert(row[j].0 == x);
            lemma_key_index(row, j);
            a.lemma_row_symbols(s, x);
        }
    }
}

/// In the generalized automaton of `a`, a way from a state of `a` to the
/// final state matches a word that `a` accepts from that state, one edge
/// for each symbol and one more.
pub proof fn lemma_lifted(a: Automaton, s: usize, w: Seq<char>, n: nat)
    requires
        a.wf(),
        a.has_state(s),
    ensures
        reach(lifted(a), State::State(s), w, n) == (n == w.len() + 1 && a.accepts_from(s, w)),
    decreases n,
{
    let m = lifted(a);
    let here = State::State(s);
    if n > 0 {
        if reach(m, here, w, n) {
            let (b, k) = choose|b: State, k: int|
                0 <= k <= w.len() && #[trigger] label(m, here, b).matches(w.take(k)) && reach(
                    m,
                    b,
                    w.skip(k),
                    (n - 1) as nat,
                );
            match b {
                State::Final => {
                    lemma_eps(w.take(k));
                    assert(k == 0);
                    assert(w.skip(0) =~= w);
                    if n - 1 > 0 {
                        let (b2, k2) = choose|b2: State, k2: int|
                            0 <= k2 <= w.len() && #[trigger] label(m, State::Final, b2).matches(w.take(k2))
                                && reach(m, b2, w.skip(k2), (n - 2) as nat);
                        assert(false);
                    }
                    assert(w.len() == 0);
                    assert(a.is_accepting(s));
                },
                State::State(t) => {
                    lemma_lifted_label(a, s, t, w.take(k));
                    assert(k == 1);
                    assert(w.take(1)[0] == w[0]);
                    a.lemma_step(s, w[0]);
                    lemma_lifted(a, t, w.skip(1), (n - 1) as nat);
                    assert forall|i: int| 0 <= i < w.len() implies a.has_symbol(#[trigger] w[i]) by {
                        if i > 0 {
                            assert(w.skip(1)[i - 1] == w[i]);
                        }
                    }
                },
                State::Init => {
                    assert(false);
                },
            }
        }
        if n == w.len() + 1 && a.accepts_from(s, w) {
            if w.len() == 0 {
                lemma_eps(w.take(0));
                assert(reach(m, State::Final, w.skip(0), 0));
                assert(0 <= 0 <= w.len() && label(m, here, State::Final).matches(w.take(0))
                    && reach(m, State::Final, w.skip(0), (n - 1) as nat));
            } else {
                let x = w[0];
                assert(a.has_symbol(x));
                a.lemma_step(s, x);
                let t = a.next(s, x);
                assert(w.take(1).len() == 1 && w.take(1)[0] == x);
                lemma_lifted_label(a, s, t, w.take(1));
                assert forall|i: int| 0 <= i < w.skip(1).len() implies a.has_symbol(
                    #[trigger] w.skip(1)[i],
                ) by {
                    assert(w.skip(1)[i] == w[i + 1]);
                }
                lemma_lifted(a, t, w.skip(1), (n - 1) as nat);
                assert(0 <= 1 <= w.len() && label(m, here, State::State(t)).matches(w.take(1))
                    && reach(m, State::State(t), w.skip(1), (n - 1) as nat));
            }
        }
    }
}

/// The generalized automaton of `a` accepts what `a` accepts.
pub proof fn lemma_lifted_accepts(a: Automaton, w: Seq<char>)
    requires
        a.wf(),
    ensures
        accepted(lifted(a), w) == a.accepts(w),
{
    let m = lifted(a);
    let first = State::State(a.start);
    if accepted(m, w) {
        let n = choose|n: nat| reach(m, State::Init, w, n);
        assert(n > 0);
        let (b, k) = choose|b: State, k: int|
            0 <= k <= w.len() && #[trigger] label(m, State::Init, b).matches(w.take(k)) && reach(
                m,
                b,
                w.skip(k),
                (n - 1) as nat,
            );
        assert(b == first);
        lemma_eps(w.take(k));
        assert(w.skip(0) =~= w);
        lemma_lifted(a, a.start, w, (n - 1) as nat);
    }
    if a.accepts(w) {
        let n = (w.len() + 2) as nat;
        lemma_lifted(a, a.start, w, (n - 1) as nat);
        lemma_eps(w.take(0));
        assert(w.skip(0) =~= w);
        assert(0 <= 0 <= w.len() && label(m, State::Init, first).matches(w.take(0)) && reach(
            m,
            first,
            w.skip(0),
            (n - 1) as nat,
        ));
        assert(reach(m, State::Init, w, n));
    }
}

/// A regular expression that state elimination gives for an automaton
/// matches exactly the words that the automaton accepts.
pub proof fn regex_matches_what_dfa_accepts(a: Automaton, r: Fragment, w: Seq<char>)
    requires
        a.wf(),
        eliminates_to(a, r),
    ensures
        r.matches(w) == a.accepts(w),
{
    let qs = choose|qs: Seq<usize>|
        cleared(#[trigger] rip_seq(lifted(a), qs)) && r == label(
            rip_seq(lifted(a), qs),
            State::Init,
            State::Final,
        ).simplified();
    let m = rip_seq(lifted(a), qs);
    simplify_keeps_language(label(m, State::Init, State::Final), w);
    assert(proper(lifted(a)));
    lemma_rip_seq_proper(lifted(a), qs);
    lemma_cleared(m, w);
    rip_seq_keeps_language(lifted(a), qs, w);
    lemma_lifted_accepts(a, w);
}

} // verus!
