//! Generalized automata and the regular expression of a deterministic
//! automaton by state elimination.

use vstd::prelude::*;
use crate::automaton::fanned;
use crate::dfa::{fan_model, table_model, Dfa};
use crate::elimination::{
    bypass,
    cleared,
    eliminates_to,
    endpoints,
    enters,
    label,
    leaves,
    lemma_endpoints,
    lemma_lift_accept,
    lemma_lift_end,
    lemma_lift_fan,
    lemma_lift_init,
    lemma_lift_row,
    lemma_lift_start,
    lemma_put_map,
    lemma_rip_end,
    lemma_rip_fold,
    lemma_rip_next,
    lemma_rip_skip,
    lemma_rip_start,
    lemma_ripped_touches,
    lifted,
    lifted_upto,
    other_than,
    partly_ripped,
    rip_seq,
    ripped,
    to_map,
    touches,
    without,
};
use crate::emptiness::pattern_text_where_words;
use crate::engine::MatcherError;
use crate::fragment::Fragment;
use crate::kleene::regex_matches_what_dfa_accepts;
use crate::lists::{lemma_filter_drops, lemma_filter_member};
use crate::simple_regex::Re;
use crate::simplification::simplify_is_idempotent;
use crate::table::{distinct_keys, has_key, key_index, lemma_key_index, lookup, put};

verus! {

/// A state of a generalized automaton: a state of the automaton it was
/// made from, the initial state or the final state.
#[derive(PartialEq, Eq, Structural, Hash, Debug, Copy, Clone)]
pub enum State {
    /// A state of the automaton.
    State(usize),
    /// The initial state: no edge ends at it.
    Init,
    /// The final state: no edge starts at it.
    Final,
}

/// A generalized automaton: at most one edge from a state to a state, with
/// a regular-expression fragment on it.
pub struct Gnfa {
    delta: Vec<(State, State, Re)>,
}

/// The pairs of ends and fragment that a list of edges stands for.
pub open spec fn edges_model(es: Seq<(State, State, Re)>) -> Seq<((State, State), Fragment)> {
    Seq::new(es.len(), |i: int| ((es[i].0, es[i].1), es[i].2@))
}

/// The pairs of state and fragment that a list of edges at one state
/// stands for.
pub open spec fn ends_model(es: Seq<(State, Re)>) -> Seq<(State, Fragment)> {
    Seq::new(es.len(), |i: int| (es[i].0, es[i].1@))
}

/// Whether `e` is one of the first `i` pairs of `t`.
pub open spec fn among<K, V>(t: Seq<(K, V)>, i: int, e: (K, V)) -> bool {
    exists|j: int| 0 <= j < i && #[trigger] t[j] == e
}

impl View for Gnfa {
    type V = Map<(State, State), Fragment>;

    closed spec fn view(&self) -> Map<(State, State), Fragment> {
        to_map(edges_model(self.delta@))
    }
}

impl Gnfa {
    /// Whether no two edges have the same ends.
    pub closed spec fn wf(&self) -> bool {
        distinct_keys(edges_model(self.delta@))
    }

    /// The place of the edge from `a` to `b`, where there is one.
    fn find_edge(&self, a: State, b: State) -> (r: Option<usize>)
        ensures
            r is Some <==> self@.dom().contains((a, b)),
            r matches Some(i) ==> i < self.delta.len() && self.delta[i as int].0 == a
                && self.delta[i as int].1 == b,
    {
        let ghost t = edges_model(self.delta@);
        let mut i: usize = 0;
        while i < self.delta.len()
            invariant
                i <= self.delta.len(),
                t == edges_model(self.delta@),
                forall|j: int| 0 <= j < i ==> (#[trigger] t[j]).0 != (a, b),
            decreases self.delta.len() - i,
        {
            if self.delta[i].0 == a && self.delta[i].1 == b {
                assert(t[i as int].0 == (a, b));
                return Some(i);
            }
            assert(t[i as int].0 != (a, b));
            i += 1;
        }
        assert(!has_key(t, (a, b))) by {
            if has_key(t, (a, b)) {
                let j = key_index(t, (a, b));
                assert(t[j].0 == (a, b));
            }
        }
        None
    }

    /// The generalized automaton without edges.
    fn empty() -> (g: Gnfa)
        ensures
            g.wf(),
            g@ == Map::<(State, State), Fragment>::empty(),
    {
        let g = Gnfa { delta: Vec::new() };
        assert(g@ =~= Map::<(State, State), Fragment>::empty());
        g
    }

    /// Puts the fragment `r` on the edge from `a` to `b`: as one more
    /// branch of the fragment that is there, or as a new edge.
    fn merge_edge(&mut self, a: State, b: State, r: Re)
        requires
            old(self).wf(),
        ensures
            final(self).wf(),
            final(self)@ == old(self)@.insert(
                (a, b),
                if old(self)@.dom().contains((a, b)) {
                    old(self)@[(a, b)].or(r@)
                } else {
                    r@
                },
            ),
    {
        let ghost t = edges_model(self.delta@);
        match self.find_edge(a, b) {
            Some(i) => {
                proof {
                    lemma_key_index(t, i as int);
                }
                let mut cur = self.delta[i].2.clone();
                cur.add_or(r);
                self.delta.set(i, (a, b, cur));
                proof {
                    assert(edges_model(self.delta@) =~= put(t, (a, b), cur@));
                    lemma_put_map(t, (a, b), cur@);
                }
            },
            None => {
                self.delta.push((a, b, r));
                proof {
                    assert(edges_model(self.delta@) =~= put(t, (a, b), r@));
                    lemma_put_map(t, (a, b), r@);
                }
            },
        }
    }

    /// The fragment on the edge from `s` to `next`: the empty language
    /// where there is no edge.
    fn transition(&self, s: State, next: State) -> (r: Re)
        requires
            self.wf(),
        ensures
            r@ == label(self@, s, next),
    {
        match self.find_edge(s, next) {
            Some(i) => {
                proof {
                    lemma_key_index(edges_model(self.delta@), i as int);
                }
                self.delta[i].2.clone()
            },
            None => Re::Empty,
        }
    }

    /// The fragment on the edge from `s` to itself.
    fn loop_regex(&self, s: State) -> (r: Re)
        requires
            self.wf(),
        ensures
            r@ == label(self@, s, s),
    {
        self.transition(s, s)
    }

    /// The edges that end at the state `next0` of the automaton: each with
    /// the state it starts at and its fragment.
    fn incoming_edges(&self, next0: usize) -> (v: Vec<(State, Re)>)
        requires
            self.wf(),
        ensures
            enters(self@, State::State(next0), ends_model(v@)),
    {
        let ghost t = edges_model(self.delta@);
        let ghost q = State::State(next0);
        let mut v: Vec<(State, Re)> = Vec::new();
        let mut i: usize = 0;
        while i < self.delta.len()
            invariant
                i <= self.delta.len(),
                t == edges_model(self.delta@),
                distinct_keys(t),
                q == State::State(next0),
                v.len() <= i,
                forall|k: int|
                    0 <= k < v.len() ==> among(
                        t,
                        i as int,
                        (((#[trigger] ends_model(v@)[k]).0, q), ends_model(v@)[k].1),
                    ),
                forall|j: int|
                    0 <= j < i && (#[trigger] t[j]).0.1 == q ==> has_key(ends_model(v@), t[j].0.0),
                distinct_keys(ends_model(v@)),
            decreases self.delta.len() - i,
        {
            let ghost before = ends_model(v@);
            if self.delta[i].1 == State::State(next0) {
                let s = self.delta[i].0;
                let r = self.delta[i].2.clone();
                v.push((s, r));
                proof {
                    let now = ends_model(v@);
                    assert(now =~= before.push((s, r@)));
                    assert(t[i as int] == ((s, q), r@));
                    assert forall|k: int| 0 <= k < now.len() implies among(
                        t,
                        i + 1,
                        (((#[trigger] now[k]).0, q), now[k].1),
                    ) by {
                        if k < before.len() {
                            assert(among(t, i as int, ((before[k].0, q), before[k].1)));
                            let j = choose|j: int|
                                0 <= j < i && #[trigger] t[j] == ((before[k].0, q), before[k].1);
                            assert(t[j] == ((now[k].0, q), now[k].1));
                        } else {
                            assert(t[i as int] == ((now[k].0, q), now[k].1));
                        }
                    }
                    assert forall|j: int| 0 <= j < i + 1 && (#[trigger] t[j]).0.1 == q implies has_key(
                        now,
                        t[j].0.0,
                    ) by {
                        if j < i {
                            let k = key_index(before, t[j].0.0);
                            assert(now[k].0 == t[j].0.0);
                        } else {
                            assert(now[before.len() as int].0 == s);
                        }
                    }
                    assert forall|k1: int, k2: int| 0 <= k1 < k2 < now.len() implies (
                    #[trigger] now[k1]).0 != (#[trigger] now[k2]).0 by {
                        if k2 < before.len() {
                            assert(before[k1].0 != before[k2].0);
                        } else {
                            assert(among(t, i as int, ((before[k1].0, q), before[k1].1)));
                            let j = choose|j: int|
                                0 <= j < i && #[trigger] t[j] == ((before[k1].0, q), before[k1].1);
                            assert(t[j].0 != t[i as int].0);
                        }
                    }
                }
            }
            i += 1;
        }
        proof {
            let m = ends_model(v@);
            assert forall|s: State| has_key(m, s) <==> #[trigger] self@.dom().contains((s, q)) by {
                if has_key(m, s) {
                    let k = key_index(m, s);
                    assert(among(t, i as int, ((m[k].0, q), m[k].1)));
                    let j = choose|j: int|
                        0 <= j < i && #[trigger] t[j] == ((m[k].0, q), m[k].1);
                    assert(t[j].0 == (s, q));
                }
                if self@.dom().contains((s, q)) {
                    let j = key_index(t, (s, q));
                    assert(t[j].0.1 == q);
                }
            }
            assert forall|s: State| #[trigger] has_key(m, s) implies lookup(m, s) == self@[(s, q)] by {
                let k = key_index(m, s);
                assert(among(t, i as int, ((m[k].0, q), m[k].1)));
                let j = choose|j: int| 0 <= j < i && #[trigger] t[j] == ((m[k].0, q), m[k].1);
                lemma_key_index(t, j);
            }
        }
        v
    }

    /// The edges that start at the state `s0` of the automaton: each with
    /// the state it ends at and its fragment.
    fn outgoing_edges(&self, s0: usize) -> (v: Vec<(State, Re)>)
        requires
            self.wf(),
        ensures
            leaves(self@, State::State(s0), ends_model(v@)),
    {
        let ghost t = edges_model(self.delta@);
        let ghost q = State::State(s0);
        let mut v: Vec<(State, Re)> = Vec::new();
        let mut i: usize = 0;
        while i < self.delta.len()
            invariant
                i <= self.delta.len(),
                t == edges_model(self.delta@),
                distinct_keys(t),
                q == State::State(s0),
                v.len() <= i,
                forall|k: int|
                    0 <= k < v.len() ==> among(
                        t,
                        i as int,
                        ((q, (#[trigger] ends_model(v@)[k]).0), ends_model(v@)[k].1),
                    ),
                forall|j: int|
                    0 <= j < i && (#[trigger] t[j]).0.0 == q ==> has_key(ends_model(v@), t[j].0.1),
                distinct_keys(ends_model(v@)),
            decreases self.delta.len() - i,
        {
            let ghost before = ends_model(v@);
            if self.delta[i].0 == State::State(s0) {
                let s = self.delta[i].1;
                let r = self.delta[i].2.clone();
                v.push((s, r));
                proof {
                    let now = ends_model(v@);
                    assert(now =~= before.push((s, r@)));
                    assert(t[i as int] == ((q, s), r@));
                    assert forall|k: int| 0 <= k < now.len() implies among(
                        t,
                        i + 1,
                        ((q, (#[trigger] now[k]).0), now[k].1),
                    ) by {
                        if k < before.len() {
                            assert(among(t, i as int, ((q, before[k].0), before[k].1)));
                            let j = choose|j: int|
                                0 <= j < i && #[trigger] t[j] == ((q, before[k].0), before[k].1);
                            assert(t[j] == ((q, now[k].0), now[k].1));
                        } else {
                            assert(t[i as int] == ((q, now[k].0), now[k].1));
                        }
                    }
                    assert forall|j: int| 0 <= j < i + 1 && (#[trigger] t[j]).0.0 == q implies has_key(
                        now,
                        t[j].0.1,
                    ) by {
                        if j < i {
                            let k = key_index(before, t[j].0.1);
                            assert(now[k].0 == t[j].0.1);
                        } else {
                            assert(now[before.len() as int].0 == s);
                        }
                    }
                    assert forall|k1: int, k2: int| 0 <= k1 < k2 < now.len() implies (
                    #[trigger] now[k1]).0 != (#[trigger] now[k2]).0 by {
                        if k2 < before.len() {
                            assert(before[k1].0 != before[k2].0);
                        } else {
                            assert(among(t, i as int, ((q, before[k1].0), before[k1].1)));
                            let j = choose|j: int|
                                0 <= j < i && #[trigger] t[j] == ((q, before[k1].0), before[k1].1);
                            assert(t[j].0 != t[i as int].0);
                        }
                    }
                }
            }
            i += 1;
        }
        proof {
            let m = ends_model(v@);
            assert forall|s: State| has_key(m, s) <==> #[trigger] self@.dom().contains((q, s)) by {
                if has_key(m, s) {
                    let k = key_index(m, s);
                    assert(among(t, i as int, ((q, m[k].0), m[k].1)));
                    let j = choose|j: int|
                        0 <= j < i && #[trigger] t[j] == ((q, m[k].0), m[k].1);
                    assert(t[j].0 == (q, s));
                }
                if self@.dom().contains((q, s)) {
                    let j = key_index(t, (q, s));
                    assert(t[j].0.0 == q);
                }
            }
            assert forall|s: State| #[trigger] has_key(m, s) implies lookup(m, s) == self@[(q, s)] by {
                let k = key_index(m, s);
                assert(among(t, i as int, ((q, m[k].0), m[k].1)));
                let j = choose|j: int| 0 <= j < i && #[trigger] t[j] == ((q, m[k].0), m[k].1);
                lemma_key_index(t, j);
            }
        }
        v
    }

    /// Takes out every edge that starts or ends at the state `s` of the
    /// automaton.
    fn delete_state(&mut self, s: usize)
        requires
            old(self).wf(),
        ensures
            final(self).wf(),
            final(self)@ == without(old(self)@, State::State(s)),
    {
        let ghost t = edges_model(self.delta@);
        let ghost q = State::State(s);
        let mut kept: Vec<(State, State, Re)> = Vec::new();
        let mut i: usize = 0;
        while i < self.delta.len()
            invariant
                i <= self.delta.len(),
                t == edges_model(self.delta@),
                distinct_keys(t),
                q == State::State(s),
                kept.len() <= i,
                forall|k: int|
                    0 <= k < kept.len() ==> among(t, i as int, #[trigger] edges_model(kept@)[k])
                        && edges_model(kept@)[k].0.0 != q && edges_model(kept@)[k].0.1 != q,
                forall|j: int|
                    0 <= j < i && (#[trigger] t[j]).0.0 != q && t[j].0.1 != q ==> has_key(
                        edges_model(kept@),
                        t[j].0,
                    ),
                distinct_keys(edges_model(kept@)),
            decreases self.delta.len() - i,
        {
            let ghost before = edges_model(kept@);
            let a = self.delta[i].0;
            let b = self.delta[i].1;
            if !(a == State::State(s) || b == State::State(s)) {
                let r = self.delta[i].2.clone();
                kept.push((a, b, r));
                proof {
                    let now = edges_model(kept@);
                    assert(now =~= before.push(((a, b), r@)));
                    assert(t[i as int] == ((a, b), r@));
                    assert forall|k: int| 0 <= k < now.len() implies among(
                        t,
                        i + 1,
                        #[trigger] now[k],
                    ) && now[k].0.0 != q && now[k].0.1 != q by {
                        if k < before.len() {
                            assert(among(t, i as int, before[k]));
                            let j = choose|j: int| 0 <= j < i && #[trigger] t[j] == before[k];
                            assert(t[j] == now[k]);
                        } else {
                            assert(t[i as int] == now[k]);
                        }
                    }
                    assert forall|j: int|
                        0 <= j < i + 1 && (#[trigger] t[j]).0.0 != q && t[j].0.1 != q implies has_key(
                        now,
                        t[j].0,
                    ) by {
                        if j < i {
                            let k = key_index(before, t[j].0);
                            assert(now[k].0 == t[j].0);
                        } else {
                            assert(now[before.len() as int].0 == (a, b));
                        }
                    }
                    assert forall|k1: int, k2: int| 0 <= k1 < k2 < now.len() implies (
                    #[trigger] now[k1]).0 != (#[trigger] now[k2]).0 by {
                        if k2 < before.len() {
                            assert(before[k1].0 != before[k2].0);
                        } else {
                            assert(among(t, i as int, before[k1]));
                            let j = choose|j: int| 0 <= j < i && #[trigger] t[j] == before[k1];
                            assert(t[j].0 != t[i as int].0);
                        }
                    }
                }
            }
            i += 1;
        }
        proof {
            let m = edges_model(kept@);
            let goal = without(to_map(t), q);
            assert forall|k: (State, State)| to_map(m).dom().contains(k) <==> goal.dom().contains(
                k,
            ) by {
                if has_key(m, k) {
                    let p = key_index(m, k);
                    assert(among(t, i as int, m[p]));
                    let j = choose|j: int| 0 <= j < i && #[trigger] t[j] == m[p];
                    assert(t[j].0 == k);
                }
                if goal.dom().contains(k) {
                    let j = key_index(t, k);
                    assert(t[j].0.0 != q && t[j].0.1 != q);
                }
            }
            assert forall|k: (State, State)| to_map(m).dom().contains(k) implies to_map(m)[k]
                == goal[k] by {
                let p = key_index(m, k);
                assert(among(t, i as int, m[p]));
                let j = choose|j: int| 0 <= j < i && #[trigger] t[j] == m[p];
                lemma_key_index(t, j);
            }
            assert(to_map(m) =~= goal);
        }
        self.delta = kept;
    }

    /// A state of the automaton at which an edge starts or ends, where
    /// there is one.
    fn arbitrary_state(&self) -> (r: Option<usize>)
        ensures
            r matches Some(q) ==> touches(self@, State::State(q)),
            r is None ==> cleared(self@),
    {
        let ghost t = edges_model(self.delta@);
        let mut i: usize = 0;
        while i < self.delta.len()
            invariant
                i <= self.delta.len(),
                t == edges_model(self.delta@),
                forall|j: int|
                    0 <= j < i ==> !((#[trigger] t[j]).0.0 is State) && !(t[j].0.1 is State),
            decreases self.delta.len() - i,
        {
            assert(t[i as int].0 == (self.delta[i as int].0, self.delta[i as int].1));
            match self.delta[i].0 {
                State::State(s1) => {
                    assert(self@.dom().contains(t[i as int].0));
                    return Some(s1);
                },
                _ => match self.delta[i].1 {
                    State::State(s2) => {
                        assert(self@.dom().contains(t[i as int].0));
                        return Some(s2);
                    },
                    _ => {},
                },
            }
            i += 1;
        }
        assert forall|k: (State, State)| #[trigger] self@.dom().contains(k) implies !(k.0 is State)
            && !(k.1 is State) by {
            let j = key_index(t, k);
            assert(t[j].0 == k);
        }
        None
    }

    /// Puts the fragment `r` on the edge from `a` to `b`, in the place of
    /// what was there.
    fn set_edge(&mut self, a: State, b: State, r: Re)
        requires
            old(self).wf(),
        ensures
            final(self).wf(),
            final(self)@ == old(self)@.insert((a, b), r@),
    {
        let ghost t = edges_model(self.delta@);
        match self.find_edge(a, b) {
            Some(i) => {
                proof {
                    lemma_key_index(t, i as int);
                }
                self.delta.set(i, (a, b, r));
                proof {
                    assert(edges_model(self.delta@) =~= put(t, (a, b), r@));
                    lemma_put_map(t, (a, b), r@);
                }
            },
            None => {
                self.delta.push((a, b, r));
                proof {
                    assert(edges_model(self.delta@) =~= put(t, (a, b), r@));
                    lemma_put_map(t, (a, b), r@);
                }
            },
        }
    }

    /// The generalized automaton of `dfa`.
    fn from_dfa(dfa: &Dfa) -> (g: Gnfa)
        requires
            dfa@.wf(),
        ensures
            g.wf(),
            g@ == lifted(dfa@),
    {
        let ghost a = dfa@;
        let table = dfa.transition_map();
        let mut g = Gnfa::empty();
        let mut i: usize = 0;
        proof {
            lemma_lift_start(a);
        }
        while i < table.len()
            invariant
                i <= table.len(),
                a == dfa@,
                a.wf(),
                table_model(table@) == a.table,
                g.wf(),
                g@ == lifted_upto(a, i as int, 0, false, 0),
            decreases table.len() - i,
        {
            let s1 = table[i].0;
            proof {
                a.lemma_row(i as int);
                assert(a.table[i as int].0 == s1);
            }
            let fan = dfa.next_states(s1);
            let mut j: usize = 0;
            while j < fan.len()
                invariant
                    j <= fan.len(),
                    i < table.len(),
                    a == dfa@,
                    a.wf(),
                    a.table.len() == table.len(),
                    a.table[i as int].0 == s1,
                    fan_model(fan@) == fanned(a.table[i as int].1),
                    g.wf(),
                    g@ == lifted_upto(a, i as int, j as int, false, 0),
                decreases fan.len() - j,
            {
                let s2 = fan[j].0;
                let xs = fan[j].1.clone();
                proof {
                    assert(xs@ =~= fan[j as int].1@);
                    assert(fan_model(fan@)[j as int] == (s2, xs@));
                    lemma_lift_fan(a, i as int, j as int);
                }
                g.set_edge(State::State(s1), State::State(s2), Re::Group(xs));
                j += 1;
            }
            proof {
                lemma_lift_row(a, i as int);
            }
            i += 1;
        }
        proof {
            lemma_lift_init(a);
        }
        g.set_edge(State::Init, State::State(dfa.init_state()), Re::eps());
        let accept = dfa.accept_states();
        let mut k: usize = 0;
        while k < accept.len()
            invariant
                k <= accept.len(),
                a == dfa@,
                a.table.len() == table.len(),
                accept@ == a.accepting,
                g.wf(),
                g@ == lifted_upto(a, table.len() as int, 0, true, k as int),
            decreases accept.len() - k,
        {
            proof {
                lemma_lift_accept(a, k as int);
            }
            g.set_edge(State::State(accept[k]), State::Final, Re::eps());
            k += 1;
        }
        proof {
            lemma_lift_end(a);
        }
        g
    }

    /// Takes out the state `q_rip` of the automaton: every way through it,
    /// from another state into it, around it any number of times and out
    /// of it to another state, is folded into the edge between its ends,
    /// and the edges at the state are taken out.
    fn rip_state(&mut self, q_rip: usize)
        requires
            old(self).wf(),
        ensures
            final(self).wf(),
            final(self)@ == ripped(old(self)@, State::State(q_rip)),
    {
        let ghost m = self@;
        let ghost q = State::State(q_rip);
        let in_list = self.incoming_edges(q_rip);
        let out_list = self.outgoing_edges(q_rip);
        let r_rip = Re::star(self.loop_regex(State::State(q_rip)));
        let ghost ins = ends_model(in_list@);
        let ghost outs = ends_model(out_list@);
        let mut i: usize = 0;
        proof {
            lemma_rip_start(m, q, ins, outs);
        }
        while i < in_list.len()
            invariant
                i <= in_list.len(),
                q == State::State(q_rip),
                ins == ends_model(in_list@),
                outs == ends_model(out_list@),
                enters(m, q, ins),
                leaves(m, q, outs),
                r_rip@ == Fragment::Star(Box::new(label(m, q, q))),
                self.wf(),
                self@ == partly_ripped(m, q, ins, outs, i as int, 0),
            decreases in_list.len() - i,
        {
            let q_in = in_list[i].0;
            assert(ins[i as int].0 == q_in);
            if q_in != State::State(q_rip) {
                let mut j: usize = 0;
                while j < out_list.len()
                    invariant
                        j <= out_list.len(),
                        i < in_list.len(),
                        q == State::State(q_rip),
                        q_in != q,
                        q_in == ins[i as int].0,
                        ins == ends_model(in_list@),
                        outs == ends_model(out_list@),
                        enters(m, q, ins),
                        leaves(m, q, outs),
                        r_rip@ == Fragment::Star(Box::new(label(m, q, q))),
                        self.wf(),
                        self@ == partly_ripped(m, q, ins, outs, i as int, j as int),
                    decreases out_list.len() - j,
                {
                    let q_out = out_list[j].0;
                    assert(outs[j as int].0 == q_out);
                    if q_out != State::State(q_rip) {
                        let mut parts: Vec<Re> = Vec::new();
                        parts.push(in_list[i].1.clone());
                        parts.push(r_rip.clone());
                        parts.push(out_list[j].1.clone());
                        proof {
                            lemma_rip_fold(m, q, ins, outs, i as int, j as int);
                            Re::lemma_concat_model(parts);
                            assert(ins[i as int].1 == in_list[i as int].1@);
                            assert(outs[j as int].1 == out_list[j as int].1@);
                            assert(Re::models(parts@) =~= seq![
                                m[(q_in, q)],
                                Fragment::Star(Box::new(label(m, q, q))),
                                m[(q, q_out)],
                            ]);
                            assert(Re::Concat(parts)@ == bypass(m, q, q_in, q_out));
                        }
                        self.merge_edge(q_in, q_out, Re::Concat(parts));
                    } else {
                        proof {
                            lemma_rip_skip(m, q, ins, outs, i as int, j as int);
                        }
                    }
                    j += 1;
                }
            }
            proof {
                lemma_rip_next(m, q, ins, outs, i as int);
            }
            i += 1;
        }
        proof {
            lemma_rip_end(m, q, ins, outs);
        }
        self.delete_state(q_rip);
    }

    /// Takes out the states of the automaton one after the other, until no
    /// edge starts or ends at one.
    fn rip_all(&mut self)
        requires
            old(self).wf(),
        ensures
            final(self).wf(),
            cleared(final(self)@),
            exists|qs: Seq<usize>| final(self)@ == #[trigger] rip_seq(old(self)@, qs),
    {
        let ghost m0 = self@;
        let ghost mut todo: Seq<usize> = endpoints(edges_model(self.delta@));
        let ghost mut qs: Seq<usize> = Seq::empty();
        proof {
            assert forall|q: usize| touches(self@, State::State(q)) implies todo.contains(q) by {
                lemma_endpoints(edges_model(self.delta@), q);
            }
        }
        loop
            invariant
                self.wf(),
                m0 == old(self)@,
                self@ == rip_seq(m0, qs),
                forall|q: usize| touches(self@, State::State(q)) ==> todo.contains(q),
            decreases todo.len(),
        {
            match self.arbitrary_state() {
                Some(q) => {
                    let ghost before = self@;
                    self.rip_state(q);
                    proof {
                        assert(todo.contains(q));
                        let p = choose|p: int| 0 <= p < todo.len() && todo[p] == q;
                        lemma_filter_drops(todo, other_than(q), p);
                        let rest = todo.filter(other_than(q));
                        assert forall|s: usize| touches(self@, State::State(s)) implies rest.contains(
                            s,
                        ) by {
                            lemma_ripped_touches(before, State::State(q), State::State(s));
                            lemma_filter_member(todo, other_than(q), s);
                        }
                        assert(qs.push(q).drop_last() =~= qs);
                        qs = qs.push(q);
                        todo = rest;
                    }
                },
                None => {
                    assert(self@ == rip_seq(old(self)@, qs));
                    return ;
                },
            }
        }
    }

    /// The regular expression of the generalized automaton: the simplified
    /// fragment from the initial to the final state, once the states of
    /// the automaton are taken out.
    fn to_re(self) -> (r: Re)
        requires
            self.wf(),
        ensures
            exists|qs: Seq<usize>|
                cleared(#[trigger] rip_seq(self@, qs)) && r@ == label(
                    rip_seq(self@, qs),
                    State::Init,
                    State::Final,
                ).simplified(),
    {
        let mut g = self;
        g.rip_all();
        g.transition(State::Init, State::Final).simplify()
    }

    /// The matcher of the regular expression that state elimination gives
    /// for `dfa`. Exactly where `dfa` accepts no word, the library refuses
    /// with `NoText`: the empty language has no pattern text. Where `dfa`
    /// accepts a word, the engine decides, and its refusal comes back as
    /// `Refused`.
    pub fn dfa_re(dfa: &Dfa) -> (m: Result<regex::Regex, MatcherError>)
        requires
            dfa@.wf(),
        ensures
            m matches Err(MatcherError::NoText) <==> forall|w: Seq<char>| !dfa@.accepts(w),
    {
        let r = Gnfa::regex_for(dfa);
        proof {
            pattern_text_where_words(dfa@, r@);
        }
        r.regex()
    }

    /// The regular expression that state elimination gives for `dfa`. It
    /// is simplified, and matches exactly the words that `dfa` accepts.
    pub fn regex_for(dfa: &Dfa) -> (r: Re)
        requires
            dfa@.wf(),
        ensures
            eliminates_to(dfa@, r@),
            r@.simplified() == r@,
            forall|w: Seq<char>| r@.matches(w) == dfa@.accepts(w),
            r@ is Empty <==> forall|w: Seq<char>| !dfa@.accepts(w),
    {
        let r = Gnfa::from_dfa(dfa).to_re();
        proof {
            pattern_text_where_words(dfa@, r@);
        }
        proof {
            let qs = choose|qs: Seq<usize>|
                cleared(#[trigger] rip_seq(lifted(dfa@), qs)) && r@ == label(
                    rip_seq(lifted(dfa@), qs),
                    State::Init,
                    State::Final,
                ).simplified();
            simplify_is_idempotent(label(rip_seq(lifted(dfa@), qs), State::Init, State::Final));
            assert forall|w: Seq<char>| r@.matches(w) == dfa@.accepts(w) by {
                regex_matches_what_dfa_accepts(dfa@, r@, w);
            }
        }
        r
    }

    /// The pattern text of the regular expression that state elimination
    /// gives for `dfa`, between the anchors of start and end, so that it
    /// matches whole inputs only; none where `dfa` accepts no word, for the
    /// empty language has no pattern text.
    pub fn dfa_re_str(dfa: &Dfa) -> (s: Option<String>)
        requires
            dfa@.wf(),
        ensures
            s is Some <==> exists|w: Seq<char>| #[trigger] dfa@.accepts(w),
            s matches Some(text) ==> exists|r: Fragment|
                #[trigger] eliminates_to(dfa@, r) && (forall|w: Seq<char>|
                    r.matches(w) == dfa@.accepts(w)) && r.printable() && text@ == r.anchored(),
    {
        let r = Gnfa::regex_for(dfa);
        proof {
            pattern_text_where_words(dfa@, r@);
        }
        if r.is_printable() {
            Some(r.pattern())
        } else {
            None
        }
    }
}

} // verus!
