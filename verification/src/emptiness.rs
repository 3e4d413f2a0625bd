//! When state elimination gives a pattern text: exactly when the automaton
//! accepts some word.

use vstd::prelude::*;
use crate::automaton::{fanned, lemma_fanned, Automaton};
use crate::elimination::{
    bypass,
    cleared,
    eliminates_to,
    label,
    lifted,
    passes,
    rip_seq,
    ripped,
};
use crate::fragment::Fragment;
use crate::gnfa::State;
use crate::kleene::regex_matches_what_dfa_accepts;
use crate::language::simplify_keeps_language;
use crate::table::{has_key, lookup};

verus! {

/// Whether the fragment is built as state elimination builds: without
/// options and without empty groups.
pub open spec fn raw(r: Fragment) -> bool
    decreases r,
{
    match r {
        Fragment::Group(cs) => cs.len() > 0,
        Fragment::Empty => true,
        Fragment::Star(x) => raw(*x),
        Fragment::Optional(_) => false,
        Fragment::Alternation(rs) => forall|i: int| 0 <= i < rs.len() ==> raw(#[trigger] rs[i]),
        Fragment::Concat(rs) => forall|i: int| 0 <= i < rs.len() ==> raw(#[trigger] rs[i]),
    }
}

/// Whether the fragment has a word by its build: a group a symbol, an
/// alternation a branch with a word, a concatenation parts with words.
pub open spec fn live(r: Fragment) -> bool
    decreases r,
{
    match r {
        Fragment::Group(cs) => cs.len() > 0,
        Fragment::Empty => false,
        Fragment::Star(_) => true,
        Fragment::Optional(_) => true,
        Fragment::Alternation(rs) => exists|i: int| 0 <= i < rs.len() && live(#[trigger] rs[i]),
        Fragment::Concat(rs) => forall|i: int| 0 <= i < rs.len() ==> live(#[trigger] rs[i]),
    }
}

/// Whether every fragment on an edge is built as state elimination
/// builds.
pub open spec fn raw_edges(m: Map<(State, State), Fragment>) -> bool {
    forall|k: (State, State)| #[trigger] m.dom().contains(k) ==> raw(m[k])
}

/// Branches that are all the empty language give nothing to their
/// alternation.
proof fn lemma_no_alternatives(ss: Seq<Fragment>)
    requires
        forall|i: int| 0 <= i < ss.len() ==> (#[trigger] ss[i]) is Empty,
    ensures
        Fragment::all_alternatives(ss).len() == 0,
        !Fragment::has_eps(ss),
    decreases ss.len(),
{
    if ss.len() > 0 {
        assert(ss[ss.len() - 1] is Empty);
        assert forall|i: int| 0 <= i < ss.drop_last().len() implies (
        #[trigger] ss.drop_last()[i]) is Empty by {
            assert(ss[i] is Empty);
        }
        lemma_no_alternatives(ss.drop_last());
    }
    if Fragment::has_eps(ss) {
        let i = choose|i: int| 0 <= i < ss.len() && (#[trigger] ss[i]).is_eps();
        assert(ss[i] is Empty);
    }
}

/// A fragment without a word by its build simplifies to the empty
/// language.
pub proof fn lemma_dead_simplifies(r: Fragment)
    requires
        raw(r),
        !live(r),
    ensures
        r.simplified() is Empty,
    decreases r,
{
    match r {
        Fragment::Alternation(rs) => {
            let ss = Fragment::simplified_each(rs);
            assert forall|i: int| 0 <= i < ss.len() implies (#[trigger] ss[i]) is Empty by {
                assert(raw(rs[i]));
                assert(!live(rs[i]));
                lemma_dead_simplifies(rs[i]);
            }
            lemma_no_alternatives(ss);
        },
        Fragment::Concat(rs) => {
            let ss = Fragment::simplified_each(rs);
            let i = choose|i: int| 0 <= i < rs.len() && !live(#[trigger] rs[i]);
            assert(raw(rs[i]));
            lemma_dead_simplifies(rs[i]);
            assert(ss[i] is Empty);
        },
        _ => {},
    }
}

/// A fragment with a word by its build matches a word.
pub proof fn lemma_live_matches(r: Fragment) -> (w: Seq<char>)
    requires
        live(r),
    ensures
        r.matches(w),
    decreases r, 0nat,
{
    match r {
        Fragment::Group(cs) => {
            let w = seq![cs[0]];
            assert(cs.contains(w[0]));
            w
        },
        Fragment::Empty => Seq::empty(),
        Fragment::Star(_) => Seq::empty(),
        Fragment::Optional(_) => Seq::empty(),
        Fragment::Alternation(rs) => {
            let i = choose|i: int| 0 <= i < rs.len() && live(#[trigger] rs[i]);
            let w = lemma_live_matches(rs[i]);
            assert(rs[i].matches(w));
            w
        },
        Fragment::Concat(rs) => {
            let w = lemma_live_chain(rs, 0);
            assert(rs.skip(0) =~= rs);
            w
        },
    }
}

/// A chain of fragments that have words by their build matches a word.
pub proof fn lemma_live_chain(rs: Seq<Fragment>, from: int) -> (w: Seq<char>)
    requires
        0 <= from <= rs.len(),
        forall|i: int| 0 <= i < rs.len() ==> live(#[trigger] rs[i]),
    ensures
        Fragment::chain_matches(rs.skip(from), w),
    decreases rs, rs.len() - from,
{
    let tail = rs.skip(from);
    if from == rs.len() {
        Seq::empty()
    } else {
        assert(live(rs[from]));
        let w0 = lemma_live_matches(rs[from]);
        let w1 = lemma_live_chain(rs, from + 1);
        let w = w0 + w1;
        let k = w0.len() as int;
        assert(tail[0] == rs[from]);
        assert(tail.skip(1) =~= rs.skip(from + 1));
        assert(w.take(k) =~= w0);
        assert(w.skip(k) =~= w1);
        assert(0 <= k <= w.len() && tail[0].matches(w.take(k)) && Fragment::chain_matches(
            tail.skip(1),
            w.skip(k),
        ));
        w
    }
}

/// What simplified branches that have pattern texts give to their
/// alternation has pattern texts.
proof fn lemma_alternatives_printable(ss: Seq<Fragment>)
    requires
        forall|i: int| 0 <= i < ss.len() ==> (#[trigger] ss[i]) is Empty || ss[i].printable(),
    ensures
        forall|j: int|
            0 <= j < Fragment::all_alternatives(ss).len() ==> (
            #[trigger] Fragment::all_alternatives(ss)[j]).printable(),
    decreases ss.len(),
{
    if ss.len() > 0 {
        let s = ss.last();
        let head = Fragment::all_alternatives(ss.drop_last());
        let tail = Fragment::alternatives(s);
        assert(ss[ss.len() - 1] is Empty || ss[ss.len() - 1].printable());
        assert forall|i: int| 0 <= i < ss.drop_last().len() implies (
        #[trigger] ss.drop_last()[i]) is Empty || ss.drop_last()[i].printable() by {
            assert(ss[i] is Empty || ss[i].printable());
        }
        lemma_alternatives_printable(ss.drop_last());
        assert forall|j: int| 0 <= j < (head + tail).len() implies (#[trigger] (head + tail)[j]).printable() by {
            if j < head.len() {
                assert((head + tail)[j] == head[j]);
            } else {
                let k = j - head.len();
                assert((head + tail)[j] == tail[k]);
                match s {
                    Fragment::Alternation(xs) => {
                        assert(xs[k].printable());
                    },
                    _ => {},
                }
            }
        }
    }
}

/// What simplified parts that have pattern texts give to their
/// concatenation has pattern texts.
proof fn lemma_factors_printable(ss: Seq<Fragment>)
    requires
        forall|i: int| 0 <= i < ss.len() ==> (#[trigger] ss[i]).printable(),
    ensures
        forall|j: int|
            0 <= j < Fragment::all_factors(ss).len() ==> (#[trigger] Fragment::all_factors(
                ss,
            )[j]).printable(),
    decreases ss.len(),
{
    if ss.len() > 0 {
        let s = ss.last();
        let head = Fragment::all_factors(ss.drop_last());
        let tail = Fragment::factors(s);
        assert(ss[ss.len() - 1].printable());
        assert forall|i: int| 0 <= i < ss.drop_last().len() implies (
        #[trigger] ss.drop_last()[i]).printable() by {
            assert(ss[i].printable());
        }
        lemma_factors_printable(ss.drop_last());
        assert forall|j: int| 0 <= j < (head + tail).len() implies (#[trigger] (head + tail)[j]).printable() by {
            if j < head.len() {
                assert((head + tail)[j] == head[j]);
            } else {
                let k = j - head.len();
                assert((head + tail)[j] == tail[k]);
                match s {
                    Fragment::Concat(xs) => {
                        assert(xs[k].printable());
                    },
                    _ => {},
                }
            }
        }
    }
}

/// A fragment without options simplifies to the empty language or to a
/// fragment with a pattern text.
pub proof fn lemma_simplified_printable(r: Fragment)
    requires
        raw(r),
    ensures
        r.simplified() is Empty || r.simplified().printable(),
    decreases r,
{
    match r {
        Fragment::Group(_) => {},
        Fragment::Empty => {},
        Fragment::Star(x) => {
            lemma_simplified_printable(*x);
        },
        Fragment::Optional(_) => {},
        Fragment::Alternation(rs) => {
            let ss = Fragment::simplified_each(rs);
            assert forall|i: int| 0 <= i < ss.len() implies (#[trigger] ss[i]) is Empty
                || ss[i].printable() by {
                assert(raw(rs[i]));
                lemma_simplified_printable(rs[i]);
            }
            lemma_alternatives_printable(ss);
            let ps = Fragment::all_alternatives(ss);
            let u = Fragment::union_of(ps);
            if ps.len() == 1 {
                assert(ps[0].printable());
            }
            assert(ps.len() > 0 ==> u.printable());
            assert(Fragment::eps().printable()) by {
                reveal_with_fuel(Fragment::printable, 2);
            }
        },
        Fragment::Concat(rs) => {
            let ss = Fragment::simplified_each(rs);
            if !Fragment::has_empty(ss) {
                assert forall|i: int| 0 <= i < ss.len() implies (#[trigger] ss[i]).printable() by {
                    assert(raw(rs[i]));
                    lemma_simplified_printable(rs[i]);
                    assert(!(ss[i] is Empty));
                }
                lemma_factors_printable(ss);
                let ps = Fragment::all_factors(ss);
                if ps.len() == 1 {
                    assert(ps[0].printable());
                }
                assert(Fragment::eps().printable()) by {
                    reveal_with_fuel(Fragment::printable, 2);
                }
            }
        },
    }
}

/// The fragments of the generalized automaton of `a` are built as state
/// elimination builds.
pub proof fn lemma_lifted_raw(a: Automaton)
    requires
        a.wf(),
    ensures
        raw_edges(lifted(a)),
{
    let m = lifted(a);
    assert forall|k: (State, State)| #[trigger] m.dom().contains(k) implies raw(m[k]) by {
        match k {
            (State::State(s), State::State(t)) => {
                let row = a.row(s);
                lemma_fanned(row);
                let f = fanned(row);
                assert(has_key(f, t));
                let j = choose|j: int| 0 <= j < row.len() && (#[trigger] row[j]).1 == t;
                assert(row[j] == (row[j].0, t));
                assert(lookup(f, t).contains(row[j].0));
            },
            _ => {
                assert(raw(Fragment::eps())) by {
                    reveal_with_fuel(raw, 2);
                }
            },
        }
    }
}

/// Taking out states keeps the fragments built as state elimination
/// builds.
pub proof fn lemma_rip_seq_raw(m: Map<(State, State), Fragment>, qs: Seq<usize>)
    requires
        raw_edges(m),
    ensures
        raw_edges(rip_seq(m, qs)),
    decreases qs.len(),
{
    if qs.len() > 0 {
        let before = rip_seq(m, qs.drop_last());
        let q = State::State(qs.last());
        lemma_rip_seq_raw(m, qs.drop_last());
        let after = ripped(before, q);
        assert forall|k: (State, State)| #[trigger] after.dom().contains(k) implies raw(
            after[k],
        ) by {
            if passes(before, q, k.0, k.1) {
                let via = bypass(before, q, k.0, k.1);
                assert(before.dom().contains((k.0, q)));
                assert(before.dom().contains((q, k.1)));
                if before.dom().contains((q, q)) {
                    assert(raw(before[(q, q)]));
                }
                assert(raw(label(before, q, q)));
                assert(raw(Fragment::Star(Box::new(label(before, q, q)))));
                assert(raw(via));
                if before.dom().contains(k) {
                    let x = before[k];
                    assert(raw(x));
                    match x {
                        Fragment::Alternation(xs) => {
                            let ys = xs.push(via);
                            assert forall|i: int| 0 <= i < ys.len() implies raw(
                                #[trigger] ys[i],
                            ) by {
                                if i < xs.len() {
                                    assert(raw(xs[i]));
                                }
                            }
                        },
                        _ => {},
                    }
                }
            } else {
                assert(before.dom().contains(k));
            }
        }
    }
}

/// A regular expression that state elimination gives for an automaton has
/// a pattern text exactly when the automaton accepts some word; when it
/// accepts none, the expression is the empty language.
pub proof fn pattern_text_where_words(a: Automaton, r: Fragment)
    requires
        a.wf(),
        eliminates_to(a, r),
    ensures
        r.printable() <==> exists|w: Seq<char>| #[trigger] a.accepts(w),
        r.printable() <==> !(r is Empty),
{
    let qs = choose|qs: Seq<usize>|
        cleared(#[trigger] rip_seq(lifted(a), qs)) && r == label(
            rip_seq(lifted(a), qs),
            State::Init,
            State::Final,
        ).simplified();
    let m = rip_seq(lifted(a), qs);
    let x = label(m, State::Init, State::Final);
    lemma_lifted_raw(a);
    lemma_rip_seq_raw(lifted(a), qs);
    assert(raw(x));
    lemma_simplified_printable(x);
    if r is Empty {
        assert forall|w: Seq<char>| !(#[trigger] a.accepts(w)) by {
            regex_matches_what_dfa_accepts(a, r, w);
        }
    } else {
        if !live(x) {
            lemma_dead_simplifies(x);
        }
        let w = lemma_live_matches(x);
        simplify_keeps_language(x, w);
        regex_matches_what_dfa_accepts(a, r, w);
        assert(a.accepts(w));
    }
}

} // verus!
