//! The mathematical model of a deterministic finite automaton.

use vstd::prelude::*;
use crate::table::{distinct_keys, has_key, key_index, keys, lemma_key_index, lemma_put, lookup, put};

verus! {

/// The transitions of a row by the state they lead to: each such state, in
/// the order of the row, with the symbols that lead to it, in that order.
pub open spec fn fanned(row: Seq<(char, usize)>) -> Seq<(usize, Seq<char>)>
    decreases row.len(),
{
    if row.len() == 0 {
        Seq::empty()
    } else {
        let acc = fanned(row.drop_last());
        let x = row.last().0;
        let t = row.last().1;
        if has_key(acc, t) {
            put(acc, t, lookup(acc, t).push(x))
        } else {
            put(acc, t, seq![x])
        }
    }
}

/// The fanned row names no state twice.
pub proof fn lemma_fanned_distinct(row: Seq<(char, usize)>)
    ensures
        distinct_keys(fanned(row)),
    decreases row.len(),
{
    if row.len() > 0 {
        let acc = fanned(row.drop_last());
        let x0 = row.last().0;
        let t0 = row.last().1;
        lemma_fanned_distinct(row.drop_last());
        let syms = if has_key(acc, t0) {
            lookup(acc, t0).push(x0)
        } else {
            seq![x0]
        };
        lemma_put(acc, t0, syms);
    }
}

/// The fanned row names each state once, exactly the states that the row
/// leads to, each with exactly the symbols that lead to it.
pub proof fn lemma_fanned(row: Seq<(char, usize)>)
    ensures
        distinct_keys(fanned(row)),
        forall|t: usize|
            has_key(fanned(row), t) <==> exists|j: int|
                0 <= j < row.len() && (#[trigger] row[j]).1 == t,
        forall|t: usize, x: char|
            has_key(fanned(row), t) ==> (lookup(fanned(row), t).contains(x) <==> exists|j: int|
                0 <= j < row.len() && #[trigger] row[j] == (x, t)),
    decreases row.len(),
{
    if row.len() > 0 {
        let init = row.drop_last();
        let acc = fanned(init);
        let x0 = row.last().0;
        let t0 = row.last().1;
        lemma_fanned(init);
        let syms = if has_key(acc, t0) {
            lookup(acc, t0).push(x0)
        } else {
            seq![x0]
        };
        lemma_put(acc, t0, syms);
        let f = fanned(row);
        assert(f == put(acc, t0, syms));
        assert forall|t: usize| has_key(f, t) <==> exists|j: int|
            0 <= j < row.len() && (#[trigger] row[j]).1 == t by {
            if t == t0 {
                assert(row[row.len() - 1].1 == t);
            } else {
                if has_key(acc, t) {
                    let j = choose|j: int| 0 <= j < init.len() && (#[trigger] init[j]).1 == t;
                    assert(row[j].1 == t);
                }
                if exists|j: int| 0 <= j < row.len() && (#[trigger] row[j]).1 == t {
                    let j = choose|j: int| 0 <= j < row.len() && (#[trigger] row[j]).1 == t;
                    assert(init[j].1 == t);
                }
            }
        }
        assert forall|t: usize, x: char| has_key(f, t) implies (lookup(f, t).contains(x)
            <==> exists|j: int| 0 <= j < row.len() && #[trigger] row[j] == (x, t)) by {
            if t == t0 {
                if lookup(f, t).contains(x) {
                    let k = choose|k: int| 0 <= k < syms.len() && syms[k] == x;
                    if has_key(acc, t0) && k < lookup(acc, t0).len() {
                        assert(lookup(acc, t0)[k] == x);
                        assert(lookup(acc, t0).contains(x));
                        let j = choose|j: int| 0 <= j < init.len() && #[trigger] init[j] == (x, t);
                        assert(row[j] == (x, t));
                    } else {
                        assert(row[row.len() - 1] == (x, t));
                    }
                }
                if exists|j: int| 0 <= j < row.len() && #[trigger] row[j] == (x, t) {
                    let j = choose|j: int| 0 <= j < row.len() && #[trigger] row[j] == (x, t);
                    if j < init.len() {
                        assert(init[j] == (x, t));
                        assert(init[j].1 == t);
                        assert(has_key(acc, t0));
                        assert(lookup(acc, t0).contains(x));
                        let k = choose|k: int|
                            0 <= k < lookup(acc, t0).len() && lookup(acc, t0)[k] == x;
                        assert(syms[k] == x);
                    } else {
                        assert(syms[syms.len() - 1] == x);
                    }
                }
            } else {
                assert(has_key(acc, t));
                assert(lookup(f, t) == lookup(acc, t));
                if lookup(acc, t).contains(x) {
                    let j = choose|j: int| 0 <= j < init.len() && #[trigger] init[j] == (x, t);
                    assert(row[j] == (x, t));
                }
                if exists|j: int| 0 <= j < row.len() && #[trigger] row[j] == (x, t) {
                    let j = choose|j: int| 0 <= j < row.len() && #[trigger] row[j] == (x, t);
                    assert(init[j] == (x, t));
                }
            }
        }
    }
}

/// A deterministic finite automaton: for each state the list of its
/// transitions, each a symbol and the state it leads to; the start state;
/// the accepting states.
pub ghost struct Automaton {
    pub table: Seq<(usize, Seq<(char, usize)>)>,
    pub start: usize,
    pub accepting: Seq<usize>,
}

impl Automaton {
    /// Whether `s` is a state of the automaton.
    pub open spec fn has_state(self, s: usize) -> bool {
        has_key(self.table, s)
    }

    /// The states, in the order of the table.
    pub open spec fn states(self) -> Seq<usize> {
        keys(self.table)
    }

    /// The transitions that leave the state `s`.
    pub open spec fn row(self, s: usize) -> Seq<(char, usize)> {
        lookup(self.table, s)
    }

    /// The symbols of the alphabet, in the order of the start state's
    /// transitions.
    pub open spec fn alphabet(self) -> Seq<char> {
        keys(self.row(self.start))
    }

    /// Whether `x` is a symbol of the alphabet.
    pub open spec fn has_symbol(self, x: char) -> bool {
        has_key(self.row(self.start), x)
    }

    /// The state that follows `s` on the symbol `x`.
    pub open spec fn next(self, s: usize, x: char) -> usize {
        lookup(self.row(s), x)
    }

    /// Whether `s` is an accepting state.
    pub open spec fn is_accepting(self, s: usize) -> bool {
        self.accepting.contains(s)
    }

    /// Whether the lists are finite maps and a finite set: no state has two
    /// rows, no row two transitions on one symbol, no accepting state
    /// stands twice; and the table fits in memory.
    pub open spec fn is_table(self) -> bool {
        &&& self.table.len() <= usize::MAX
        &&& distinct_keys(self.table)
        &&& forall|i: int| 0 <= i < self.table.len() ==> distinct_keys((#[trigger] self.table[i]).1)
        &&& self.accepting.no_duplicates()
    }

    /// Totality: the start state and the accepting states have rows.
    pub open spec fn total(self) -> bool {
        &&& self.has_state(self.start)
        &&& forall|j: int|
            0 <= j < self.accepting.len() ==> self.has_state(#[trigger] self.accepting[j])
    }

    /// Completeness: a symbol that some row has, every row has.
    #[verifier::opaque]
    pub open spec fn complete(self) -> bool {
        forall|i: int, j: int, k: int|
            0 <= i < self.table.len() && 0 <= j < self.table[i].1.len() && 0 <= k
                < self.table.len() ==> has_key(
                (#[trigger] self.table[k]).1,
                (#[trigger] self.table[i].1[j]).0,
            )
    }

    /// Closure: every transition leads to a state that has a row.
    #[verifier::opaque]
    pub open spec fn closed(self) -> bool {
        forall|i: int, j: int|
            0 <= i < self.table.len() && 0 <= j < self.table[i].1.len() ==> self.has_state(
                (#[trigger] self.table[i].1[j]).1,
            )
    }

    /// Whether this is an automaton: finite maps that are total, complete
    /// and closed.
    pub open spec fn wf(self) -> bool {
        &&& self.is_table()
        &&& self.total()
        &&& self.complete()
        &&& self.closed()
    }

    /// Whether every symbol of `w` is in the alphabet.
    pub open spec fn over_alphabet(self, w: Seq<char>) -> bool {
        forall|i: int| 0 <= i < w.len() ==> self.has_symbol(#[trigger] w[i])
    }

    /// The state reached from `s` by reading `w`.
    pub open spec fn run_from(self, s: usize, w: Seq<char>) -> usize
        decreases w.len(),
    {
        if w.len() == 0 {
            s
        } else {
            self.run_from(self.next(s, w[0]), w.skip(1))
        }
    }

    /// The state reached from the start state by reading `w`.
    pub open spec fn run(self, w: Seq<char>) -> usize {
        self.run_from(self.start, w)
    }

    /// Whether reading `w` from `s` ends in an accepting state.
    pub open spec fn accepts_from(self, s: usize, w: Seq<char>) -> bool {
        self.over_alphabet(w) && self.is_accepting(self.run_from(s, w))
    }

    /// Whether the automaton accepts `w`: the word is over the alphabet and
    /// leads from the start state to an accepting state.
    pub open spec fn accepts(self, w: Seq<char>) -> bool {
        self.accepts_from(self.start, w)
    }

    /// The row of the state in place `i` is the row in place `i`.
    pub proof fn lemma_row(self, i: int)
        requires
            self.is_table(),
            0 <= i < self.table.len(),
        ensures
            self.has_state(self.table[i].0),
            self.row(self.table[i].0) == self.table[i].1,
            distinct_keys(self.table[i].1),
    {
        lemma_key_index(self.table, i);
    }

    /// The transition in place `j` of the row in place `i` leads to a state.
    pub proof fn lemma_row_leads(self, i: int, j: int)
        requires
            self.wf(),
            0 <= i < self.table.len(),
            0 <= j < self.table[i].1.len(),
        ensures
            self.has_state(self.table[i].1[j].1),
    {
        reveal(Automaton::closed);
    }

    /// Every state has a transition on every symbol of the alphabet, and it
    /// leads to a state.
    pub proof fn lemma_step(self, s: usize, x: char)
        requires
            self.wf(),
            self.has_state(s),
            self.has_symbol(x),
        ensures
            has_key(self.row(s), x),
            self.has_state(self.next(s, x)),
            distinct_keys(self.row(s)),
    {
        reveal(Automaton::complete);
        reveal(Automaton::closed);
        let i0 = key_index(self.table, self.start);
        let i = key_index(self.table, s);
        let j0 = key_index(self.table[i0].1, x);
        assert(self.table[i0].1[j0].0 == x);
        assert(has_key(self.table[i].1, self.table[i0].1[j0].0));
        let j = key_index(self.table[i].1, x);
        assert(self.has_state(self.table[i].1[j].1));
        assert(distinct_keys(self.table[i].1));
    }

    /// A symbol on which some state has a transition is in the alphabet.
    pub proof fn lemma_row_symbols(self, s: usize, x: char)
        requires
            self.wf(),
            self.has_state(s),
            has_key(self.row(s), x),
        ensures
            self.has_symbol(x),
    {
        reveal(Automaton::complete);
        let i0 = key_index(self.table, self.start);
        let i = key_index(self.table, s);
        let j = key_index(self.table[i].1, x);
        assert(self.table[i].1[j].0 == x);
        assert(has_key(self.table[i0].1, self.table[i].1[j].0));
    }

    /// Reading one more symbol takes one more step.
    pub proof fn lemma_run_push(self, s: usize, w: Seq<char>, x: char)
        ensures
            self.run_from(s, w.push(x)) == self.next(self.run_from(s, w), x),
        decreases w.len(),
    {
        let wx = w.push(x);
        if w.len() == 0 {
            assert(wx.skip(1) =~= Seq::<char>::empty());
            assert(self.run_from(self.next(s, x), wx.skip(1)) == self.next(s, x));
        } else {
            assert(wx.skip(1) =~= w.skip(1).push(x));
            assert(wx[0] == w[0]);
            self.lemma_run_push(self.next(s, w[0]), w.skip(1), x);
        }
    }
}

} // verus!
