//! Deterministic finite automata over characters, with states named by
//! numbers, and the partition refinement that minimizes them.

use std::collections::HashMap;
use vstd::prelude::*;
use vstd::std_specs::hash::group_hash_axioms;
use crate::automaton::{fanned, lemma_fanned_distinct, Automaton};
use crate::lists::{lemma_filter_drops, lemma_filter_member, lemma_take_one_more};
use crate::minimization::{
    distinguishable,
    minimal_keeps_language,
    minimal_states_differ,
    minimal_twice_keeps_size,
};
use crate::refinement::{
    alike,
    covers,
    fits,
    group_of,
    images,
    index_map,
    initial,
    is_rejecting,
    lemma_groups_bound,
    lemma_index_map,
    lemma_initial_fits,
    lemma_quotient_wf,
    lemma_refined,
    merged,
    minimized,
    naming,
    no_empty_group,
    parts_from,
    quotient,
    refined,
    renamed,
    row_map,
    settle,
    settled,
    split,
    split_all,
    stays_with,
    total,
};
use crate::table::{
    collected,
    distinct,
    distinct_keys,
    has_key,
    key_index,
    lemma_collected_distinct,
    lemma_distinct,
    lemma_key_index,
};

verus! {

/// A deterministic finite automaton. The functions that make one hand it
/// out only where its table is total, complete and closed.
pub struct Dfa {
    delta: Vec<(usize, Vec<(char, usize)>)>,
    init_state: usize,
    accept_states: Vec<usize>,
}

/// The table that a list of rows stands for.
pub open spec fn table_model(delta: Seq<(usize, Vec<(char, usize)>)>) -> Seq<
    (usize, Seq<(char, usize)>),
> {
    Seq::new(delta.len(), |i: int| (delta[i].0, delta[i].1@))
}

/// The table with each row collected into a finite map.
pub open spec fn rows_collected(t: Seq<(usize, Seq<(char, usize)>)>) -> Seq<
    (usize, Seq<(char, usize)>),
> {
    Seq::new(t.len(), |i: int| (t[i].0, collected(t[i].1)))
}

/// The automaton that lists of rows, a start state and accepting states
/// give when they are collected into finite maps and a finite set.
pub open spec fn gathered(
    table: Seq<(usize, Seq<(char, usize)>)>,
    start: usize,
    accepting: Seq<usize>,
) -> Automaton {
    Automaton {
        table: collected(rows_collected(table)),
        start: start,
        accepting: distinct(accepting),
    }
}

/// Whether the row in place `i` has the symbols of the first row, no
/// others, and leads to states only.
pub open spec fn row_fits(a: Automaton, i: int) -> bool {
    &&& forall|j: int|
        0 <= j < a.table[i].1.len() ==> has_key(a.table[0].1, (#[trigger] a.table[i].1[j]).0)
            && a.has_state(a.table[i].1[j].1)
    &&& forall|j: int|
        0 <= j < a.table[0].1.len() ==> has_key(a.table[i].1, (#[trigger] a.table[0].1[j]).0)
}

/// A table is complete and closed where every row fits, and only there.
pub proof fn lemma_rows_fit(a: Automaton)
    requires
        a.table.len() > 0,
    ensures
        (a.complete() && a.closed()) <==> (forall|i: int|
            0 <= i < a.table.len() ==> #[trigger] row_fits(a, i)),
{
    reveal(Automaton::complete);
    reveal(Automaton::closed);
    if a.complete() && a.closed() {
        assert forall|i: int| 0 <= i < a.table.len() implies #[trigger] row_fits(a, i) by {
            assert forall|j: int| 0 <= j < a.table[i].1.len() implies has_key(
                a.table[0].1,
                (#[trigger] a.table[i].1[j]).0,
            ) && a.has_state(a.table[i].1[j].1) by {
                assert(has_key(a.table[0].1, a.table[i].1[j].0));
            }
            assert forall|j: int| 0 <= j < a.table[0].1.len() implies has_key(
                a.table[i].1,
                (#[trigger] a.table[0].1[j]).0,
            ) by {
                assert(has_key(a.table[i].1, a.table[0].1[j].0));
            }
        }
    }
    if forall|i: int| 0 <= i < a.table.len() ==> #[trigger] row_fits(a, i) {
        assert forall|i: int, j: int, k: int|
            0 <= i < a.table.len() && 0 <= j < a.table[i].1.len() && 0 <= k
                < a.table.len() implies has_key(
            (#[trigger] a.table[k]).1,
            (#[trigger] a.table[i].1[j]).0,
        ) by {
            assert(row_fits(a, i));
            assert(row_fits(a, k));
            let x = a.table[i].1[j].0;
            assert(has_key(a.table[0].1, x));
            let j0 = key_index(a.table[0].1, x);
            assert(has_key(a.table[k].1, a.table[0].1[j0].0));
        }
        assert forall|i: int, j: int|
            0 <= i < a.table.len() && 0 <= j < a.table[i].1.len() implies a.has_state(
            (#[trigger] a.table[i].1[j]).1,
        ) by {
            assert(row_fits(a, i));
        }
    }
}

/// The first row of the state `s`, where it has one.
fn find_state(t: &Vec<(usize, Vec<(char, usize)>)>, s: usize) -> (r: Option<usize>)
    ensures
        r is Some <==> has_key(table_model(t@), s),
        r matches Some(i) ==> i < t.len() && t[i as int].0 == s && forall|j: int|
            0 <= j < i ==> (#[trigger] t[j]).0 != s,
{
    let mut i: usize = 0;
    while i < t.len()
        invariant
            i <= t.len(),
            forall|j: int| 0 <= j < i ==> (#[trigger] t[j]).0 != s,
        decreases t.len() - i,
    {
        if t[i].0 == s {
            assert(table_model(t@)[i as int].0 == s);
            return Some(i);
        }
        i += 1;
    }
    assert(!has_key(table_model(t@), s)) by {
        if has_key(table_model(t@), s) {
            let j = key_index(table_model(t@), s);
            assert(t[j].0 == s);
        }
    }
    None
}

/// The first transition on the symbol `x`, where the row has one.
fn find_symbol(row: &Vec<(char, usize)>, x: char) -> (r: Option<usize>)
    ensures
        r is Some <==> has_key(row@, x),
        r matches Some(j) ==> j < row.len() && row[j as int].0 == x && forall|k: int|
            0 <= k < j ==> (#[trigger] row[k]).0 != x,
{
    let mut j: usize = 0;
    while j < row.len()
        invariant
            j <= row.len(),
            forall|k: int| 0 <= k < j ==> (#[trigger] row[k]).0 != x,
        decreases row.len() - j,
    {
        if row[j].0 == x {
            return Some(j);
        }
        j += 1;
    }
    assert(!has_key(row@, x)) by {
        if has_key(row@, x) {
            let k = key_index(row@, x);
            assert(row[k].0 == x);
        }
    }
    None
}

/// The first place of `s` in the list, where it has one.
fn find_member(v: &Vec<usize>, s: usize) -> (r: Option<usize>)
    ensures
        r is Some <==> v@.contains(s),
        r matches Some(j) ==> j < v.len() && v[j as int] == s && forall|k: int|
            0 <= k < j ==> v[k] != s,
{
    let mut j: usize = 0;
    while j < v.len()
        invariant
            j <= v.len(),
            forall|k: int| 0 <= k < j ==> v[k] != s,
        decreases v.len() - j,
    {
        if v[j] == s {
            return Some(j);
        }
        j += 1;
    }
    None
}

/// The row as a finite map: a symbol stands where it came first, with the
/// state that came last.
fn collect_row(pairs: &Vec<(char, usize)>) -> (out: Vec<(char, usize)>)
    ensures
        out@ == collected(pairs@),
{
    let mut out: Vec<(char, usize)> = Vec::new();
    let mut i: usize = 0;
    while i < pairs.len()
        invariant
            i <= pairs.len(),
            out@ == collected(pairs@.take(i as int)),
        decreases pairs.len() - i,
    {
        proof {
            assert(pairs@.take(i + 1).drop_last() =~= pairs@.take(i as int));
            lemma_collected_distinct(pairs@.take(i as int));
        }
        let pair = pairs[i];
        match find_symbol(&out, pair.0) {
            Some(j) => {
                proof {
                    lemma_key_index(out@, j as int);
                }
                out.set(j, pair);
            },
            None => {
                out.push(pair);
            },
        }
        i += 1;
    }
    assert(pairs@.take(i as int) =~= pairs@);
    out
}

/// The members of the list, each where it came first.
fn collect_members(v: &Vec<usize>) -> (out: Vec<usize>)
    ensures
        out@ == distinct(v@),
{
    let mut out: Vec<usize> = Vec::new();
    let mut i: usize = 0;
    while i < v.len()
        invariant
            i <= v.len(),
            out@ == distinct(v@.take(i as int)),
        decreases v.len() - i,
    {
        proof {
            assert(v@.take(i + 1).drop_last() =~= v@.take(i as int));
        }
        if find_member(&out, v[i]).is_none() {
            out.push(v[i]);
        }
        i += 1;
    }
    assert(v@.take(i as int) =~= v@);
    out
}

/// The table as a finite map of finite maps.
fn collect_table(delta: &Vec<(usize, Vec<(char, usize)>)>) -> (out: Vec<
    (usize, Vec<(char, usize)>),
>)
    ensures
        table_model(out@) == collected(rows_collected(table_model(delta@))),
{
    let ghost rows = rows_collected(table_model(delta@));
    let mut out: Vec<(usize, Vec<(char, usize)>)> = Vec::new();
    let mut i: usize = 0;
    assert(table_model(out@) =~= collected(rows.take(0)));
    while i < delta.len()
        invariant
            i <= delta.len(),
            rows == rows_collected(table_model(delta@)),
            table_model(out@) == collected(rows.take(i as int)),
        decreases delta.len() - i,
    {
        proof {
            assert(rows.take(i + 1).drop_last() =~= rows.take(i as int));
            lemma_collected_distinct(rows.take(i as int));
        }
        let s = delta[i].0;
        let row = collect_row(&delta[i].1);
        let ghost before = out@;
        match find_state(&out, s) {
            Some(j) => {
                proof {
                    lemma_key_index(table_model(before), j as int);
                }
                out.set(j, (s, row));
                assert(table_model(out@) =~= table_model(before).update(j as int, (s, row@)));
            },
            None => {
                out.push((s, row));
                assert(table_model(out@) =~= table_model(before).push((s, row@)));
            },
        }
        i += 1;
    }
    assert(rows.take(i as int) =~= rows);
    out
}

/// The fanned row that a list of states with their symbols stands for.
pub open spec fn fan_model(f: Seq<(usize, Vec<char>)>) -> Seq<(usize, Seq<char>)> {
    Seq::new(f.len(), |i: int| (f[i].0, f[i].1@))
}

/// The place of the state `t` in a fanned row, where it has one.
fn find_target(f: &Vec<(usize, Vec<char>)>, t: usize) -> (r: Option<usize>)
    ensures
        r is Some <==> has_key(fan_model(f@), t),
        r matches Some(i) ==> i < f.len() && f[i as int].0 == t,
{
    let mut i: usize = 0;
    while i < f.len()
        invariant
            i <= f.len(),
            forall|j: int| 0 <= j < i ==> (#[trigger] f[j]).0 != t,
        decreases f.len() - i,
    {
        if f[i].0 == t {
            assert(fan_model(f@)[i as int].0 == t);
            return Some(i);
        }
        i += 1;
    }
    assert(!has_key(fan_model(f@), t)) by {
        if has_key(fan_model(f@), t) {
            let j = key_index(fan_model(f@), t);
            assert(f[j].0 == t);
        }
    }
    None
}

impl View for Dfa {
    type V = Automaton;

    closed spec fn view(&self) -> Automaton {
        Automaton {
            table: table_model(self.delta@),
            start: self.init_state,
            accepting: self.accept_states@,
        }
    }
}

impl Dfa {
    /// Whether no state has two rows, no row two transitions on one symbol,
    /// and no accepting state stands twice.
    fn is_table(&self) -> (ok: bool)
        ensures
            ok == self@.is_table(),
    {
        let ghost a = self@;
        let mut i: usize = 0;
        while i < self.delta.len()
            invariant
                i <= self.delta.len(),
                a == self@,
                distinct_keys(a.table.take(i as int)),
                forall|k: int| 0 <= k < i ==> distinct_keys((#[trigger] a.table[k]).1),
            decreases self.delta.len() - i,
        {
            match find_state(&self.delta, self.delta[i].0) {
                Some(first) => {
                    if first != i {
                        assert(a.table[first as int].0 == a.table[i as int].0);
                        return false;
                    }
                },
                None => {
                    assert(a.table[i as int].0 == self.delta[i as int].0);
                    return false;
                },
            }
            let row = &self.delta[i].1;
            let mut j: usize = 0;
            while j < row.len()
                invariant
                    j <= row.len(),
                    a == self@,
                    i < self.delta.len(),
                    row@ == a.table[i as int].1,
                    distinct_keys(row@.take(j as int)),
                decreases row.len() - j,
            {
                match find_symbol(row, row[j].0) {
                    Some(first) => {
                        if first != j {
                            assert(a.table[i as int].1[first as int].0 == a.table[i as int].1[j as int].0);
                            return false;
                        }
                    },
                    None => {
                        return false;
                    },
                }
                assert forall|p: int, q: int| 0 <= p < q < j + 1 implies (#[trigger] row@.take(
                    j + 1,
                )[p]).0 != (#[trigger] row@.take(j + 1)[q]).0 by {
                    if q < j {
                        assert(row@.take(j as int)[p].0 != row@.take(j as int)[q].0);
                    }
                }
                j += 1;
            }
            assert(row@.take(j as int) =~= row@);
            assert forall|p: int, q: int| 0 <= p < q < i + 1 implies (#[trigger] a.table.take(
                i + 1,
            )[p]).0 != (#[trigger] a.table.take(i + 1)[q]).0 by {
                if q < i {
                    assert(a.table.take(i as int)[p].0 != a.table.take(i as int)[q].0);
                } else {
                    assert(self.delta[p].0 != self.delta[i as int].0);
                }
            }
            i += 1;
        }
        assert(a.table.take(i as int) =~= a.table);
        let mut k: usize = 0;
        while k < self.accept_states.len()
            invariant
                k <= self.accept_states.len(),
                a == self@,
                a.accepting.take(k as int).no_duplicates(),
            decreases self.accept_states.len() - k,
        {
            match find_member(&self.accept_states, self.accept_states[k]) {
                Some(first) => {
                    if first != k {
                        return false;
                    }
                },
                None => {
                    return false;
                },
            }
            let ghost t0 = a.accepting.take(k as int);
            let ghost t1 = a.accepting.take(k + 1);
            assert forall|p: int, q: int| 0 <= p < t1.len() && 0 <= q < t1.len() && p != q implies (
            #[trigger] t1[p]) != (#[trigger] t1[q]) by {
                if p < k && q < k {
                    assert(t0[p] != t0[q]);
                }
            }
            k += 1;
        }
        assert(a.accepting.take(k as int) =~= a.accepting);
        true
    }

    /// Whether the start state and the accepting states have rows.
    fn is_total(&self) -> (ok: bool)
        ensures
            ok == self@.total(),
    {
        if find_state(&self.delta, self.init_state).is_none() {
            return false;
        }
        let mut k: usize = 0;
        while k < self.accept_states.len()
            invariant
                k <= self.accept_states.len(),
                forall|j: int| 0 <= j < k ==> self@.has_state(#[trigger] self@.accepting[j]),
            decreases self.accept_states.len() - k,
        {
            if find_state(&self.delta, self.accept_states[k]).is_none() {
                assert(!self@.has_state(self@.accepting[k as int]));
                return false;
            }
            k += 1;
        }
        true
    }

    /// Whether the row in place `i` has the symbols of the first row, no
    /// others, and leads to states only.
    fn row_fits(&self, i: usize) -> (ok: bool)
        requires
            i < self.delta.len(),
        ensures
            ok == row_fits(self@, i as int),
    {
        let ghost a = self@;
        let row = &self.delta[i].1;
        let first = &self.delta[0].1;
        assert(a.table[i as int].1 == row@);
        assert(a.table[0].1 == first@);
        let mut j: usize = 0;
        while j < row.len()
            invariant
                j <= row.len(),
                a == self@,
                a.table[i as int].1 == row@,
                a.table[0].1 == first@,
                forall|k: int|
                    0 <= k < j ==> has_key(first@, (#[trigger] row[k]).0) && a.has_state(row[k].1),
            decreases row.len() - j,
        {
            if find_symbol(first, row[j].0).is_none() {
                assert(!has_key(a.table[0].1, a.table[i as int].1[j as int].0));
                return false;
            }
            if find_state(&self.delta, row[j].1).is_none() {
                assert(!a.has_state(a.table[i as int].1[j as int].1));
                return false;
            }
            j += 1;
        }
        let mut j: usize = 0;
        while j < first.len()
            invariant
                j <= first.len(),
                a == self@,
                a.table[i as int].1 == row@,
                a.table[0].1 == first@,
                forall|k: int| 0 <= k < j ==> has_key(row@, (#[trigger] first[k]).0),
            decreases first.len() - j,
        {
            if find_symbol(row, first[j].0).is_none() {
                assert(!has_key(a.table[i as int].1, a.table[0].1[j as int].0));
                return false;
            }
            j += 1;
        }
        true
    }

    /// Whether the table is total, complete and closed.
    fn transition_invariant(&self) -> (ok: bool)
        ensures
            ok == (self@.total() && self@.complete() && self@.closed()),
    {
        if !self.is_total() {
            return false;
        }
        assert(self@.table.len() > 0) by {
            let i = key_index(self@.table, self@.start);
            assert(0 <= i < self@.table.len());
        }
        let mut i: usize = 0;
        while i < self.delta.len()
            invariant
                i <= self.delta.len(),
                self.delta.len() > 0,
                forall|k: int| 0 <= k < i ==> #[trigger] row_fits(self@, k),
            decreases self.delta.len() - i,
        {
            if !self.row_fits(i) {
                proof {
                    lemma_rows_fit(self@);
                }
                return false;
            }
            i += 1;
        }
        proof {
            lemma_rows_fit(self@);
        }
        true
    }

    /// The rows of the table: for each state its transitions, each a symbol
    /// and the state it leads to.
    pub fn transition_map(&self) -> (t: &Vec<(usize, Vec<(char, usize)>)>)
        ensures
            table_model(t@) == self@.table,
    {
        &self.delta
    }

    /// The start state.
    pub fn init_state(&self) -> (s: usize)
        ensures
            s == self@.start,
    {
        self.init_state
    }

    /// The accepting states.
    pub fn accept_states(&self) -> (v: &Vec<usize>)
        ensures
            v@ == self@.accepting,
    {
        &self.accept_states
    }

    /// The state that follows `s` on the symbol `x`.
    pub fn transition(&self, s: usize, x: char) -> (t: usize)
        requires
            self@.wf(),
            self@.has_state(s),
            self@.has_symbol(x),
        ensures
            t == self@.next(s, x),
    {
        proof {
            self@.lemma_step(s, x);
        }
        let i = find_state(&self.delta, s).unwrap();
        proof {
            lemma_key_index(self@.table, i as int);
        }
        let row = &self.delta[i].1;
        let j = find_symbol(row, x).unwrap();
        proof {
            lemma_key_index(row@, j as int);
        }
        row[j].1
    }

    /// The states that `s` leads to, each with the symbols that lead to it:
    /// the states in the order in which the row of `s` first names them,
    /// the symbols in the order of the row.
    pub fn next_states(&self, s: usize) -> (f: Vec<(usize, Vec<char>)>)
        requires
            self@.wf(),
            self@.has_state(s),
        ensures
            fan_model(f@) == fanned(self@.row(s)),
    {
        let i = find_state(&self.delta, s).unwrap();
        proof {
            lemma_key_index(self@.table, i as int);
        }
        let row = &self.delta[i].1;
        let mut out: Vec<(usize, Vec<char>)> = Vec::new();
        let mut j: usize = 0;
        assert(fan_model(out@) =~= fanned(row@.take(0)));
        while j < row.len()
            invariant
                j <= row.len(),
                fan_model(out@) == fanned(row@.take(j as int)),
            decreases row.len() - j,
        {
            proof {
                assert(row@.take(j + 1).drop_last() =~= row@.take(j as int));
                lemma_fanned_distinct(row@.take(j as int));
            }
            let x = row[j].0;
            let t = row[j].1;
            let ghost before = out@;
            match find_target(&out, t) {
                Some(k) => {
                    proof {
                        lemma_key_index(fan_model(before), k as int);
                    }
                    let mut cs = out[k].1.clone();
                    cs.push(x);
                    out.set(k, (t, cs));
                    assert(fan_model(out@) =~= fan_model(before).update(k as int, (t, cs@)));
                },
                None => {
                    let mut cs: Vec<char> = Vec::new();
                    cs.push(x);
                    out.push((t, cs));
                    assert(cs@ =~= seq![x]);
                    assert(fan_model(out@) =~= fan_model(before).push((t, cs@)));
                },
            }
            j += 1;
        }
        assert(row@.take(j as int) =~= row@);
        out
    }

    /// The state reached from the start state by reading `input`.
    pub fn run(&self, input: &[char]) -> (s: usize)
        requires
            self@.wf(),
            self@.over_alphabet(input@),
        ensures
            s == self@.run(input@),
            self@.has_state(s),
    {
        let mut s = self.init_state;
        let mut i: usize = 0;
        while i < input.len()
            invariant
                i <= input.len(),
                self@.wf(),
                self@.over_alphabet(input@),
                self@.has_state(s),
                s == self@.run(input@.take(i as int)),
            decreases input.len() - i,
        {
            proof {
                assert(self@.has_symbol(input@[i as int]));
                self@.lemma_step(s, input@[i as int]);
                self@.lemma_run_push(self@.start, input@.take(i as int), input@[i as int]);
                assert(input@.take(i + 1) =~= input@.take(i as int).push(input@[i as int]));
            }
            s = self.transition(s, input[i]);
            i += 1;
        }
        assert(input@.take(i as int) =~= input@);
        s
    }

    /// Whether the automaton accepts `input`.
    pub fn accepts(&self, input: &[char]) -> (b: bool)
        requires
            self@.wf(),
            self@.over_alphabet(input@),
        ensures
            b == self@.accepts(input@),
    {
        find_member(&self.accept_states, self.run(input)).is_some()
    }

    /// The symbols of the alphabet, in the order of the start state's
    /// transitions.
    pub fn chars(&self) -> (cs: Vec<char>)
        requires
            self@.wf(),
        ensures
            cs@ == self@.alphabet(),
    {
        let i = find_state(&self.delta, self.init_state).unwrap();
        proof {
            lemma_key_index(self@.table, i as int);
        }
        let row = &self.delta[i].1;
        let mut cs: Vec<char> = Vec::new();
        let mut j: usize = 0;
        while j < row.len()
            invariant
                j <= row.len(),
                cs.len() == j,
                forall|k: int| 0 <= k < j ==> cs[k] == row[k].0,
            decreases row.len() - j,
        {
            cs.push(row[j].0);
            j += 1;
        }
        assert(cs@ =~= self@.alphabet());
        cs
    }

    /// The automaton of the given rows, start state and accepting states,
    /// collected as they come: of two rows of one state, or two transitions
    /// of one state on one symbol, the later counts. There is none where
    /// the table is not total, complete and closed.
    pub fn make(
        delta: Vec<(usize, Vec<(char, usize)>)>,
        initial_state: usize,
        accept_states: Vec<usize>,
    ) -> (r: Option<Dfa>)
        ensures
            r is Some <==> gathered(table_model(delta@), initial_state, accept_states@).wf(),
            r matches Some(d) ==> d@ == gathered(
                table_model(delta@),
                initial_state,
                accept_states@,
            ),
    {
        let dfa = Dfa {
            delta: collect_table(&delta),
            init_state: initial_state,
            accept_states: collect_members(&accept_states),
        };
        proof {
            let rows = rows_collected(table_model(delta@));
            assert(dfa@.table.len() == dfa.delta.len());
            lemma_collected_distinct(rows);
            lemma_distinct(accept_states@);
            assert forall|i: int| 0 <= i < dfa@.table.len() implies distinct_keys(
                (#[trigger] dfa@.table[i]).1,
            ) by {
                lemma_collected_rows(rows, i);
                let k = choose|k: int| 0 <= k < rows.len() && rows[k] == collected(rows)[i];
                lemma_collected_distinct(table_model(delta@)[k].1);
            }
        }
        if dfa.transition_invariant() {
            Some(dfa)
        } else {
            None
        }
    }

    /// The automaton with the given table, start state and accepting
    /// states. There is none where a state has two rows, a row two
    /// transitions on one symbol or an accepting state stands twice, nor
    /// where the table is not total, complete and closed.
    pub fn new(
        delta: Vec<(usize, Vec<(char, usize)>)>,
        init_state: usize,
        accept_states: Vec<usize>,
    ) -> (r: Option<Dfa>)
        ensures
            r is Some <==> (Automaton {
                table: table_model(delta@),
                start: init_state,
                accepting: accept_states@,
            }).wf(),
            r matches Some(d) ==> d@ == (Automaton {
                table: table_model(delta@),
                start: init_state,
                accepting: accept_states@,
            }),
    {
        let dfa = Dfa { delta, init_state, accept_states };
        if dfa.is_table() && dfa.transition_invariant() {
            Some(dfa)
        } else {
            None
        }
    }
}

impl Dfa {
    /// The automaton whose states are the groups of the partition, each
    /// named by its index: the start state and the accepting states under
    /// their new names, and for each group the row of its first state.
    fn map(&self, p: &Partition) -> (d: Dfa)
        requires
            self@.wf(),
            p.wf(),
            fits(self@, p@),
        ensures
            d@ == quotient(self@, p@),
            d@.wf(),
    {
        let ghost a = self@;
        let ghost f = naming(p@);
        let mut delta: Vec<(usize, Vec<(char, usize)>)> = Vec::new();
        let mut i: usize = 0;
        assert(table_model(delta@) =~= merged(a.table.take(0), f));
        while i < self.delta.len()
            invariant
                i <= self.delta.len(),
                a == self@,
                a.wf(),
                p.wf(),
                fits(a, p@),
                f == naming(p@),
                table_model(delta@) == merged(a.table.take(i as int), f),
            decreases self.delta.len() - i,
        {
            proof {
                assert(a.table.take(i + 1).drop_last() =~= a.table.take(i as int));
                a.lemma_row(i as int);
            }
            let s = p.index(&self.delta[i].0);
            if find_state(&delta, s).is_none() {
                let row = &self.delta[i].1;
                let mut new_row: Vec<(char, usize)> = Vec::new();
                let mut j: usize = 0;
                while j < row.len()
                    invariant
                        j <= row.len(),
                        i < self.delta.len(),
                        a == self@,
                        a.wf(),
                        p.wf(),
                        fits(a, p@),
                        f == naming(p@),
                        row@ == a.table[i as int].1,
                        new_row.len() == j,
                        forall|k: int| 0 <= k < j ==> new_row[k] == (row[k].0, f(row[k].1)),
                    decreases row.len() - j,
                {
                    proof {
                        a.lemma_row_leads(i as int, j as int);
                    }
                    let t = p.index(&row[j].1);
                    new_row.push((row[j].0, t));
                    j += 1;
                }
                assert(new_row@ =~= renamed(row@, f));
                let ghost before = delta@;
                delta.push((s, new_row));
                assert(table_model(delta@) =~= table_model(before).push((s, new_row@)));
            }
            i += 1;
        }
        assert(a.table.take(i as int) =~= a.table);
        let init_state = p.index(&self.init_state);
        let mut accept_states: Vec<usize> = Vec::new();
        let mut k: usize = 0;
        let ghost named = images(a.accepting, f);
        assert(accept_states@ =~= distinct(named.take(0)));
        while k < self.accept_states.len()
            invariant
                k <= self.accept_states.len(),
                a == self@,
                a.wf(),
                p.wf(),
                fits(a, p@),
                f == naming(p@),
                named == images(a.accepting, f),
                accept_states@ == distinct(named.take(k as int)),
            decreases self.accept_states.len() - k,
        {
            proof {
                assert(named.take(k + 1).drop_last() =~= named.take(k as int));
                assert(a.has_state(a.accepting[k as int]));
            }
            let t = p.index(&self.accept_states[k]);
            if find_member(&accept_states, t).is_none() {
                accept_states.push(t);
            }
            k += 1;
        }
        assert(named.take(k as int) =~= named);
        proof {
            lemma_quotient_wf(a, p@);
        }
        Dfa { delta, init_state, accept_states }
    }

    /// The partition of the states that refinement ends with: it starts
    /// from the states that do not accept and those that do, and splits
    /// every group by what its states lead to until a round splits none.
    fn minimal_partition(&self) -> (p: Partition)
        requires
            self@.wf(),
        ensures
            p.wf(),
            p@ == settled(self@),
            fits(self@, p@),
    {
        let ghost a = self@;
        let mut non_accept: Vec<usize> = Vec::new();
        let mut i: usize = 0;
        assert(non_accept@ =~= a.states().take(0).filter(is_rejecting(a))) by {
            reveal(Seq::filter);
        }
        while i < self.delta.len()
            invariant
                i <= self.delta.len(),
                a == self@,
                non_accept@ == a.states().take(i as int).filter(is_rejecting(a)),
            decreases self.delta.len() - i,
        {
            proof {
                reveal(Seq::filter);
                assert(a.states().take(i + 1).drop_last() =~= a.states().take(i as int));
            }
            let s = self.delta[i].0;
            if find_member(&self.accept_states, s).is_none() {
                non_accept.push(s);
            }
            i += 1;
        }
        assert(a.states().take(i as int) =~= a.states());
        let accept = self.accept_states.clone();
        assert(accept@ =~= a.accepting);
        let mut groups: Vec<Vec<usize>> = Vec::new();
        groups.push(non_accept);
        groups.push(accept);
        let mut p = Partition::new(groups);
        assert(p@ =~= initial(a));
        let ghost bound = total(initial(a));
        let ghost mut fuel: nat = bound + 2;
        let ghost mut first = true;
        proof {
            lemma_initial_fits(a);
        }
        loop
            invariant
                a == self@,
                a.wf(),
                p.wf(),
                fits(a, p@),
                bound == total(initial(a)),
                total(p@) == bound,
                settled(a) == settle(a, p@, fuel),
                first ==> fuel == bound + 2,
                !first ==> no_empty_group(p@) && fuel + p@.len() >= bound + 1,
            decreases fuel,
        {
            let next = p.refine(self);
            proof {
                lemma_refined(a, p@);
                if !first {
                    lemma_groups_bound(p@);
                }
            }
            if next.len() == p.len() {
                return p;
            }
            proof {
                fuel = (fuel - 1) as nat;
                first = false;
            }
            p = next;
        }
    }

    /// The minimal automaton: its states are the groups that partition
    /// refinement ends with, each named by its index. It accepts what this
    /// automaton accepts, any two of its states can be told apart by a
    /// word, and minimizing it again leaves as many states.
    pub fn minimal(&self) -> (d: Dfa)
        requires
            self@.wf(),
        ensures
            d@ == minimized(self@),
            d@.wf(),
            forall|w: Seq<char>| d@.accepts(w) == self@.accepts(w),
            forall|s: usize, t: usize|
                d@.has_state(s) && d@.has_state(t) && s != t ==> #[trigger] distinguishable(
                    d@,
                    s,
                    t,
                ),
            minimized(d@).table.len() == d@.table.len(),
    {
        let p = self.minimal_partition();
        proof {
            let b = minimized(self@);
            assert forall|w: Seq<char>| b.accepts(w) == self@.accepts(w) by {
                minimal_keeps_language(self@, w);
            }
            assert forall|s: usize, t: usize|
                b.has_state(s) && b.has_state(t) && s != t implies #[trigger] distinguishable(
                b,
                s,
                t,
            ) by {
                minimal_states_differ(self@, s, t);
            }
            minimal_twice_keeps_size(self@);
        }
        self.map(&p)
    }
}

/// An ordered list of groups of states, with the index of its group for
/// each state.
pub struct Partition {
    sets: Vec<Vec<usize>>,
    set_index: HashMap<usize, usize>,
}

/// The groups that a list of lists stands for.
pub open spec fn groups_model(sets: Seq<Vec<usize>>) -> Seq<Seq<usize>> {
    Seq::new(sets.len(), |i: int| sets[i]@)
}

impl View for Partition {
    type V = Seq<Seq<usize>>;

    closed spec fn view(&self) -> Seq<Seq<usize>> {
        groups_model(self.sets@)
    }
}

impl Partition {
    /// Whether the index of every state is that of its group.
    pub closed spec fn wf(&self) -> bool {
        self.set_index@ == index_map(self@)
    }

    /// The partition with the given groups.
    pub fn new(sets: Vec<Vec<usize>>) -> (p: Partition)
        ensures
            p.wf(),
            p@ == groups_model(sets@),
    {
        broadcast use group_hash_axioms;

        let ghost gs = groups_model(sets@);
        let mut set_index: HashMap<usize, usize> = HashMap::new();
        let mut i: usize = 0;
        assert(set_index@ =~= index_map(gs.take(0)));
        while i < sets.len()
            invariant
                i <= sets.len(),
                gs == groups_model(sets@),
                set_index@ == index_map(gs.take(i as int)),
            decreases sets.len() - i,
        {
            let g = &sets[i];
            let ghost before = set_index@;
            let mut j: usize = 0;
            assert(set_index@ =~= before.union_prefer_right(row_map(g@.take(0), i)));
            while j < g.len()
                invariant
                    j <= g.len(),
                    set_index@ == before.union_prefer_right(row_map(g@.take(j as int), i)),
                decreases g.len() - j,
            {
                set_index.insert(g[j], i);
                proof {
                    assert forall|q: usize|
                        g@.take(j + 1).contains(q) <==> g@.take(j as int).contains(q) || q
                            == g[j as int] by {
                        lemma_take_one_more(g@, j as int, q);
                    }
                    assert(set_index@ =~= before.union_prefer_right(row_map(g@.take(j + 1), i)));
                }
                j += 1;
            }
            proof {
                assert(g@.take(j as int) =~= g@);
                assert(gs.take(i + 1).drop_last() =~= gs.take(i as int));
                assert(gs.take(i + 1).last() == g@);
            }
            i += 1;
        }
        assert(gs.take(i as int) =~= gs);
        Partition { sets, set_index }
    }

    /// The number of groups.
    pub fn len(&self) -> (n: usize)
        ensures
            n == self@.len(),
    {
        return self.sets.len();
    }

    /// The index of the group of the state `q`.
    pub fn index(&self, q: &usize) -> (i: usize)
        requires
            self.wf(),
            covers(self@, *q),
        ensures
            i == group_of(self@, *q),
            i < self@.len(),
    {
        broadcast use group_hash_axioms;

        proof {
            assert(self@.len() == self.sets.len());
            lemma_index_map(self@);
            assert(group_of(self@, *q) < self@.len());
        }
        let found = self.set_index.get(q);
        *found.unwrap()
    }

    /// The index of the group that the state `q` leads into on the symbol
    /// in place `k` of the alphabet.
    fn group_after(&self, dfa: &Dfa, chars: &Vec<char>, q: usize, k: usize) -> (i: usize)
        requires
            self.wf(),
            dfa@.wf(),
            fits(dfa@, self@),
            chars@ == dfa@.alphabet(),
            dfa@.has_state(q),
            k < chars.len(),
        ensures
            i == group_of(self@, dfa@.next(q, dfa@.alphabet()[k as int])),
    {
        let x = chars[k];
        proof {
            assert(dfa@.row(dfa@.start)[k as int].0 == x);
            assert(dfa@.has_symbol(x));
            dfa@.lemma_step(q, x);
        }
        let t = dfa.transition(q, x);
        self.index(&t)
    }

    /// Whether the states `q` and `r` lead, on every symbol, into one
    /// group.
    fn alike(&self, dfa: &Dfa, chars: &Vec<char>, q: usize, r: usize) -> (b: bool)
        requires
            self.wf(),
            dfa@.wf(),
            fits(dfa@, self@),
            chars@ == dfa@.alphabet(),
            dfa@.has_state(q),
            dfa@.has_state(r),
        ensures
            b == alike(dfa@, self@, q, r),
    {
        let ghost a = dfa@;
        let mut k: usize = 0;
        while k < chars.len()
            invariant
                k <= chars.len(),
                a == dfa@,
                self.wf(),
                a.wf(),
                fits(a, self@),
                chars@ == a.alphabet(),
                a.has_state(q),
                a.has_state(r),
                forall|j: int|
                    0 <= j < k ==> group_of(self@, a.next(q, #[trigger] a.alphabet()[j]))
                        == group_of(self@, a.next(r, a.alphabet()[j])),
            decreases chars.len() - k,
        {
            if self.group_after(dfa, chars, q, k) != self.group_after(dfa, chars, r, k) {
                return false;
            }
            k += 1;
        }
        true
    }

    /// The partition with every group split by what its states lead to in
    /// `dfa`: two states of a group stay together where, on every symbol,
    /// they lead into one group of this partition. The new groups stand in
    /// the place of the group they come from, in the order of their first
    /// states.
    pub fn refine(&self, dfa: &Dfa) -> (p: Partition)
        requires
            self.wf(),
            dfa@.wf(),
            fits(dfa@, self@),
        ensures
            p.wf(),
            p@ == refined(dfa@, self@),
            fits(dfa@, p@),
    {
        let ghost a = dfa@;
        let chars = dfa.chars();
        let mut sets: Vec<Vec<usize>> = Vec::new();
        let mut i: usize = 0;
        assert(groups_model(sets@) =~= split_all(a, self@, 0));
        while i < self.sets.len()
            invariant
                i <= self.sets.len(),
                a == dfa@,
                self.wf(),
                a.wf(),
                fits(a, self@),
                chars@ == a.alphabet(),
                groups_model(sets@) == split_all(a, self@, i as nat),
            decreases self.sets.len() - i,
        {
            let mut rest: Vec<usize> = self.sets[i].clone();
            assert(rest@ =~= self@[i as int]);
            let ghost done = groups_model(sets@);
            assert(groups_model(sets@) + split(a, self@, rest@) =~= split_all(
                a,
                self@,
                (i + 1) as nat,
            ));
            while rest.len() > 0
                invariant
                    i < self.sets.len(),
                    a == dfa@,
                    self.wf(),
                    a.wf(),
                    fits(a, self@),
                    chars@ == a.alphabet(),
                    forall|q: usize| rest@.contains(q) ==> a.has_state(q),
                    groups_model(sets@) + split(a, self@, rest@) == split_all(
                        a,
                        self@,
                        (i + 1) as nat,
                    ),
                decreases rest.len(),
            {
                let q = rest[0];
                assert(rest@.contains(q));
                let ghost yes = stays_with(a, self@, q);
                let ghost no = parts_from(a, self@, q);
                let mut class: Vec<usize> = Vec::new();
                let mut others: Vec<usize> = Vec::new();
                let mut j: usize = 0;
                proof {
                    reveal(Seq::filter);
                    assert(class@ =~= rest@.take(0).filter(yes));
                    assert(others@ =~= rest@.take(0).filter(no));
                }
                while j < rest.len()
                    invariant
                        j <= rest.len(),
                        a == dfa@,
                        self.wf(),
                        a.wf(),
                        fits(a, self@),
                        chars@ == a.alphabet(),
                        a.has_state(q),
                        yes == stays_with(a, self@, q),
                        no == parts_from(a, self@, q),
                        forall|q: usize| rest@.contains(q) ==> a.has_state(q),
                        class@ == rest@.take(j as int).filter(yes),
                        others@ == rest@.take(j as int).filter(no),
                    decreases rest.len() - j,
                {
                    let o = rest[j];
                    assert(rest@.contains(o));
                    let stays = o == q || self.alike(dfa, &chars, q, o);
                    proof {
                        reveal(Seq::filter);
                        assert(rest@.take(j + 1).drop_last() =~= rest@.take(j as int));
                        assert(yes(o) == stays);
                        assert(no(o) == !stays);
                    }
                    if stays {
                        class.push(o);
                    } else {
                        others.push(o);
                    }
                    j += 1;
                }
                proof {
                    assert(rest@.take(j as int) =~= rest@);
                    lemma_filter_drops(rest@, no, 0);
                    assert forall|s: usize| others@.contains(s) implies a.has_state(s) by {
                        lemma_filter_member(rest@, no, s);
                    }
                    let ghost before = groups_model(sets@);
                    assert(split(a, self@, rest@) == seq![class@] + split(a, self@, others@));
                    assert(before.push(class@) + split(a, self@, others@) =~= before + split(
                        a,
                        self@,
                        rest@,
                    ));
                }
                let ghost before = groups_model(sets@);
                sets.push(class);
                assert(groups_model(sets@) =~= before.push(class@));
                rest = others;
            }
            assert(split(a, self@, rest@) =~= Seq::<Seq<usize>>::empty());
            assert(groups_model(sets@) + Seq::<Seq<usize>>::empty() =~= groups_model(sets@));
            i += 1;
        }
        let ghost count = sets.len();
        let p = Partition::new(sets);
        proof {
            assert(p@.len() == count);
            lemma_refined(a, self@);
            assert forall|k: int, q: usize| 0 <= k < p@.len() && (#[trigger] p@[k].contains(
                q,
            )) implies a.has_state(q) by {
                assert(covers(p@, q));
                assert(covers(self@, q));
                let w = choose|w: int| 0 <= w < self@.len() && (#[trigger] self@[w]).contains(q);
                assert(self@[w].contains(q));
            }
        }
        p
    }
}

/// Every pair of a collected list is one of the pairs it was collected
/// from.
pub proof fn lemma_collected_rows<K, V>(t: Seq<(K, V)>, i: int)
    requires
        0 <= i < collected(t).len(),
    ensures
        exists|k: int| 0 <= k < t.len() && #[trigger] t[k] == collected(t)[i],
    decreases t.len(),
{
    if t.len() > 0 {
        let before = collected(t.drop_last());
        let k = t.last().0;
        if has_key(before, k) {
            let at = key_index(before, k);
            if i == at {
                assert(t[t.len() - 1] == collected(t)[i]);
            } else {
                lemma_collected_rows(t.drop_last(), i);
                let w = choose|w: int|
                    0 <= w < t.drop_last().len() && #[trigger] t.drop_last()[w] == before[i];
                assert(t[w] == collected(t)[i]);
            }
        } else {
            if i == before.len() {
                assert(t[t.len() - 1] == collected(t)[i]);
            } else {
                lemma_collected_rows(t.drop_last(), i);
                let w = choose|w: int|
                    0 <= w < t.drop_last().len() && #[trigger] t.drop_last()[w] == before[i];
                assert(t[w] == collected(t)[i]);
            }
        }
    }
}

} // verus!
