//! What minimization keeps: the language of the automaton.

use vstd::prelude::*;
use vstd::seq_lib::seq_to_set_is_finite;
use vstd::set_lib::lemma_len_subset;
use crate::automaton::Automaton;
use crate::lists::{
    lemma_filter_all,
    lemma_filter_drops,
    lemma_filter_halves,
    lemma_filter_member,
};
use crate::refinement::{
    alike,
    covers,
    fits,
    group_of,
    images,
    initial,
    is_rejecting,
    lemma_index_map,
    lemma_initial_fits,
    lemma_merged,
    lemma_quotient_wf,
    lemma_refined,
    lemma_refined_fits,
    lemma_split,
    lemma_split_all,
    merged,
    minimized,
    naming,
    no_empty_group,
    parts_from,
    quotient,
    refined,
    rejecting,
    renamed,
    settle,
    settled,
    split,
    split_all,
    stays_with,
    total,
};
use crate::table::{
    distinct_keys,
    has_key,
    key_index,
    lemma_distinct,
    lemma_key_index,
    lemma_keys,
    lookup,
};

verus! {

/// Whether a state accepts.
pub open spec fn is_accepting_state(a: Automaton) -> spec_fn(usize) -> bool {
    |s: usize| a.is_accepting(s)
}

/// Whether the states of each group agree on accepting.
pub open spec fn consistent(a: Automaton, sets: Seq<Seq<usize>>) -> bool {
    forall|i: int, q: usize, r: usize|
        0 <= i < sets.len() && #[trigger] sets[i].contains(q) && #[trigger] sets[i].contains(r)
            ==> a.is_accepting(q) == a.is_accepting(r)
}

/// Whether the states of each group lead, on every symbol, into one
/// group.
pub open spec fn stable(a: Automaton, sets: Seq<Seq<usize>>) -> bool {
    forall|i: int, q: usize, r: usize|
        0 <= i < sets.len() && #[trigger] sets[i].contains(q) && #[trigger] sets[i].contains(r)
            ==> alike(a, sets, q, r)
}

/// Whether every state of the list `c` is in the list `g`.
pub open spec fn within(c: Seq<usize>, g: Seq<usize>) -> bool {
    forall|q: usize| c.contains(q) ==> g.contains(q)
}

/// Whether the states of the list are alike, each two of them.
pub open spec fn all_alike(a: Automaton, sets: Seq<Seq<usize>>, c: Seq<usize>) -> bool {
    forall|q: usize, r: usize| c.contains(q) && c.contains(r) ==> alike(a, sets, q, r)
}

/// The groups that refinement starts from hold no more states than the
/// automaton has.
pub proof fn lemma_initial_total(a: Automaton)
    requires
        a.wf(),
    ensures
        total(initial(a)) <= a.table.len(),
        total(initial(a)) == rejecting(a).len() + a.accepting.len(),
{
    let states = a.states();
    let yes = is_accepting_state(a);
    let no = is_rejecting(a);
    lemma_filter_halves(states, yes, no);
    let acc = states.filter(yes);
    a.accepting.unique_seq_to_set();
    acc.lemma_cardinality_of_set();
    assert forall|s: usize| a.accepting.to_set().contains(s) implies acc.to_set().contains(s) by {
        assert(a.accepting.contains(s));
        let j = choose|j: int| 0 <= j < a.accepting.len() && a.accepting[j] == s;
        assert(a.has_state(a.accepting[j]));
        lemma_keys(a.table, s);
        lemma_filter_member(states, yes, s);
    }
    seq_to_set_is_finite(acc);
    lemma_len_subset(a.accepting.to_set(), acc.to_set());
    let p0 = initial(a);
    assert(p0.drop_last() =~= seq![rejecting(a)]);
    assert(p0.drop_last().drop_last() =~= Seq::<Seq<usize>>::empty());
    assert(total(p0) == rejecting(a).len() + a.accepting.len()) by {
        reveal_with_fuel(total, 3);
    }
}

/// The groups that refinement starts from agree on accepting.
pub proof fn lemma_initial_consistent(a: Automaton)
    ensures
        consistent(a, initial(a)),
{
    let sets = initial(a);
    assert forall|i: int, q: usize, r: usize|
        0 <= i < sets.len() && #[trigger] sets[i].contains(q) && #[trigger] sets[i].contains(
            r,
        ) implies a.is_accepting(q) == a.is_accepting(r) by {
        if i == 0 {
            lemma_filter_member(a.states(), is_rejecting(a), q);
            lemma_filter_member(a.states(), is_rejecting(a), r);
        }
    }
}

/// States that are both like a third are alike.
pub proof fn lemma_alike_shared(a: Automaton, sets: Seq<Seq<usize>>, p: usize, q: usize, r: usize)
    requires
        q == p || alike(a, sets, p, q),
        r == p || alike(a, sets, p, r),
    ensures
        alike(a, sets, q, r),
{
    assert forall|k: int| 0 <= k < a.alphabet().len() implies group_of(
        sets,
        a.next(q, #[trigger] a.alphabet()[k]),
    ) == group_of(sets, a.next(r, a.alphabet()[k])) by {}
}

/// Every group of a split holds states of the split group only, and they
/// are alike, each two of them.
pub proof fn lemma_split_classes(a: Automaton, sets: Seq<Seq<usize>>, g: Seq<usize>, k: int)
    requires
        0 <= k < split(a, sets, g).len(),
    ensures
        within(split(a, sets, g)[k], g),
        all_alike(a, sets, split(a, sets, g)[k]),
    decreases g.len(),
{
    let yes = stays_with(a, sets, g[0]);
    let no = parts_from(a, sets, g[0]);
    let first = g.filter(yes);
    let rest = g.filter(no);
    let c = split(a, sets, g)[k];
    lemma_filter_drops(g, no, 0);
    if k == 0 {
        assert(c == first);
        assert forall|q: usize| c.contains(q) implies g.contains(q) by {
            lemma_filter_member(g, yes, q);
        }
        assert forall|q: usize, r: usize| c.contains(q) && c.contains(r) implies alike(
            a,
            sets,
            q,
            r,
        ) by {
            lemma_filter_member(g, yes, q);
            lemma_filter_member(g, yes, r);
            lemma_alike_shared(a, sets, g[0], q, r);
        }
    } else {
        assert(c == split(a, sets, rest)[k - 1]);
        lemma_split_classes(a, sets, rest, k - 1);
        assert forall|q: usize| c.contains(q) implies g.contains(q) by {
            lemma_filter_member(g, no, q);
        }
    }
}

/// Every group of a refinement holds states of one group only, and they
/// are alike, each two of them.
pub proof fn lemma_refined_classes(a: Automaton, sets: Seq<Seq<usize>>, n: nat, k: int)
    requires
        n <= sets.len(),
        0 <= k < split_all(a, sets, n).len(),
    ensures
        exists|i: int| 0 <= i < n && within(split_all(a, sets, n)[k], #[trigger] sets[i]),
        all_alike(a, sets, split_all(a, sets, n)[k]),
    decreases n,
{
    let before = split_all(a, sets, (n - 1) as nat);
    let here = split(a, sets, sets[n - 1]);
    if k < before.len() {
        lemma_refined_classes(a, sets, (n - 1) as nat, k);
        let i = choose|i: int| 0 <= i < n - 1 && within(before[k], #[trigger] sets[i]);
        assert(within(split_all(a, sets, n)[k], sets[i]));
    } else {
        lemma_split_classes(a, sets, sets[n - 1], k - before.len());
        assert(within(split_all(a, sets, n)[k], sets[n - 1]));
    }
}

/// Refinement keeps the agreement on accepting.
pub proof fn lemma_refined_consistent(a: Automaton, sets: Seq<Seq<usize>>)
    requires
        consistent(a, sets),
    ensures
        consistent(a, refined(a, sets)),
{
    let next = refined(a, sets);
    assert forall|k: int, q: usize, r: usize|
        0 <= k < next.len() && #[trigger] next[k].contains(q) && #[trigger] next[k].contains(
            r,
        ) implies a.is_accepting(q) == a.is_accepting(r) by {
        lemma_refined_classes(a, sets, sets.len(), k);
        let i = choose|i: int| 0 <= i < sets.len() && within(next[k], #[trigger] sets[i]);
        assert(sets[i].contains(q));
        assert(sets[i].contains(r));
    }
}

/// A group whose split is one group is that group.
pub proof fn lemma_single_class(a: Automaton, sets: Seq<Seq<usize>>, g: Seq<usize>)
    requires
        g.len() > 0,
        split(a, sets, g).len() <= 1,
    ensures
        split(a, sets, g) == seq![g],
{
    let yes = stays_with(a, sets, g[0]);
    let no = parts_from(a, sets, g[0]);
    lemma_filter_drops(g, no, 0);
    lemma_split(a, sets, g.filter(no));
    lemma_filter_halves(g, yes, no);
    assert(g.filter(no).len() == 0);
    assert(split(a, sets, g.filter(no)) =~= Seq::<Seq<usize>>::empty());
    lemma_filter_all(g, yes);
    assert(split(a, sets, g) =~= seq![g]);
}

/// Where the first `n` groups split into no more than `n`, none of them
/// was split.
pub proof fn lemma_split_all_exact(a: Automaton, sets: Seq<Seq<usize>>, n: nat)
    requires
        no_empty_group(sets),
        n <= sets.len(),
        split_all(a, sets, n).len() <= n,
    ensures
        split_all(a, sets, n) == sets.take(n as int),
    decreases n,
{
    if n > 0 {
        let g = sets[n - 1];
        lemma_split_all(a, sets, (n - 1) as nat);
        lemma_split(a, sets, g);
        assert(g.len() > 0);
        lemma_split_all_exact(a, sets, (n - 1) as nat);
        lemma_single_class(a, sets, g);
        assert(sets.take(n - 1) + seq![g] =~= sets.take(n as int));
    } else {
        assert(split_all(a, sets, n) =~= sets.take(n as int));
    }
}

/// A partition that refinement does not make longer is stable.
pub proof fn lemma_unsplit_is_stable(a: Automaton, sets: Seq<Seq<usize>>)
    requires
        no_empty_group(sets),
        refined(a, sets).len() == sets.len(),
    ensures
        refined(a, sets) == sets,
        stable(a, sets),
{
    lemma_split_all_exact(a, sets, sets.len());
    assert(sets.take(sets.len() as int) =~= sets);
    assert forall|i: int, q: usize, r: usize|
        0 <= i < sets.len() && #[trigger] sets[i].contains(q) && #[trigger] sets[i].contains(
            r,
        ) implies alike(a, sets, q, r) by {
        lemma_refined_classes(a, sets, sets.len(), i);
    }
}

/// Where all states are in one group, the states of a group split into
/// one group at most.
pub proof fn lemma_one_group(a: Automaton, sets: Seq<Seq<usize>>, only: int, g: Seq<usize>)
    requires
        a.wf(),
        fits(a, sets),
        forall|i: int| 0 <= i < sets.len() && i != only ==> (#[trigger] sets[i]).len() == 0,
        forall|q: usize| g.contains(q) ==> a.has_state(q),
    ensures
        split(a, sets, g).len() <= 1,
{
    if g.len() > 0 {
        let yes = stays_with(a, sets, g[0]);
        let no = parts_from(a, sets, g[0]);
        let rest = g.filter(no);
        lemma_index_map(sets);
        assert(g.contains(g[0]));
        if rest.len() > 0 {
            let o = rest[0];
            assert(rest.contains(o));
            lemma_filter_member(g, no, o);
            assert forall|k: int| 0 <= k < a.alphabet().len() implies group_of(
                sets,
                a.next(g[0], #[trigger] a.alphabet()[k]),
            ) == group_of(sets, a.next(o, a.alphabet()[k])) by {
                let x = a.alphabet()[k];
                assert(a.row(a.start)[k].0 == x);
                a.lemma_step(g[0], x);
                a.lemma_step(o, x);
                let t1 = a.next(g[0], x);
                let t2 = a.next(o, x);
                assert(covers(sets, t1));
                assert(covers(sets, t2));
                assert(sets[group_of(sets, t1) as int].contains(t1));
                assert(sets[group_of(sets, t2) as int].contains(t2));
            }
            assert(alike(a, sets, g[0], o));
        }
        assert(rest =~= Seq::<usize>::empty());
        assert(split(a, sets, rest) =~= Seq::<Seq<usize>>::empty());
    }
}

/// Where the partition that refinement starts from has an empty group, the
/// first round leaves fewer groups.
pub proof fn lemma_initial_degenerate(a: Automaton)
    requires
        a.wf(),
        !no_empty_group(initial(a)),
    ensures
        refined(a, initial(a)).len() <= 1,
{
    let p0 = initial(a);
    lemma_initial_fits(a);
    let e = choose|e: int| 0 <= e < p0.len() && (#[trigger] p0[e]).len() == 0;
    let only = 1 - e;
    assert forall|q: usize| p0[0].contains(q) implies a.has_state(q) by {}
    assert forall|q: usize| p0[1].contains(q) implies a.has_state(q) by {}
    lemma_one_group(a, p0, only, p0[0]);
    lemma_one_group(a, p0, only, p0[1]);
    assert(split(a, p0, p0[e]) =~= Seq::<Seq<usize>>::empty());
    assert(split_all(a, p0, 2) == split_all(a, p0, 1) + split(a, p0, p0[1]));
    assert(split_all(a, p0, 1) == split_all(a, p0, 0) + split(a, p0, p0[0]));
}

/// Refinement to the end, from a partition without an empty group, ends
/// with a stable partition of the states that agrees on accepting.
pub proof fn lemma_settle(a: Automaton, sets: Seq<Seq<usize>>, fuel: nat)
    requires
        a.wf(),
        fits(a, sets),
        consistent(a, sets),
        no_empty_group(sets),
        total(sets) <= usize::MAX,
        fuel + sets.len() >= total(sets) + 1,
    ensures
        fits(a, settle(a, sets, fuel)),
        consistent(a, settle(a, sets, fuel)),
        stable(a, settle(a, sets, fuel)),
        no_empty_group(settle(a, sets, fuel)),
    decreases fuel,
{
    let next = refined(a, sets);
    lemma_refined(a, sets);
    if next.len() == sets.len() {
        lemma_unsplit_is_stable(a, sets);
    } else {
        lemma_refined_fits(a, sets);
        lemma_refined_consistent(a, sets);
        lemma_settle(a, next, (fuel - 1) as nat);
    }
}

/// The partition that refinement ends with is a stable partition of the
/// states that agrees on accepting, without an empty group.
pub proof fn lemma_settled(a: Automaton)
    requires
        a.wf(),
    ensures
        fits(a, settled(a)),
        consistent(a, settled(a)),
        stable(a, settled(a)),
        no_empty_group(settled(a)),
{
    let p0 = initial(a);
    lemma_initial_fits(a);
    lemma_initial_consistent(a);
    lemma_initial_total(a);
    let next = refined(a, p0);
    lemma_refined(a, p0);
    if next.len() == p0.len() {
        if !no_empty_group(p0) {
            lemma_initial_degenerate(a);
        }
        lemma_unsplit_is_stable(a, p0);
    } else {
        lemma_refined_fits(a, p0);
        lemma_refined_consistent(a, p0);
        lemma_settle(a, next, (total(p0) + 1) as nat);
    }
}

/// A renamed row gives a symbol the new name of the state that the row
/// gave it.
pub proof fn lemma_renamed(row: Seq<(char, usize)>, f: spec_fn(usize) -> usize, x: char)
    requires
        distinct_keys(row),
    ensures
        has_key(renamed(row, f), x) == has_key(row, x),
        has_key(row, x) ==> lookup(renamed(row, f), x) == f(lookup(row, x)),
        distinct_keys(renamed(row, f)),
{
    let r = renamed(row, f);
    assert forall|p: int, q: int| 0 <= p < q < r.len() implies (#[trigger] r[p]).0 != (
    #[trigger] r[q]).0 by {
        assert(row[p].0 != row[q].0);
    }
    if has_key(row, x) {
        let j = key_index(row, x);
        assert(r[j].0 == x);
        lemma_key_index(r, j);
        lemma_key_index(row, j);
    }
    if has_key(r, x) {
        let j = key_index(r, x);
        assert(row[j].0 == x);
    }
}

/// In the automaton of the groups, the row of a state's group is the
/// renamed row of a state of that group.
pub proof fn lemma_quotient_row(a: Automaton, sets: Seq<Seq<usize>>, s: usize) -> (s0: usize)
    requires
        a.wf(),
        a.has_state(s),
    ensures
        a.has_state(s0),
        group_of(sets, s0) == group_of(sets, s),
        quotient(a, sets).has_state(group_of(sets, s)),
        quotient(a, sets).row(group_of(sets, s)) == renamed(a.row(s0), naming(sets)),
{
    let f = naming(sets);
    let m = merged(a.table, f);
    lemma_merged(a.table, f);
    let i = key_index(a.table, s);
    assert(has_key(m, f(a.table[i].0)));
    let k = key_index(m, f(s));
    let i0 = choose|i0: int|
        0 <= i0 < a.table.len() && #[trigger] m[k] == (
            f((#[trigger] a.table[i0]).0),
            renamed(a.table[i0].1, f),
        );
    a.lemma_row(i0);
    lemma_key_index(m, k);
    a.table[i0].0
}

/// The automaton of the groups of a stable partition steps as the
/// automaton does: from the group of a state, on a symbol, to the group
/// of the state that follows.
pub proof fn lemma_quotient_step(a: Automaton, sets: Seq<Seq<usize>>, s: usize, x: char)
    requires
        a.wf(),
        fits(a, sets),
        stable(a, sets),
        a.has_state(s),
        a.has_symbol(x),
    ensures
        quotient(a, sets).next(group_of(sets, s), x) == group_of(sets, a.next(s, x)),
{
    let f = naming(sets);
    let s0 = lemma_quotient_row(a, sets, s);
    a.lemma_step(s0, x);
    a.lemma_step(s, x);
    lemma_renamed(a.row(s0), f, x);
    lemma_index_map(sets);
    assert(covers(sets, s));
    assert(covers(sets, s0));
    let i = group_of(sets, s) as int;
    assert(sets[i].contains(s));
    assert(sets[i].contains(s0));
    assert(alike(a, sets, s0, s));
    let k = key_index(a.row(a.start), x);
    assert(a.alphabet()[k] == x);
}

/// The automaton of the groups has the alphabet of the automaton.
pub proof fn lemma_quotient_alphabet(a: Automaton, sets: Seq<Seq<usize>>, x: char)
    requires
        a.wf(),
    ensures
        quotient(a, sets).has_symbol(x) == a.has_symbol(x),
{
    let f = naming(sets);
    let s0 = lemma_quotient_row(a, sets, a.start);
    let i0 = key_index(a.table, s0);
    a.lemma_row(i0);
    lemma_renamed(a.row(s0), f, x);
    if a.has_symbol(x) {
        a.lemma_step(s0, x);
    }
    if has_key(a.row(s0), x) {
        a.lemma_row_symbols(s0, x);
    }
}

/// In the automaton of the groups of a partition that agrees on
/// accepting, the group of a state accepts where the state does.
pub proof fn lemma_quotient_accepting(a: Automaton, sets: Seq<Seq<usize>>, s: usize)
    requires
        a.wf(),
        fits(a, sets),
        consistent(a, sets),
        a.has_state(s),
    ensures
        quotient(a, sets).is_accepting(group_of(sets, s)) == a.is_accepting(s),
{
    let f = naming(sets);
    let named = images(a.accepting, f);
    lemma_distinct(named);
    lemma_index_map(sets);
    if a.is_accepting(s) {
        let j = choose|j: int| 0 <= j < a.accepting.len() && a.accepting[j] == s;
        assert(named[j] == f(s));
        assert(named.contains(f(s)));
    }
    if quotient(a, sets).is_accepting(group_of(sets, s)) {
        assert(named.contains(f(s)));
        let j = choose|j: int| 0 <= j < named.len() && named[j] == f(s);
        let t = a.accepting[j];
        assert(a.has_state(a.accepting[j]));
        assert(covers(sets, t));
        assert(covers(sets, s));
        let i = group_of(sets, s) as int;
        assert(sets[i].contains(s));
        assert(sets[i].contains(t));
        assert(a.accepting.contains(t));
    }
}

/// The automaton of the groups of a stable partition runs as the
/// automaton does.
pub proof fn lemma_quotient_run(a: Automaton, sets: Seq<Seq<usize>>, s: usize, w: Seq<char>)
    requires
        a.wf(),
        fits(a, sets),
        stable(a, sets),
        a.has_state(s),
        a.over_alphabet(w),
    ensures
        quotient(a, sets).run_from(group_of(sets, s), w) == group_of(sets, a.run_from(s, w)),
        a.has_state(a.run_from(s, w)),
    decreases w.len(),
{
    if w.len() > 0 {
        assert(a.has_symbol(w[0]));
        a.lemma_step(s, w[0]);
        lemma_quotient_step(a, sets, s, w[0]);
        assert forall|i: int| 0 <= i < w.skip(1).len() implies a.has_symbol(
            #[trigger] w.skip(1)[i],
        ) by {
            assert(w.skip(1)[i] == w[i + 1]);
        }
        lemma_quotient_run(a, sets, a.next(s, w[0]), w.skip(1));
    }
}

/// The automaton of the groups of a stable partition that agrees on
/// accepting accepts what the automaton accepts.
pub proof fn quotient_keeps_language(a: Automaton, sets: Seq<Seq<usize>>, w: Seq<char>)
    requires
        a.wf(),
        fits(a, sets),
        consistent(a, sets),
        stable(a, sets),
    ensures
        quotient(a, sets).accepts(w) == a.accepts(w),
{
    let b = quotient(a, sets);
    assert(b.over_alphabet(w) == a.over_alphabet(w)) by {
        assert forall|i: int| 0 <= i < w.len() implies b.has_symbol(#[trigger] w[i])
            == a.has_symbol(w[i]) by {
            lemma_quotient_alphabet(a, sets, w[i]);
        }
        if a.over_alphabet(w) {
            assert forall|i: int| 0 <= i < w.len() implies b.has_symbol(#[trigger] w[i]) by {
                assert(a.has_symbol(w[i]));
            }
        }
        if b.over_alphabet(w) {
            assert forall|i: int| 0 <= i < w.len() implies a.has_symbol(#[trigger] w[i]) by {
                assert(b.has_symbol(w[i]));
            }
        }
    }
    if a.over_alphabet(w) {
        lemma_quotient_run(a, sets, a.start, w);
        lemma_quotient_accepting(a, sets, a.run_from(a.start, w));
    }
}

/// The minimal automaton accepts exactly what the automaton accepts.
pub proof fn minimal_keeps_language(a: Automaton, w: Seq<char>)
    requires
        a.wf(),
    ensures
        minimized(a).accepts(w) == a.accepts(w),
{
    lemma_settled(a);
    quotient_keeps_language(a, settled(a), w);
}

/// Whether no state is in two groups.
pub open spec fn sole(sets: Seq<Seq<usize>>) -> bool {
    forall|i: int, j: int, q: usize|
        0 <= i < sets.len() && 0 <= j < sets.len() && #[trigger] sets[i].contains(q)
            && #[trigger] sets[j].contains(q) ==> i == j
}

/// Whether the word `w` tells the states `q` and `r` apart: read from the
/// one it ends in an accepting state, read from the other it does not.
pub open spec fn tells_apart(a: Automaton, q: usize, r: usize, w: Seq<char>) -> bool {
    a.over_alphabet(w) && a.is_accepting(a.run_from(q, w)) != a.is_accepting(a.run_from(r, w))
}

/// Whether some word tells the states `q` and `r` apart.
pub open spec fn distinguishable(a: Automaton, q: usize, r: usize) -> bool {
    exists|w: Seq<char>| #[trigger] tells_apart(a, q, r, w)
}

/// Whether states in different groups can be told apart.
pub open spec fn separates(a: Automaton, sets: Seq<Seq<usize>>) -> bool {
    forall|q: usize, r: usize|
        a.has_state(q) && a.has_state(r) && #[trigger] group_of(sets, q) != #[trigger] group_of(
            sets,
            r,
        ) ==> distinguishable(a, q, r)
}

/// In a partition where no state is in two groups, the group of a state
/// is the group that holds it.
pub proof fn lemma_sole_group(sets: Seq<Seq<usize>>, i: int, q: usize)
    requires
        sets.len() <= usize::MAX,
        sole(sets),
        0 <= i < sets.len(),
        sets[i].contains(q),
    ensures
        group_of(sets, q) == i,
{
    lemma_index_map(sets);
    assert(covers(sets, q));
    assert(sets[group_of(sets, q) as int].contains(q));
}

/// In the split of a group no state is in two groups.
pub proof fn lemma_split_sole(a: Automaton, sets: Seq<Seq<usize>>, g: Seq<usize>)
    ensures
        sole(split(a, sets, g)),
    decreases g.len(),
{
    if g.len() > 0 {
        let yes = stays_with(a, sets, g[0]);
        let no = parts_from(a, sets, g[0]);
        let rest = g.filter(no);
        let sp = split(a, sets, g);
        lemma_filter_drops(g, no, 0);
        lemma_split_sole(a, sets, rest);
        assert forall|i: int, j: int, q: usize|
            0 <= i < sp.len() && 0 <= j < sp.len() && #[trigger] sp[i].contains(q)
                && #[trigger] sp[j].contains(q) implies i == j by {
            lemma_filter_member(g, yes, q);
            lemma_filter_member(g, no, q);
            if i > 0 {
                assert(sp[i] == split(a, sets, rest)[i - 1]);
                lemma_split_classes(a, sets, rest, i - 1);
            }
            if j > 0 {
                assert(sp[j] == split(a, sets, rest)[j - 1]);
                lemma_split_classes(a, sets, rest, j - 1);
            }
            if i > 0 && j > 0 {
                assert(split(a, sets, rest)[i - 1].contains(q));
                assert(split(a, sets, rest)[j - 1].contains(q));
            }
        }
    }
}

/// In the refinement of a partition where no state is in two groups, no
/// state is in two groups.
pub proof fn lemma_split_all_sole(a: Automaton, sets: Seq<Seq<usize>>, n: nat)
    requires
        sole(sets),
        n <= sets.len(),
    ensures
        sole(split_all(a, sets, n)),
    decreases n,
{
    if n > 0 {
        let before = split_all(a, sets, (n - 1) as nat);
        let here = split(a, sets, sets[n - 1]);
        let all = split_all(a, sets, n);
        lemma_split_all_sole(a, sets, (n - 1) as nat);
        lemma_split_sole(a, sets, sets[n - 1]);
        assert forall|i: int, j: int, q: usize|
            0 <= i < all.len() && 0 <= j < all.len() && #[trigger] all[i].contains(q)
                && #[trigger] all[j].contains(q) implies i == j by {
            if i < before.len() && j < before.len() {
                assert(before[i].contains(q));
                assert(before[j].contains(q));
            } else if i >= before.len() && j >= before.len() {
                assert(here[i - before.len()].contains(q));
                assert(here[j - before.len()].contains(q));
            } else {
                let lo = if i < j {
                    i
                } else {
                    j
                };
                let hi = if i < j {
                    j
                } else {
                    i
                };
                lemma_refined_classes(a, sets, (n - 1) as nat, lo);
                let o = choose|o: int| 0 <= o < n - 1 && within(before[lo], #[trigger] sets[o]);
                lemma_split_classes(a, sets, sets[n - 1], hi - before.len());
                assert(sets[o].contains(q));
                assert(sets[n - 1].contains(q));
            }
        }
    }
}

/// Every group of the split of one of the first `n` groups is a group of
/// the first `n` groups, each split.
pub proof fn lemma_split_all_has(a: Automaton, sets: Seq<Seq<usize>>, n: nat, i: int, k: int) -> (at: int)
    requires
        0 <= i < n <= sets.len(),
        0 <= k < split(a, sets, sets[i]).len(),
    ensures
        0 <= at < split_all(a, sets, n).len(),
        split_all(a, sets, n)[at] == split(a, sets, sets[i])[k],
    decreases n,
{
    let before = split_all(a, sets, (n - 1) as nat);
    if i == n - 1 {
        before.len() + k
    } else {
        lemma_split_all_has(a, sets, (n - 1) as nat, i, k)
    }
}

/// States of one group that are alike stay in one group when the group is
/// split.
pub proof fn lemma_split_together(
    a: Automaton,
    sets: Seq<Seq<usize>>,
    g: Seq<usize>,
    q: usize,
    r: usize,
    k: int,
)
    requires
        0 <= k < split(a, sets, g).len(),
        split(a, sets, g)[k].contains(q),
        g.contains(r),
        alike(a, sets, q, r),
    ensures
        split(a, sets, g)[k].contains(r),
    decreases g.len(),
{
    let yes = stays_with(a, sets, g[0]);
    let no = parts_from(a, sets, g[0]);
    let rest = g.filter(no);
    lemma_filter_drops(g, no, 0);
    lemma_filter_member(g, yes, q);
    lemma_filter_member(g, yes, r);
    lemma_filter_member(g, no, q);
    lemma_filter_member(g, no, r);
    if k == 0 {
        lemma_alike_shared(a, sets, g[0], q, g[0]);
        lemma_alike_shared(a, sets, q, g[0], r);
    } else {
        assert(split(a, sets, g)[k] == split(a, sets, rest)[k - 1]);
        lemma_split_classes(a, sets, rest, k - 1);
        assert(rest.contains(q));
        if yes(r) {
            lemma_alike_shared(a, sets, q, r, q);
            lemma_alike_shared(a, sets, r, g[0], q);
        }
        lemma_split_together(a, sets, rest, q, r, k - 1);
    }
}

/// A word that tells the followers of two states apart, after the symbol
/// that leads to them, tells the states apart.
pub proof fn lemma_tells_apart_step(a: Automaton, q: usize, r: usize, x: char, w: Seq<char>)
    requires
        a.has_symbol(x),
        tells_apart(a, a.next(q, x), a.next(r, x), w),
    ensures
        tells_apart(a, q, r, seq![x] + w),
{
    let xw = seq![x] + w;
    assert(xw.skip(1) =~= w);
    assert(xw[0] == x);
    assert forall|i: int| 0 <= i < xw.len() implies a.has_symbol(#[trigger] xw[i]) by {
        if i > 0 {
            assert(xw[i] == w[i - 1]);
        }
    }
}

/// Refinement keeps the groups apart: states in different groups of the
/// refinement can be told apart.
pub proof fn lemma_refined_separates(a: Automaton, sets: Seq<Seq<usize>>)
    requires
        a.wf(),
        fits(a, sets),
        total(sets) <= usize::MAX,
        sole(sets),
        separates(a, sets),
    ensures
        sole(refined(a, sets)),
        separates(a, refined(a, sets)),
{
    let next = refined(a, sets);
    lemma_split_all_sole(a, sets, sets.len());
    lemma_refined_fits(a, sets);
    lemma_index_map(sets);
    lemma_index_map(next);
    assert forall|q: usize, r: usize|
        a.has_state(q) && a.has_state(r) && #[trigger] group_of(next, q) != #[trigger] group_of(
            next,
            r,
        ) implies distinguishable(a, q, r) by {
        if group_of(sets, q) != group_of(sets, r) {
        } else {
            let i = group_of(sets, q) as int;
            assert(covers(sets, q) && covers(sets, r));
            assert(sets[i].contains(q));
            assert(sets[i].contains(r));
            if alike(a, sets, q, r) {
                lemma_split(a, sets, sets[i]);
                assert(covers(split(a, sets, sets[i]), q));
                let k = choose|k: int|
                    0 <= k < split(a, sets, sets[i]).len() && (#[trigger] split(
                        a,
                        sets,
                        sets[i],
                    )[k]).contains(q);
                lemma_split_together(a, sets, sets[i], q, r, k);
                let at = lemma_split_all_has(a, sets, sets.len(), i, k);
                lemma_sole_group(next, at, q);
                lemma_sole_group(next, at, r);
                assert(false);
            }
            let kx = choose|kx: int|
                0 <= kx < a.alphabet().len() && group_of(
                    sets,
                    a.next(q, #[trigger] a.alphabet()[kx]),
                ) != group_of(sets, a.next(r, a.alphabet()[kx]));
            let x = a.alphabet()[kx];
            assert(a.row(a.start)[kx].0 == x);
            assert(a.has_symbol(x));
            a.lemma_step(q, x);
            a.lemma_step(r, x);
            let tq = a.next(q, x);
            let tr = a.next(r, x);
            assert(group_of(sets, tq) != group_of(sets, tr));
            assert(distinguishable(a, tq, tr));
            let w = choose|w: Seq<char>| #[trigger] tells_apart(a, tq, tr, w);
            lemma_tells_apart_step(a, q, r, x, w);
            assert(tells_apart(a, q, r, seq![x] + w));
        }
    }
}

/// The partition that refinement starts from keeps states apart that can
/// be told apart, and no state is in two of its groups.
pub proof fn lemma_initial_separates(a: Automaton)
    requires
        a.wf(),
    ensures
        sole(initial(a)),
        separates(a, initial(a)),
{
    let p0 = initial(a);
    lemma_initial_fits(a);
    lemma_index_map(p0);
    assert forall|i: int, j: int, q: usize|
        0 <= i < p0.len() && 0 <= j < p0.len() && #[trigger] p0[i].contains(q)
            && #[trigger] p0[j].contains(q) implies i == j by {
        lemma_filter_member(a.states(), is_rejecting(a), q);
    }
    assert forall|q: usize, r: usize|
        a.has_state(q) && a.has_state(r) && #[trigger] group_of(p0, q) != #[trigger] group_of(
            p0,
            r,
        ) implies distinguishable(a, q, r) by {
        assert(covers(p0, q) && covers(p0, r));
        assert(p0[group_of(p0, q) as int].contains(q));
        assert(p0[group_of(p0, r) as int].contains(r));
        lemma_filter_member(a.states(), is_rejecting(a), q);
        lemma_filter_member(a.states(), is_rejecting(a), r);
        let w = Seq::<char>::empty();
        assert(tells_apart(a, q, r, w));
    }
}

/// Refinement to the end keeps the groups apart.
pub proof fn lemma_settle_separates(a: Automaton, sets: Seq<Seq<usize>>, fuel: nat)
    requires
        a.wf(),
        fits(a, sets),
        total(sets) <= usize::MAX,
        sole(sets),
        separates(a, sets),
    ensures
        sole(settle(a, sets, fuel)),
        separates(a, settle(a, sets, fuel)),
    decreases fuel,
{
    let next = refined(a, sets);
    lemma_refined(a, sets);
    if fuel == 0 || next.len() == sets.len() {
    } else {
        lemma_refined_fits(a, sets);
        lemma_refined_separates(a, sets);
        lemma_settle_separates(a, next, (fuel - 1) as nat);
    }
}

/// States in different groups of the partition that refinement ends with
/// can be told apart, and no state is in two of its groups.
pub proof fn lemma_settled_separates(a: Automaton)
    requires
        a.wf(),
    ensures
        sole(settled(a)),
        separates(a, settled(a)),
{
    lemma_initial_fits(a);
    lemma_initial_total(a);
    lemma_initial_separates(a);
    lemma_settle_separates(a, initial(a), total(initial(a)) + 2);
}

/// States in one group of a stable partition that agrees on accepting
/// cannot be told apart.
pub proof fn lemma_group_alike(
    a: Automaton,
    sets: Seq<Seq<usize>>,
    s: usize,
    t: usize,
    w: Seq<char>,
)
    requires
        a.wf(),
        fits(a, sets),
        consistent(a, sets),
        stable(a, sets),
        a.has_state(s),
        a.has_state(t),
        group_of(sets, s) == group_of(sets, t),
    ensures
        !tells_apart(a, s, t, w),
{
    if a.over_alphabet(w) {
        lemma_quotient_run(a, sets, s, w);
        lemma_quotient_run(a, sets, t, w);
        lemma_quotient_accepting(a, sets, a.run_from(s, w));
        lemma_quotient_accepting(a, sets, a.run_from(t, w));
    }
}

/// Where the new names keep the states apart, every row is kept.
pub proof fn lemma_merged_all(table: Seq<(usize, Seq<(char, usize)>)>, f: spec_fn(usize) -> usize)
    requires
        forall|i: int, j: int|
            0 <= i < j < table.len() ==> f((#[trigger] table[i]).0) != f((#[trigger] table[j]).0),
    ensures
        merged(table, f).len() == table.len(),
    decreases table.len(),
{
    if table.len() > 0 {
        let init = table.drop_last();
        let acc = merged(init, f);
        let s = f(table.last().0);
        assert forall|i: int, j: int| 0 <= i < j < init.len() implies f((#[trigger] init[i]).0)
            != f((#[trigger] init[j]).0) by {
            assert(f(table[i].0) != f(table[j].0));
        }
        lemma_merged_all(init, f);
        lemma_merged(init, f);
        if has_key(acc, s) {
            let k = key_index(acc, s);
            let i = choose|i: int|
                0 <= i < init.len() && #[trigger] acc[k] == (
                    f((#[trigger] init[i]).0),
                    renamed(init[i].1, f),
                );
            assert(f(table[i].0) != f(table[table.len() - 1].0));
        }
    }
}

/// Any two states of the minimal automaton can be told apart: some word
/// leads from the one to an accepting state and from the other to a state
/// that does not accept.
pub proof fn minimal_states_differ(a: Automaton, s: usize, t: usize)
    requires
        a.wf(),
        minimized(a).has_state(s),
        minimized(a).has_state(t),
        s != t,
    ensures
        distinguishable(minimized(a), s, t),
{
    let p = settled(a);
    let f = naming(p);
    let b = minimized(a);
    lemma_settled(a);
    lemma_settled_separates(a);
    lemma_merged(a.table, f);
    let i = key_index(b.table, s);
    let j = key_index(b.table, t);
    let i0 = choose|i0: int|
        0 <= i0 < a.table.len() && #[trigger] b.table[i] == (
            f((#[trigger] a.table[i0]).0),
            renamed(a.table[i0].1, f),
        );
    let j0 = choose|j0: int|
        0 <= j0 < a.table.len() && #[trigger] b.table[j] == (
            f((#[trigger] a.table[j0]).0),
            renamed(a.table[j0].1, f),
        );
    let x = a.table[i0].0;
    let y = a.table[j0].0;
    a.lemma_row(i0);
    a.lemma_row(j0);
    assert(group_of(p, x) != group_of(p, y));
    assert(distinguishable(a, x, y));
    let w = choose|w: Seq<char>| #[trigger] tells_apart(a, x, y, w);
    lemma_quotient_run(a, p, x, w);
    lemma_quotient_run(a, p, y, w);
    lemma_quotient_accepting(a, p, a.run_from(x, w));
    lemma_quotient_accepting(a, p, a.run_from(y, w));
    assert(b.over_alphabet(w)) by {
        assert forall|k: int| 0 <= k < w.len() implies b.has_symbol(#[trigger] w[k]) by {
            lemma_quotient_alphabet(a, p, w[k]);
            assert(a.has_symbol(w[k]));
        }
    }
    assert(tells_apart(b, s, t, w));
}

/// The minimal automaton of a minimal automaton has as many states.
pub proof fn minimal_twice_keeps_size(a: Automaton)
    requires
        a.wf(),
    ensures
        minimized(minimized(a)).table.len() == minimized(a).table.len(),
{
    let b = minimized(a);
    lemma_quotient_wf(a, settled(a));
    let q = settled(b);
    let g = naming(q);
    lemma_settled(b);
    assert forall|i: int, j: int| 0 <= i < j < b.table.len() implies g((#[trigger] b.table[i]).0)
        != g((#[trigger] b.table[j]).0) by {
        let s = b.table[i].0;
        let t = b.table[j].0;
        b.lemma_row(i);
        b.lemma_row(j);
        assert(s != t);
        if g(s) == g(t) {
            minimal_states_differ(a, s, t);
            let w = choose|w: Seq<char>| #[trigger] tells_apart(b, s, t, w);
            lemma_group_alike(b, q, s, t, w);
        }
    }
    lemma_merged_all(b.table, g);
}

} // verus!
