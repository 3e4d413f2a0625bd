//! Partitions of the states of an automaton and their refinement by what
//! the states lead to.

use vstd::prelude::*;
use crate::automaton::Automaton;
use crate::lists::{lemma_filter_drops, lemma_filter_halves, lemma_filter_member};
use crate::table::{distinct, distinct_keys, has_key, key_index, lemma_distinct};

verus! {

/// Whether some group holds the state `q`.
pub open spec fn covers(sets: Seq<Seq<usize>>, q: usize) -> bool {
    exists|i: int| 0 <= i < sets.len() && (#[trigger] sets[i]).contains(q)
}

/// The members of the group `g`, each with the index `i`.
pub open spec fn row_map(g: Seq<usize>, i: usize) -> Map<usize, usize> {
    Map::new(|q: usize| g.contains(q), |q: usize| i)
}

/// The index of its group for each state that a group holds; for a state
/// in several groups, the last of them.
pub open spec fn index_map(sets: Seq<Seq<usize>>) -> Map<usize, usize>
    decreases sets.len(),
{
    if sets.len() == 0 {
        Map::empty()
    } else {
        index_map(sets.drop_last()).union_prefer_right(
            row_map(sets.last(), (sets.len() - 1) as usize),
        )
    }
}

/// The index of the group of `q`.
pub open spec fn group_of(sets: Seq<Seq<usize>>, q: usize) -> usize {
    index_map(sets)[q]
}

/// The number of states in all the groups together.
pub open spec fn total(sets: Seq<Seq<usize>>) -> nat
    decreases sets.len(),
{
    if sets.len() == 0 {
        0
    } else {
        total(sets.drop_last()) + sets.last().len()
    }
}

/// Whether no group is empty.
pub open spec fn no_empty_group(sets: Seq<Seq<usize>>) -> bool {
    forall|i: int| 0 <= i < sets.len() ==> (#[trigger] sets[i]).len() > 0
}

/// Whether the states `q` and `r` lead, on every symbol, into one group.
pub open spec fn alike(a: Automaton, sets: Seq<Seq<usize>>, q: usize, r: usize) -> bool {
    forall|k: int|
        0 <= k < a.alphabet().len() ==> group_of(sets, a.next(q, #[trigger] a.alphabet()[k]))
            == group_of(sets, a.next(r, a.alphabet()[k]))
}

/// Whether the state `o` stays with the state `q` when a group is split.
pub open spec fn stays_with(a: Automaton, sets: Seq<Seq<usize>>, q: usize) -> spec_fn(
    usize,
) -> bool {
    |o: usize| o == q || alike(a, sets, q, o)
}

/// Whether the state `o` leaves the state `q` when a group is split.
pub open spec fn parts_from(a: Automaton, sets: Seq<Seq<usize>>, q: usize) -> spec_fn(
    usize,
) -> bool {
    |o: usize| !(o == q || alike(a, sets, q, o))
}

/// The group `g` split by what its states lead to: the first state with
/// all that stay with it, then the others split in the same way.
pub open spec fn split(a: Automaton, sets: Seq<Seq<usize>>, g: Seq<usize>) -> Seq<Seq<usize>>
    decreases g.len(),
{
    if g.len() == 0 {
        Seq::empty()
    } else {
        proof {
            lemma_filter_drops(g, parts_from(a, sets, g[0]), 0);
        }
        seq![g.filter(stays_with(a, sets, g[0]))] + split(
            a,
            sets,
            g.filter(parts_from(a, sets, g[0])),
        )
    }
}

/// The first `n` groups, each split.
pub open spec fn split_all(a: Automaton, sets: Seq<Seq<usize>>, n: nat) -> Seq<Seq<usize>>
    decreases n,
{
    if n == 0 {
        Seq::empty()
    } else {
        split_all(a, sets, (n - 1) as nat) + split(a, sets, sets[n - 1])
    }
}

/// The partition with every group split by what its states lead to.
pub open spec fn refined(a: Automaton, sets: Seq<Seq<usize>>) -> Seq<Seq<usize>> {
    split_all(a, sets, sets.len())
}

/// Whether a state does not accept.
pub open spec fn is_rejecting(a: Automaton) -> spec_fn(usize) -> bool {
    |s: usize| !a.is_accepting(s)
}

/// The states that do not accept.
pub open spec fn rejecting(a: Automaton) -> Seq<usize> {
    a.states().filter(is_rejecting(a))
}

/// The partition that refinement starts from: the states that do not
/// accept, and those that do.
pub open spec fn initial(a: Automaton) -> Seq<Seq<usize>> {
    seq![rejecting(a), a.accepting]
}

/// The partition refined until a round splits no group, in at most `fuel`
/// rounds.
pub open spec fn settle(a: Automaton, sets: Seq<Seq<usize>>, fuel: nat) -> Seq<Seq<usize>>
    decreases fuel,
{
    let next = refined(a, sets);
    if fuel == 0 || next.len() == sets.len() {
        sets
    } else {
        settle(a, next, (fuel - 1) as nat)
    }
}

/// The partition of the states that refinement ends with. The rounds allowed
/// are more than refinement can take: every round but the first that
/// splits a group leaves more groups, and there are never more groups than
/// states.
pub open spec fn settled(a: Automaton) -> Seq<Seq<usize>> {
    settle(a, initial(a), total(initial(a)) + 2)
}

/// The rows of `table` under new names for the states: each state's row,
/// with its targets renamed, stands under the state's new name, unless an
/// earlier row stands there already.
pub open spec fn merged(table: Seq<(usize, Seq<(char, usize)>)>, f: spec_fn(usize) -> usize) -> Seq<
    (usize, Seq<(char, usize)>),
>
    decreases table.len(),
{
    if table.len() == 0 {
        Seq::empty()
    } else {
        let acc = merged(table.drop_last(), f);
        let s = f(table.last().0);
        if has_key(acc, s) {
            acc
        } else {
            acc.push((s, renamed(table.last().1, f)))
        }
    }
}

/// The transitions of a row with their targets renamed.
pub open spec fn renamed(row: Seq<(char, usize)>, f: spec_fn(usize) -> usize) -> Seq<
    (char, usize),
> {
    Seq::new(row.len(), |j: int| (row[j].0, f(row[j].1)))
}

/// The states renamed.
pub open spec fn images(v: Seq<usize>, f: spec_fn(usize) -> usize) -> Seq<usize> {
    Seq::new(v.len(), |j: int| f(v[j]))
}

/// The new name of each state: the index of its group.
pub open spec fn naming(sets: Seq<Seq<usize>>) -> spec_fn(usize) -> usize {
    |s: usize| group_of(sets, s)
}

/// Whether the partition is one of the states of `a`: every state is in a
/// group, and the groups hold states only.
pub open spec fn fits(a: Automaton, sets: Seq<Seq<usize>>) -> bool {
    &&& sets.len() <= usize::MAX
    &&& forall|q: usize| a.has_state(q) ==> covers(sets, q)
    &&& forall|i: int, q: usize|
        0 <= i < sets.len() && (#[trigger] sets[i].contains(q)) ==> a.has_state(q)
}

/// The automaton whose states are the groups of the partition, each named
/// by its index.
pub open spec fn quotient(a: Automaton, sets: Seq<Seq<usize>>) -> Automaton {
    let f = naming(sets);
    Automaton {
        table: merged(a.table, f),
        start: f(a.start),
        accepting: distinct(images(a.accepting, f)),
    }
}

/// The minimal automaton of `a`: its states are the groups that refinement
/// ends with.
pub open spec fn minimized(a: Automaton) -> Automaton {
    quotient(a, settled(a))
}

/// The index map knows exactly the states that some group holds, and gives
/// each the index of a group that holds it.
pub proof fn lemma_index_map(sets: Seq<Seq<usize>>)
    requires
        sets.len() <= usize::MAX,
    ensures
        forall|q: usize| index_map(sets).dom().contains(q) <==> covers(sets, q),
        forall|q: usize|
            covers(sets, q) ==> 0 <= #[trigger] group_of(sets, q) < sets.len() && sets[group_of(
                sets,
                q,
            ) as int].contains(q),
    decreases sets.len(),
{
    if sets.len() > 0 {
        let init = sets.drop_last();
        lemma_index_map(init);
        assert forall|q: usize| index_map(sets).dom().contains(q) <==> covers(sets, q) by {
            if covers(sets, q) {
                let i = choose|i: int| 0 <= i < sets.len() && (#[trigger] sets[i]).contains(q);
                if i < sets.len() - 1 {
                    assert(init[i].contains(q));
                    assert(covers(init, q));
                }
            }
            if index_map(sets).dom().contains(q) {
                if sets.last().contains(q) {
                    assert(sets[sets.len() - 1].contains(q));
                } else {
                    assert(covers(init, q));
                    let i = choose|i: int| 0 <= i < init.len() && (#[trigger] init[i]).contains(q);
                    assert(sets[i].contains(q));
                }
            }
        }
        assert forall|q: usize| covers(sets, q) implies 0 <= #[trigger] group_of(sets, q)
            < sets.len() && sets[group_of(sets, q) as int].contains(q) by {
            assert(index_map(sets).dom().contains(q));
            if !sets.last().contains(q) {
                assert(covers(init, q));
                assert(init[group_of(init, q) as int].contains(q));
                assert(group_of(sets, q) == group_of(init, q));
            } else {
                assert(row_map(sets.last(), (sets.len() - 1) as usize).dom().contains(q));
                assert(group_of(sets, q) == sets.len() - 1);
            }
        }
    }
}

/// The number of states in two lists of groups, one after the other.
pub proof fn lemma_total_add(x: Seq<Seq<usize>>, y: Seq<Seq<usize>>)
    ensures
        total(x + y) == total(x) + total(y),
    decreases y.len(),
{
    if y.len() == 0 {
        assert(x + y =~= x);
    } else {
        assert((x + y).drop_last() =~= x + y.drop_last());
        lemma_total_add(x, y.drop_last());
    }
}

/// Lists of groups without an empty group, one after the other.
pub proof fn lemma_no_empty_add(x: Seq<Seq<usize>>, y: Seq<Seq<usize>>)
    requires
        no_empty_group(x),
        no_empty_group(y),
    ensures
        no_empty_group(x + y),
{
    assert forall|i: int| 0 <= i < (x + y).len() implies (#[trigger] (x + y)[i]).len() > 0 by {
        if i < x.len() {
            assert((x + y)[i] == x[i]);
        } else {
            assert((x + y)[i] == y[i - x.len()]);
        }
    }
}

/// A state is in two lists of groups, one after the other, where it is in
/// one of them.
pub proof fn lemma_covers_add(x: Seq<Seq<usize>>, y: Seq<Seq<usize>>, q: usize)
    ensures
        covers(x + y, q) <==> covers(x, q) || covers(y, q),
{
    if covers(x, q) {
        let i = choose|i: int| 0 <= i < x.len() && (#[trigger] x[i]).contains(q);
        assert((x + y)[i].contains(q));
    }
    if covers(y, q) {
        let i = choose|i: int| 0 <= i < y.len() && (#[trigger] y[i]).contains(q);
        assert((x + y)[i + x.len()].contains(q));
    }
    if covers(x + y, q) {
        let i = choose|i: int| 0 <= i < (x + y).len() && (#[trigger] (x + y)[i]).contains(q);
        if i < x.len() {
            assert(x[i].contains(q));
        } else {
            assert(y[i - x.len()].contains(q));
        }
    }
}

/// The split of a group holds the states of the group, each group of it at
/// least one, and as many as the group in all.
pub proof fn lemma_split(a: Automaton, sets: Seq<Seq<usize>>, g: Seq<usize>)
    ensures
        total(split(a, sets, g)) == g.len(),
        no_empty_group(split(a, sets, g)),
        g.len() > 0 ==> split(a, sets, g).len() >= 1,
        forall|q: usize| covers(split(a, sets, g), q) <==> g.contains(q),
    decreases g.len(),
{
    if g.len() > 0 {
        let yes = stays_with(a, sets, g[0]);
        let no = parts_from(a, sets, g[0]);
        let first = g.filter(yes);
        let rest = g.filter(no);
        lemma_filter_drops(g, no, 0);
        lemma_filter_halves(g, yes, no);
        lemma_split(a, sets, rest);
        lemma_total_add(seq![first], split(a, sets, rest));
        assert(seq![first].drop_last() =~= Seq::<Seq<usize>>::empty());
        assert(total(seq![first]) == first.len()) by {
            reveal_with_fuel(total, 2);
        }
        lemma_filter_member(g, yes, g[0]);
        assert(g.contains(g[0]));
        assert(first.len() > 0) by {
            let j = choose|j: int| 0 <= j < first.len() && first[j] == g[0];
        }
        assert(no_empty_group(seq![first]));
        lemma_no_empty_add(seq![first], split(a, sets, rest));
        assert forall|q: usize| covers(split(a, sets, g), q) <==> g.contains(q) by {
            lemma_covers_add(seq![first], split(a, sets, rest), q);
            lemma_filter_member(g, yes, q);
            lemma_filter_member(g, no, q);
            if first.contains(q) {
                assert(seq![first][0].contains(q));
            }
            if covers(seq![first], q) {
                let i = choose|i: int|
                    0 <= i < seq![first].len() && (#[trigger] seq![first][i]).contains(q);
                assert(first.contains(q));
            }
        }
    } else {
        assert forall|q: usize| covers(split(a, sets, g), q) <==> g.contains(q) by {}
    }
}

/// A prefix of a list of groups covers what the list covers before its
/// end.
pub proof fn lemma_covers_take(sets: Seq<Seq<usize>>, n: int, q: usize)
    requires
        0 < n <= sets.len(),
    ensures
        covers(sets.take(n), q) <==> covers(sets.take(n - 1), q) || sets[n - 1].contains(q),
{
    if covers(sets.take(n), q) {
        let i = choose|i: int| 0 <= i < n && (#[trigger] sets.take(n)[i]).contains(q);
        if i < n - 1 {
            assert(sets.take(n - 1)[i].contains(q));
        }
    }
    if covers(sets.take(n - 1), q) {
        let i = choose|i: int| 0 <= i < n - 1 && (#[trigger] sets.take(n - 1)[i]).contains(q);
        assert(sets.take(n)[i].contains(q));
    }
    if sets[n - 1].contains(q) {
        assert(sets.take(n)[n - 1].contains(q));
    }
}

/// The first `n` groups, each split, hold the states of those groups, each
/// group at least one, and as many as those groups in all.
pub proof fn lemma_split_all(a: Automaton, sets: Seq<Seq<usize>>, n: nat)
    requires
        n <= sets.len(),
    ensures
        total(split_all(a, sets, n)) == total(sets.take(n as int)),
        no_empty_group(split_all(a, sets, n)),
        no_empty_group(sets) ==> split_all(a, sets, n).len() >= n,
        forall|q: usize| covers(split_all(a, sets, n), q) <==> covers(sets.take(n as int), q),
    decreases n,
{
    if n > 0 {
        let before = split_all(a, sets, (n - 1) as nat);
        let here = split(a, sets, sets[n - 1]);
        lemma_split_all(a, sets, (n - 1) as nat);
        lemma_split(a, sets, sets[n - 1]);
        lemma_total_add(before, here);
        lemma_no_empty_add(before, here);
        assert(sets.take(n as int).drop_last() =~= sets.take(n - 1));
        assert forall|q: usize| covers(split_all(a, sets, n), q) <==> covers(
            sets.take(n as int),
            q,
        ) by {
            lemma_covers_add(before, here, q);
            lemma_covers_take(sets, n as int, q);
        }
    } else {
        assert forall|q: usize| covers(split_all(a, sets, n), q) <==> covers(
            sets.take(n as int),
            q,
        ) by {}
    }
}

/// A list of groups without an empty group has no more groups than states.
pub proof fn lemma_groups_bound(sets: Seq<Seq<usize>>)
    requires
        no_empty_group(sets),
    ensures
        sets.len() <= total(sets),
    decreases sets.len(),
{
    if sets.len() > 0 {
        assert(sets[sets.len() - 1].len() > 0);
        assert forall|i: int| 0 <= i < sets.drop_last().len() implies (
        #[trigger] sets.drop_last()[i]).len() > 0 by {
            assert(sets[i].len() > 0);
        }
        lemma_groups_bound(sets.drop_last());
    }
}

/// Refinement keeps the states, leaves no empty group and loses no group
/// but an empty one.
pub proof fn lemma_refined(a: Automaton, sets: Seq<Seq<usize>>)
    ensures
        total(refined(a, sets)) == total(sets),
        no_empty_group(refined(a, sets)),
        refined(a, sets).len() <= total(sets),
        no_empty_group(sets) ==> refined(a, sets).len() >= sets.len(),
        forall|q: usize| covers(refined(a, sets), q) <==> covers(sets, q),
{
    lemma_split_all(a, sets, sets.len());
    assert(sets.take(sets.len() as int) =~= sets);
    lemma_groups_bound(refined(a, sets));
}

/// Refinement of a partition of the states is a partition of the states.
pub proof fn lemma_refined_fits(a: Automaton, sets: Seq<Seq<usize>>)
    requires
        fits(a, sets),
        total(sets) <= usize::MAX,
    ensures
        fits(a, refined(a, sets)),
{
    lemma_refined(a, sets);
    let r = refined(a, sets);
    assert forall|i: int, q: usize| 0 <= i < r.len() && (#[trigger] r[i].contains(q)) implies a.has_state(
        q,
    ) by {
        assert(covers(r, q));
        assert(covers(sets, q));
        let k = choose|k: int| 0 <= k < sets.len() && (#[trigger] sets[k]).contains(q);
        assert(sets[k].contains(q));
    }
}

/// The partition that refinement starts from is one of the states.
pub proof fn lemma_initial_fits(a: Automaton)
    requires
        a.wf(),
    ensures
        fits(a, initial(a)),
{
    let sets = initial(a);
    assert forall|q: usize| a.has_state(q) implies covers(sets, q) by {
        if a.is_accepting(q) {
            assert(sets[1].contains(q));
        } else {
            let i = key_index(a.table, q);
            assert(a.states()[i] == q);
            assert(a.states().contains(q));
            lemma_filter_member(a.states(), is_rejecting(a), q);
            assert(sets[0].contains(q));
        }
    }
    assert forall|i: int, q: usize| 0 <= i < sets.len() && (#[trigger] sets[i].contains(
        q,
    )) implies a.has_state(q) by {
        if i == 0 {
            lemma_filter_member(a.states(), is_rejecting(a), q);
            let k = choose|k: int| 0 <= k < a.states().len() && a.states()[k] == q;
            assert(a.table[k].0 == q);
        } else {
            let j = choose|j: int| 0 <= j < a.accepting.len() && a.accepting[j] == q;
            assert(a.has_state(a.accepting[j]));
        }
    }
}

/// The renamed rows name no state twice, name every state's new name, and
/// hold renamed rows of the table only.
pub proof fn lemma_merged(table: Seq<(usize, Seq<(char, usize)>)>, f: spec_fn(usize) -> usize)
    ensures
        distinct_keys(merged(table, f)),
        merged(table, f).len() <= table.len(),
        forall|i: int| 0 <= i < table.len() ==> has_key(merged(table, f), f((#[trigger] table[i]).0)),
        forall|k: int|
            0 <= k < merged(table, f).len() ==> exists|i: int|
                0 <= i < table.len() && #[trigger] merged(table, f)[k] == (
                    f((#[trigger] table[i]).0),
                    renamed(table[i].1, f),
                ),
    decreases table.len(),
{
    if table.len() > 0 {
        let init = table.drop_last();
        let acc = merged(init, f);
        let m = merged(table, f);
        let s = f(table.last().0);
        lemma_merged(init, f);
        assert forall|i: int| 0 <= i < table.len() implies has_key(
            m,
            f((#[trigger] table[i]).0),
        ) by {
            if i < init.len() {
                assert(has_key(acc, f(init[i].0)));
                let k = key_index(acc, f(init[i].0));
                assert(m[k].0 == f(table[i].0));
            } else {
                if has_key(acc, s) {
                } else {
                    assert(m[acc.len() as int].0 == s);
                }
            }
        }
        assert forall|k: int| 0 <= k < m.len() implies exists|i: int|
            0 <= i < table.len() && #[trigger] m[k] == (
                f((#[trigger] table[i]).0),
                renamed(table[i].1, f),
            ) by {
            if k < acc.len() {
                let i = choose|i: int|
                    0 <= i < init.len() && #[trigger] acc[k] == (
                        f((#[trigger] init[i]).0),
                        renamed(init[i].1, f),
                    );
                assert(m[k] == (f(table[i].0), renamed(table[i].1, f)));
            } else {
                let i = table.len() - 1;
                assert(m[k] == (f(table[i].0), renamed(table[i].1, f)));
            }
        }
        assert forall|i: int, j: int| 0 <= i < j < m.len() implies (#[trigger] m[i]).0 != (
        #[trigger] m[j]).0 by {
            if j < acc.len() {
                assert(acc[i].0 != acc[j].0);
            } else {
                assert(acc[i].0 != s);
            }
        }
    }
}

/// The automaton of the groups of a partition is an automaton.
pub proof fn lemma_quotient_wf(a: Automaton, sets: Seq<Seq<usize>>)
    requires
        a.wf(),
    ensures
        quotient(a, sets).wf(),
{
    reveal(Automaton::complete);
    reveal(Automaton::closed);
    let f = naming(sets);
    let b = quotient(a, sets);
    let m = b.table;
    lemma_merged(a.table, f);
    lemma_distinct(images(a.accepting, f));
    assert forall|k: int| 0 <= k < m.len() implies distinct_keys((#[trigger] m[k]).1) by {
        let i = choose|i: int|
            0 <= i < a.table.len() && #[trigger] m[k] == (
                f((#[trigger] a.table[i]).0),
                renamed(a.table[i].1, f),
            );
        let row = a.table[i].1;
        assert(distinct_keys(row));
        let r = renamed(row, f);
        assert forall|p: int, q: int| 0 <= p < q < r.len() implies (#[trigger] r[p]).0 != (
        #[trigger] r[q]).0 by {
            assert(row[p].0 != row[q].0);
        }
    }
    assert(b.is_table());
    assert(b.has_state(b.start)) by {
        let i = key_index(a.table, a.start);
        assert(has_key(m, f(a.table[i].0)));
    }
    assert forall|j: int| 0 <= j < b.accepting.len() implies b.has_state(
        #[trigger] b.accepting[j],
    ) by {
        let t = b.accepting[j];
        assert(b.accepting.contains(t));
        assert(images(a.accepting, f).contains(t));
        let k = choose|k: int|
            0 <= k < images(a.accepting, f).len() && images(a.accepting, f)[k] == t;
        assert(a.has_state(a.accepting[k]));
        let i = key_index(a.table, a.accepting[k]);
        assert(has_key(m, f(a.table[i].0)));
    }
    assert forall|i: int, j: int, k: int|
        0 <= i < m.len() && 0 <= j < m[i].1.len() && 0 <= k < m.len() implies has_key(
        (#[trigger] m[k]).1,
        (#[trigger] m[i].1[j]).0,
    ) by {
        let i0 = choose|i0: int|
            0 <= i0 < a.table.len() && #[trigger] m[i] == (
                f((#[trigger] a.table[i0]).0),
                renamed(a.table[i0].1, f),
            );
        let k0 = choose|k0: int|
            0 <= k0 < a.table.len() && #[trigger] m[k] == (
                f((#[trigger] a.table[k0]).0),
                renamed(a.table[k0].1, f),
            );
        let x = a.table[i0].1[j].0;
        assert(m[i].1[j].0 == x);
        assert(has_key(a.table[k0].1, a.table[i0].1[j].0));
        let j0 = key_index(a.table[k0].1, x);
        assert(m[k].1[j0].0 == x);
    }
    assert forall|i: int, j: int| 0 <= i < m.len() && 0 <= j < m[i].1.len() implies b.has_state(
        (#[trigger] m[i].1[j]).1,
    ) by {
        let i0 = choose|i0: int|
            0 <= i0 < a.table.len() && #[trigger] m[i] == (
                f((#[trigger] a.table[i0]).0),
                renamed(a.table[i0].1, f),
            );
        let t = a.table[i0].1[j].1;
        assert(m[i].1[j].1 == f(t));
        assert(a.has_state(a.table[i0].1[j].1));
        let i1 = key_index(a.table, t);
        assert(has_key(m, f(a.table[i1].0)));
    }
}

} // verus!
