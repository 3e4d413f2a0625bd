//! The language of a fragment: how matching goes with concatenation,
//! closure and simplification.

use vstd::prelude::*;
use crate::fragment::Fragment;

verus! {

/// Whether one of the fragments matches `w`.
pub open spec fn any_matches(ps: Seq<Fragment>, w: Seq<char>) -> bool {
    exists|i: int| 0 <= i < ps.len() && (#[trigger] ps[i]).matches(w)
}

/// Whether one of the fragments matches `w` and is not the empty word.
pub open spec fn any_proper_matches(ps: Seq<Fragment>, w: Seq<char>) -> bool {
    exists|i: int| 0 <= i < ps.len() && (#[trigger] ps[i]).matches(w) && !ps[i].is_eps()
}

/// Whether the fragments `x` and `y` match the same words.
pub open spec fn same_language(x: Fragment, y: Fragment) -> bool {
    forall|u: Seq<char>| #[trigger] x.matches(u) == y.matches(u)
}

/// The empty word is what the fragment of the empty word matches.
pub proof fn lemma_eps(w: Seq<char>)
    ensures
        Fragment::eps().matches(w) == (w.len() == 0),
{
    let e = Fragment::eps();
    if e.matches(w) && w.len() > 0 {
        let k = choose|k: int|
            0 < k <= w.len() && Fragment::Empty.matches(#[trigger] w.take(k)) && e.matches(
                w.skip(k),
            );
        assert(!Fragment::Empty.matches(w.take(k)));
    }
}

/// A chain of one fragment matches what the fragment matches.
pub proof fn lemma_chain_one(x: Fragment, w: Seq<char>)
    ensures
        Fragment::chain_matches(seq![x], w) == x.matches(w),
{
    let rs = seq![x];
    assert(rs.skip(1) =~= Seq::<Fragment>::empty());
    if Fragment::chain_matches(rs, w) {
        let k = choose|k: int|
            0 <= k <= w.len() && rs[0].matches(#[trigger] w.take(k)) && Fragment::chain_matches(
                rs.skip(1),
                w.skip(k),
            );
        assert(w.skip(k).len() == 0);
        assert(w.take(k) =~= w);
    }
    if x.matches(w) {
        let k = w.len() as int;
        assert(w.take(k) =~= w);
        assert(w.skip(k).len() == 0);
        assert(rs[0].matches(w.take(k)) && Fragment::chain_matches(rs.skip(1), w.skip(k)));
    }
}

/// Two chains, one after the other, match two words, one after the other.
pub proof fn lemma_chain_join(a: Seq<Fragment>, b: Seq<Fragment>, u: Seq<char>, v: Seq<char>)
    requires
        Fragment::chain_matches(a, u),
        Fragment::chain_matches(b, v),
    ensures
        Fragment::chain_matches(a + b, u + v),
    decreases a.len(),
{
    if a.len() == 0 {
        assert(a + b =~= b);
        assert(u + v =~= v);
    } else {
        let k = choose|k: int|
            0 <= k <= u.len() && a[0].matches(#[trigger] u.take(k)) && Fragment::chain_matches(
                a.skip(1),
                u.skip(k),
            );
        lemma_chain_join(a.skip(1), b, u.skip(k), v);
        let w = u + v;
        assert((a + b).skip(1) =~= a.skip(1) + b);
        assert(w.take(k) =~= u.take(k));
        assert(w.skip(k) =~= u.skip(k) + v);
        assert((a + b)[0].matches(w.take(k)) && Fragment::chain_matches(
            (a + b).skip(1),
            w.skip(k),
        ));
    }
}

/// A word that two chains, one after the other, match is cut in two words
/// that they match.
pub proof fn lemma_chain_cut(a: Seq<Fragment>, b: Seq<Fragment>, w: Seq<char>) -> (k: int)
    requires
        Fragment::chain_matches(a + b, w),
    ensures
        0 <= k <= w.len(),
        Fragment::chain_matches(a, w.take(k)),
        Fragment::chain_matches(b, w.skip(k)),
    decreases a.len(),
{
    if a.len() == 0 {
        assert(a + b =~= b);
        assert(w.skip(0) =~= w);
        0
    } else {
        let ab = a + b;
        let k1 = choose|k1: int|
            0 <= k1 <= w.len() && ab[0].matches(#[trigger] w.take(k1)) && Fragment::chain_matches(
                ab.skip(1),
                w.skip(k1),
            );
        assert(ab.skip(1) =~= a.skip(1) + b);
        let k2 = lemma_chain_cut(a.skip(1), b, w.skip(k1));
        let k = k1 + k2;
        let u = w.take(k);
        assert(u.take(k1) =~= w.take(k1));
        assert(u.skip(k1) =~= w.skip(k1).take(k2));
        assert(w.skip(k) =~= w.skip(k1).skip(k2));
        assert(a[0].matches(u.take(k1)) && Fragment::chain_matches(a.skip(1), u.skip(k1)));
        k
    }
}

/// Chains of fragments that match the same words, place by place, match
/// the same words.
pub proof fn lemma_chain_same(rs: Seq<Fragment>, ss: Seq<Fragment>, w: Seq<char>)
    requires
        rs.len() == ss.len(),
        forall|i: int| 0 <= i < rs.len() ==> same_language(#[trigger] rs[i], ss[i]),
    ensures
        Fragment::chain_matches(rs, w) == Fragment::chain_matches(ss, w),
    decreases rs.len(),
{
    if rs.len() > 0 {
        assert(same_language(rs[0], ss[0]));
        assert forall|i: int| 0 <= i < rs.skip(1).len() implies same_language(
            #[trigger] rs.skip(1)[i],
            ss.skip(1)[i],
        ) by {
            assert(same_language(rs[i + 1], ss[i + 1]));
        }
        if Fragment::chain_matches(rs, w) {
            let k = choose|k: int|
                0 <= k <= w.len() && rs[0].matches(#[trigger] w.take(k))
                    && Fragment::chain_matches(rs.skip(1), w.skip(k));
            lemma_chain_same(rs.skip(1), ss.skip(1), w.skip(k));
            assert(rs[0].matches(w.take(k)) == ss[0].matches(w.take(k)));
            assert(ss[0].matches(w.take(k)) && Fragment::chain_matches(ss.skip(1), w.skip(k)));
        }
        if Fragment::chain_matches(ss, w) {
            let k = choose|k: int|
                0 <= k <= w.len() && ss[0].matches(#[trigger] w.take(k))
                    && Fragment::chain_matches(ss.skip(1), w.skip(k));
            lemma_chain_same(rs.skip(1), ss.skip(1), w.skip(k));
            assert(rs[0].matches(w.take(k)) == ss[0].matches(w.take(k)));
            assert(rs[0].matches(w.take(k)) && Fragment::chain_matches(rs.skip(1), w.skip(k)));
        }
    }
}

/// A chain with the empty language in it matches nothing.
pub proof fn lemma_chain_empty(ps: Seq<Fragment>, w: Seq<char>)
    requires
        Fragment::has_empty(ps),
    ensures
        !Fragment::chain_matches(ps, w),
    decreases ps.len(),
{
    let i = choose|i: int| 0 <= i < ps.len() && (#[trigger] ps[i]) is Empty;
    if Fragment::chain_matches(ps, w) {
        let k = choose|k: int|
            0 <= k <= w.len() && ps[0].matches(#[trigger] w.take(k)) && Fragment::chain_matches(
                ps.skip(1),
                w.skip(k),
            );
        assert(i > 0);
        assert(ps.skip(1)[i - 1] is Empty);
        lemma_chain_empty(ps.skip(1), w.skip(k));
    }
}

/// A closure matches a word that the fragment matches followed by a word
/// that the closure matches.
pub proof fn lemma_star_push_front(x: Fragment, u: Seq<char>, v: Seq<char>)
    requires
        x.matches(u),
        Fragment::Star(Box::new(x)).matches(v),
    ensures
        Fragment::Star(Box::new(x)).matches(u + v),
{
    let w = u + v;
    if u.len() == 0 {
        assert(w =~= v);
    } else {
        let k = u.len() as int;
        assert(w.take(k) =~= u);
        assert(w.skip(k) =~= v);
        assert(0 < k <= w.len() && x.matches(w.take(k)) && Fragment::Star(Box::new(x)).matches(
            w.skip(k),
        ));
    }
}

/// A closure matches two words that it matches, one after the other.
pub proof fn lemma_star_join(x: Fragment, u: Seq<char>, v: Seq<char>)
    requires
        Fragment::Star(Box::new(x)).matches(u),
        Fragment::Star(Box::new(x)).matches(v),
    ensures
        Fragment::Star(Box::new(x)).matches(u + v),
    decreases u.len(),
{
    if u.len() == 0 {
        assert(u + v =~= v);
    } else {
        let s = Fragment::Star(Box::new(x));
        let k = choose|k: int|
            0 < k <= u.len() && x.matches(#[trigger] u.take(k)) && s.matches(u.skip(k));
        lemma_star_join(x, u.skip(k), v);
        lemma_star_push_front(x, u.take(k), u.skip(k) + v);
        assert(u.take(k) + (u.skip(k) + v) =~= u + v);
    }
}

/// A closure matches what the fragment matches.
pub proof fn lemma_star_one(x: Fragment, u: Seq<char>)
    requires
        x.matches(u),
    ensures
        Fragment::Star(Box::new(x)).matches(u),
{
    lemma_star_push_front(x, u, Seq::empty());
    assert(u + Seq::<char>::empty() =~= u);
}

/// The closures of fragments that match the same words match the same
/// words.
pub proof fn lemma_star_same(x: Fragment, y: Fragment, w: Seq<char>)
    requires
        same_language(x, y),
    ensures
        Fragment::Star(Box::new(x)).matches(w) == Fragment::Star(Box::new(y)).matches(w),
    decreases w.len(),
{
    let sx = Fragment::Star(Box::new(x));
    let sy = Fragment::Star(Box::new(y));
    if w.len() > 0 {
        if sx.matches(w) {
            let k = choose|k: int|
                0 < k <= w.len() && x.matches(#[trigger] w.take(k)) && sx.matches(w.skip(k));
            lemma_star_same(x, y, w.skip(k));
            assert(x.matches(w.take(k)) == y.matches(w.take(k)));
            assert(0 < k <= w.len() && y.matches(w.take(k)) && sy.matches(w.skip(k)));
        }
        if sy.matches(w) {
            let k = choose|k: int|
                0 < k <= w.len() && y.matches(#[trigger] w.take(k)) && sy.matches(w.skip(k));
            lemma_star_same(x, y, w.skip(k));
            assert(x.matches(w.take(k)) == y.matches(w.take(k)));
            assert(0 < k <= w.len() && x.matches(w.take(k)) && sx.matches(w.skip(k)));
        }
    }
}

/// The closure of a closure matches what the closure matches.
pub proof fn lemma_star_star(y: Fragment, w: Seq<char>)
    ensures
        Fragment::Star(Box::new(Fragment::Star(Box::new(y)))).matches(w) == Fragment::Star(
            Box::new(y),
        ).matches(w),
    decreases w.len(),
{
    let s = Fragment::Star(Box::new(y));
    let ss = Fragment::Star(Box::new(s));
    if w.len() > 0 {
        if ss.matches(w) {
            let k = choose|k: int|
                0 < k <= w.len() && s.matches(#[trigger] w.take(k)) && ss.matches(w.skip(k));
            lemma_star_star(y, w.skip(k));
            lemma_star_join(y, w.take(k), w.skip(k));
            assert(w.take(k) + w.skip(k) =~= w);
        }
        if s.matches(w) {
            lemma_star_one(s, w);
        }
    }
}

/// The closure that simplification makes of `s` matches what the closure
/// of `s` matches.
pub proof fn lemma_star_of(s: Fragment, w: Seq<char>)
    ensures
        Fragment::star_of(s).matches(w) == Fragment::Star(Box::new(s)).matches(w),
{
    match s {
        Fragment::Star(y) => {
            lemma_star_star(*y, w);
        },
        _ => {},
    }
}

/// The option that simplification makes of `s` matches the empty word and
/// what `s` matches.
pub proof fn lemma_optional_of(s: Fragment, w: Seq<char>)
    ensures
        Fragment::optional_of(s).matches(w) == (w.len() == 0 || s.matches(w)),
{
}

/// One of two lists of fragments, one after the other, matches where one
/// of either list does.
pub proof fn lemma_any_add(a: Seq<Fragment>, b: Seq<Fragment>, w: Seq<char>)
    ensures
        any_matches(a + b, w) == (any_matches(a, w) || any_matches(b, w)),
{
    if any_matches(a, w) {
        let i = choose|i: int| 0 <= i < a.len() && (#[trigger] a[i]).matches(w);
        assert((a + b)[i].matches(w));
    }
    if any_matches(b, w) {
        let i = choose|i: int| 0 <= i < b.len() && (#[trigger] b[i]).matches(w);
        assert((a + b)[i + a.len()].matches(w));
    }
    if any_matches(a + b, w) {
        let i = choose|i: int| 0 <= i < (a + b).len() && (#[trigger] (a + b)[i]).matches(w);
        if i < a.len() {
            assert(a[i].matches(w));
        } else {
            assert(b[i - a.len()].matches(w));
        }
    }
}

/// What a simplified branch gives to its alternation matches what the
/// branch matches, unless the branch is the empty word.
pub proof fn lemma_alternatives(s: Fragment, w: Seq<char>)
    ensures
        any_matches(Fragment::alternatives(s), w) == (s.matches(w) && !s.is_eps()),
{
    let ps = Fragment::alternatives(s);
    match s {
        Fragment::Alternation(xs) => {},
        Fragment::Empty => {},
        _ => {
            if !s.is_eps() {
                if s.matches(w) {
                    assert(ps[0].matches(w));
                }
            }
        },
    }
}

/// What simplified branches give together matches what one of them
/// matches that is not the empty word.
pub proof fn lemma_all_alternatives(ss: Seq<Fragment>, w: Seq<char>)
    ensures
        any_matches(Fragment::all_alternatives(ss), w) == any_proper_matches(ss, w),
    decreases ss.len(),
{
    if ss.len() > 0 {
        let init = ss.drop_last();
        lemma_all_alternatives(init, w);
        lemma_alternatives(ss.last(), w);
        lemma_any_add(Fragment::all_alternatives(init), Fragment::alternatives(ss.last()), w);
        if any_proper_matches(init, w) {
            let i = choose|i: int|
                0 <= i < init.len() && (#[trigger] init[i]).matches(w) && !init[i].is_eps();
            assert(ss[i].matches(w) && !ss[i].is_eps());
        }
        if ss.last().matches(w) && !ss.last().is_eps() {
            assert(ss[ss.len() - 1].matches(w));
        }
        if any_proper_matches(ss, w) {
            let i = choose|i: int|
                0 <= i < ss.len() && (#[trigger] ss[i]).matches(w) && !ss[i].is_eps();
            if i < ss.len() - 1 {
                assert(init[i].matches(w) && !init[i].is_eps());
            }
        }
    }
}

/// The symbols of the groups together are the symbols of each.
pub proof fn lemma_group_symbols(ps: Seq<Fragment>, c: char)
    ensures
        Fragment::group_symbols(ps).contains(c) <==> exists|i: int|
            0 <= i < ps.len() && (#[trigger] ps[i]).symbols().contains(c),
    decreases ps.len(),
{
    if ps.len() > 0 {
        let init = ps.drop_last();
        let head = Fragment::group_symbols(init);
        let tail = ps.last().symbols();
        lemma_group_symbols(init, c);
        if (head + tail).contains(c) {
            let j = choose|j: int| 0 <= j < (head + tail).len() && (head + tail)[j] == c;
            if j < head.len() {
                assert(head[j] == c);
                assert(head.contains(c));
                let i = choose|i: int|
                    0 <= i < init.len() && (#[trigger] init[i]).symbols().contains(c);
                assert(ps[i].symbols().contains(c));
            } else {
                assert(tail[j - head.len()] == c);
                assert(ps[ps.len() - 1].symbols().contains(c));
            }
        }
        if exists|i: int| 0 <= i < ps.len() && (#[trigger] ps[i]).symbols().contains(c) {
            let i = choose|i: int| 0 <= i < ps.len() && (#[trigger] ps[i]).symbols().contains(c);
            if i < ps.len() - 1 {
                assert(init[i].symbols().contains(c));
                assert(head.contains(c));
                let j = choose|j: int| 0 <= j < head.len() && head[j] == c;
                assert((head + tail)[j] == c);
            } else {
                let j = choose|j: int| 0 <= j < tail.len() && tail[j] == c;
                assert((head + tail)[head.len() + j] == c);
            }
        }
    }
}

/// The alternation of flattened branches matches what one of them
/// matches.
pub proof fn lemma_union_of(ps: Seq<Fragment>, w: Seq<char>)
    ensures
        Fragment::union_of(ps).matches(w) == any_matches(ps, w),
{
    let u = Fragment::union_of(ps);
    if ps.len() == 0 {
        assert(!any_matches(ps, w));
    } else if ps.len() == 1 {
        if ps[0].matches(w) {
            assert(any_matches(ps, w));
        }
        if any_matches(ps, w) {
            let i = choose|i: int| 0 <= i < ps.len() && (#[trigger] ps[i]).matches(w);
            assert(i == 0);
        }
    } else if Fragment::all_groups(ps) {
        let gs = Fragment::group_symbols(ps);
        assert(u == Fragment::Group(gs));
        assert(u.matches(w) == (w.len() == 1 && gs.contains(w[0])));
        if any_matches(ps, w) {
            let i = choose|i: int| 0 <= i < ps.len() && (#[trigger] ps[i]).matches(w);
            assert(ps[i] is Group);
            assert(w.len() == 1);
            assert(ps[i].symbols().contains(w[0]));
            lemma_group_symbols(ps, w[0]);
            assert(u.matches(w));
        }
        if u.matches(w) {
            lemma_group_symbols(ps, w[0]);
            let i = choose|i: int|
                0 <= i < ps.len() && (#[trigger] ps[i]).symbols().contains(w[0]);
            assert(ps[i] is Group);
            assert(ps[i].matches(w));
            assert(any_matches(ps, w));
        }
    } else {
        assert(u == Fragment::Alternation(ps));
        assert(u->Alternation_0 == ps);
        if any_matches(ps, w) {
            let i = choose|i: int| 0 <= i < ps.len() && (#[trigger] ps[i]).matches(w);
            assert(u.matches(w));
        }
        if u.matches(w) {
            let i = choose|i: int| 0 <= i < ps.len() && (#[trigger] ps[i]).matches(w);
            assert(any_matches(ps, w));
        }
    }
}

/// The simplified alternation of simplified branches matches what one of
/// them matches.
pub proof fn lemma_alternation_of(ss: Seq<Fragment>, w: Seq<char>)
    ensures
        Fragment::alternation_of(ss).matches(w) == any_matches(ss, w),
{
    let ps = Fragment::all_alternatives(ss);
    lemma_all_alternatives(ss, w);
    lemma_union_of(ps, w);
    lemma_optional_of(Fragment::union_of(ps), w);
    lemma_eps(w);
    if any_matches(ss, w) {
        let i = choose|i: int| 0 <= i < ss.len() && (#[trigger] ss[i]).matches(w);
        if ss[i].is_eps() {
            lemma_eps(w);
            assert(Fragment::has_eps(ss));
        } else {
            assert(any_proper_matches(ss, w));
        }
    }
    if any_proper_matches(ss, w) {
        let i = choose|i: int|
            0 <= i < ss.len() && (#[trigger] ss[i]).matches(w) && !ss[i].is_eps();
        assert(any_matches(ss, w));
    }
    if Fragment::has_eps(ss) && w.len() == 0 {
        let i = choose|i: int| 0 <= i < ss.len() && (#[trigger] ss[i]).is_eps();
        assert(ss[i].matches(w));
    }
    if !any_matches(ps, w) && ps.len() == 0 {
    }
}

/// What a simplified part gives to its concatenation matches, as a chain,
/// what the part matches.
pub proof fn lemma_factors(s: Fragment, w: Seq<char>)
    ensures
        Fragment::chain_matches(Fragment::factors(s), w) == s.matches(w),
{
    match s {
        Fragment::Concat(xs) => {},
        _ => {
            if s.is_eps() {
                lemma_eps(w);
            } else {
                lemma_chain_one(s, w);
            }
        },
    }
}

/// What simplified parts give together matches, as a chain, what the
/// chain of the parts matches.
pub proof fn lemma_all_factors(ss: Seq<Fragment>, w: Seq<char>)
    ensures
        Fragment::chain_matches(Fragment::all_factors(ss), w) == Fragment::chain_matches(ss, w),
    decreases ss.len(),
{
    if ss.len() > 0 {
        let init = ss.drop_last();
        let last = ss.last();
        let head = Fragment::all_factors(init);
        let tail = Fragment::factors(last);
        assert(init + seq![last] =~= ss);
        if Fragment::chain_matches(head + tail, w) {
            let k = lemma_chain_cut(head, tail, w);
            lemma_all_factors(init, w.take(k));
            lemma_factors(last, w.skip(k));
            lemma_chain_one(last, w.skip(k));
            lemma_chain_join(init, seq![last], w.take(k), w.skip(k));
            assert(w.take(k) + w.skip(k) =~= w);
        }
        if Fragment::chain_matches(ss, w) {
            let k = lemma_chain_cut(init, seq![last], w);
            lemma_all_factors(init, w.take(k));
            lemma_chain_one(last, w.skip(k));
            lemma_factors(last, w.skip(k));
            lemma_chain_join(head, tail, w.take(k), w.skip(k));
            assert(w.take(k) + w.skip(k) =~= w);
        }
    }
}

/// The simplified concatenation of simplified parts matches what the
/// chain of the parts matches.
pub proof fn lemma_concat_of(ss: Seq<Fragment>, w: Seq<char>)
    ensures
        Fragment::concat_of(ss).matches(w) == Fragment::chain_matches(ss, w),
{
    if Fragment::has_empty(ss) {
        lemma_chain_empty(ss, w);
    } else {
        let ps = Fragment::all_factors(ss);
        lemma_all_factors(ss, w);
        if ps.len() == 0 {
            lemma_eps(w);
        } else if ps.len() == 1 {
            assert(ps =~= seq![ps[0]]);
            lemma_chain_one(ps[0], w);
        }
    }
}

/// Simplification keeps the language: the simplified fragment matches
/// exactly what the fragment matches.
pub proof fn simplify_keeps_language(r: Fragment, w: Seq<char>)
    ensures
        r.simplified().matches(w) == r.matches(w),
    decreases r,
{
    match r {
        Fragment::Group(_) => {},
        Fragment::Empty => {},
        Fragment::Star(x) => {
            assert(same_language(x.simplified(), *x)) by {
                assert forall|u: Seq<char>| #[trigger]
                    x.simplified().matches(u) == x.matches(u) by {
                    simplify_keeps_language(*x, u);
                }
            }
            lemma_star_of(x.simplified(), w);
            lemma_star_same(x.simplified(), *x, w);
        },
        Fragment::Optional(x) => {
            simplify_keeps_language(*x, w);
            lemma_optional_of(x.simplified(), w);
        },
        Fragment::Alternation(rs) => {
            let ss = Fragment::simplified_each(rs);
            lemma_alternation_of(ss, w);
            if any_matches(ss, w) {
                let i = choose|i: int| 0 <= i < ss.len() && (#[trigger] ss[i]).matches(w);
                simplify_keeps_language(rs[i], w);
                assert(rs[i].matches(w));
            }
            if r.matches(w) {
                let i = choose|i: int| 0 <= i < rs.len() && (#[trigger] rs[i]).matches(w);
                simplify_keeps_language(rs[i], w);
                assert(ss[i].matches(w));
            }
        },
        Fragment::Concat(rs) => {
            let ss = Fragment::simplified_each(rs);
            lemma_concat_of(ss, w);
            assert forall|i: int| 0 <= i < ss.len() implies same_language(
                #[trigger] ss[i],
                rs[i],
            ) by {
                assert forall|u: Seq<char>| #[trigger] ss[i].matches(u) == rs[i].matches(u) by {
                    simplify_keeps_language(rs[i], u);
                }
            }
            lemma_chain_same(ss, rs, w);
        },
    }
}

} // verus!
