//! What simplification keeps: the form it reaches and the language.

use vstd::prelude::*;
use crate::fragment::Fragment;

verus! {

/// Branches that can stand in a simplified alternation give themselves.
proof fn lemma_branches_stay(ps: Seq<Fragment>)
    requires
        forall|i: int| 0 <= i < ps.len() ==> (#[trigger] ps[i]).is_branch(),
    ensures
        Fragment::all_alternatives(ps) == ps,
        !Fragment::has_eps(ps),
    decreases ps.len(),
{
    if ps.len() > 0 {
        lemma_branches_stay(ps.drop_last());
        assert(Fragment::alternatives(ps.last()) == seq![ps.last()]);
        assert(ps.drop_last() + seq![ps.last()] =~= ps);
    } else {
        assert(Fragment::all_alternatives(ps) =~= ps);
    }
}

/// Parts that can stand in a simplified concatenation give themselves.
proof fn lemma_factors_stay(ps: Seq<Fragment>)
    requires
        forall|i: int| 0 <= i < ps.len() ==> (#[trigger] ps[i]).is_factor(),
    ensures
        Fragment::all_factors(ps) == ps,
        !Fragment::has_empty(ps),
    decreases ps.len(),
{
    if ps.len() > 0 {
        lemma_factors_stay(ps.drop_last());
        assert(Fragment::factors(ps.last()) == seq![ps.last()]);
        assert(ps.drop_last() + seq![ps.last()] =~= ps);
    } else {
        assert(Fragment::all_factors(ps) =~= ps);
    }
}

/// Simplification leaves a fragment in normal form as it is.
pub proof fn lemma_normal_is_fixed(r: Fragment)
    requires
        r.normal(),
    ensures
        r.simplified() == r,
    decreases r,
{
    match r {
        Fragment::Group(_) => {},
        Fragment::Empty => {},
        Fragment::Star(x) => {
            lemma_normal_is_fixed(*x);
        },
        Fragment::Optional(x) => {
            lemma_normal_is_fixed(*x);
        },
        Fragment::Alternation(rs) => {
            assert forall|i: int| 0 <= i < rs.len() implies (#[trigger] rs[i]).simplified()
                == rs[i] by {
                lemma_normal_is_fixed(rs[i]);
            }
            assert(Fragment::simplified_each(rs) =~= rs);
            lemma_branches_stay(rs);
        },
        Fragment::Concat(rs) => {
            assert forall|i: int| 0 <= i < rs.len() implies (#[trigger] rs[i]).simplified()
                == rs[i] by {
                lemma_normal_is_fixed(rs[i]);
            }
            assert(Fragment::simplified_each(rs) =~= rs);
            lemma_factors_stay(rs);
        },
    }
}

/// What normal fragments give to an alternation is normal and can stand
/// as its branches.
proof fn lemma_alternatives_normal(ss: Seq<Fragment>)
    requires
        forall|i: int| 0 <= i < ss.len() ==> (#[trigger] ss[i]).normal(),
    ensures
        forall|j: int|
            0 <= j < Fragment::all_alternatives(ss).len() ==> (
            #[trigger] Fragment::all_alternatives(ss)[j]).normal() && Fragment::all_alternatives(
                ss,
            )[j].is_branch(),
    decreases ss.len(),
{
    if ss.len() > 0 {
        lemma_alternatives_normal(ss.drop_last());
        let s = ss.last();
        let head = Fragment::all_alternatives(ss.drop_last());
        let tail = Fragment::alternatives(s);
        assert(s.normal());
        assert forall|j: int| 0 <= j < (head + tail).len() implies (#[trigger] (head + tail)[j]).normal()
            && (head + tail)[j].is_branch() by {
            if j < head.len() {
                assert((head + tail)[j] == head[j]);
            } else {
                let k = j - head.len();
                assert((head + tail)[j] == tail[k]);
                match s {
                    Fragment::Alternation(xs) => {
                        assert(xs[k].normal() && xs[k].is_branch());
                    },
                    _ => {},
                }
            }
        }
    }
}

/// What normal fragments give to a concatenation is normal and can stand
/// as its parts.
proof fn lemma_factors_normal(ss: Seq<Fragment>)
    requires
        forall|i: int| 0 <= i < ss.len() ==> (#[trigger] ss[i]).normal(),
        !Fragment::has_empty(ss),
    ensures
        forall|j: int|
            0 <= j < Fragment::all_factors(ss).len() ==> (#[trigger] Fragment::all_factors(
                ss,
            )[j]).normal() && Fragment::all_factors(ss)[j].is_factor(),
    decreases ss.len(),
{
    if ss.len() > 0 {
        assert(!(ss[ss.len() - 1] is Empty));
        assert forall|i: int| 0 <= i < ss.drop_last().len() implies !(
        #[trigger] ss.drop_last()[i] is Empty) by {
            assert(!(ss[i] is Empty));
        }
        lemma_factors_normal(ss.drop_last());
        let s = ss.last();
        let head = Fragment::all_factors(ss.drop_last());
        let tail = Fragment::factors(s);
        assert(s.normal());
        assert forall|j: int| 0 <= j < (head + tail).len() implies (#[trigger] (head + tail)[j]).normal()
            && (head + tail)[j].is_factor() by {
            if j < head.len() {
                assert((head + tail)[j] == head[j]);
            } else {
                let k = j - head.len();
                assert((head + tail)[j] == tail[k]);
                match s {
                    Fragment::Concat(xs) => {
                        assert(xs[k].normal() && xs[k].is_factor());
                    },
                    _ => {},
                }
            }
        }
    }
}

/// Simplification reaches a normal form.
pub proof fn lemma_simplified_is_normal(r: Fragment)
    ensures
        r.simplified().normal(),
    decreases r,
{
    match r {
        Fragment::Group(_) => {},
        Fragment::Empty => {},
        Fragment::Star(x) => {
            lemma_simplified_is_normal(*x);
        },
        Fragment::Optional(x) => {
            lemma_simplified_is_normal(*x);
        },
        Fragment::Alternation(rs) => {
            let ss = Fragment::simplified_each(rs);
            assert forall|i: int| 0 <= i < ss.len() implies (#[trigger] ss[i]).normal() by {
                lemma_simplified_is_normal(rs[i]);
            }
            lemma_alternatives_normal(ss);
            let ps = Fragment::all_alternatives(ss);
            let u = Fragment::union_of(ps);
            assert(u.normal()) by {
                if ps.len() == 1 {
                    assert(ps[0].normal());
                }
            }
            assert(Fragment::eps().normal()) by {
                reveal_with_fuel(Fragment::normal, 2);
            }
        },
        Fragment::Concat(rs) => {
            let ss = Fragment::simplified_each(rs);
            assert forall|i: int| 0 <= i < ss.len() implies (#[trigger] ss[i]).normal() by {
                lemma_simplified_is_normal(rs[i]);
            }
            if !Fragment::has_empty(ss) {
                lemma_factors_normal(ss);
            }
            let ps = Fragment::all_factors(ss);
            if ps.len() == 1 && !Fragment::has_empty(ss) {
                assert(ps[0].normal());
            }
            assert(Fragment::eps().normal()) by {
                reveal_with_fuel(Fragment::normal, 2);
            }
        },
    }
}

/// Simplifying a simplified fragment changes nothing.
pub proof fn simplify_is_idempotent(r: Fragment)
    ensures
        r.simplified().simplified() == r.simplified(),
{
    lemma_simplified_is_normal(r);
    lemma_normal_is_fixed(r.simplified());
}

} // verus!
