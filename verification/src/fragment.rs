//! The mathematical model of a regular-expression fragment and its language.

use vstd::prelude::*;

verus! {

/// A regular-expression fragment as a mathematical tree.
pub ghost enum Fragment {
    /// Exactly one symbol, drawn from the listed ones.
    Group(Seq<char>),
    /// The empty language.
    Empty,
    /// Zero or more repetitions.
    Star(Box<Fragment>),
    /// Zero or one occurrence.
    Optional(Box<Fragment>),
    /// Any one of the branches.
    Alternation(Seq<Fragment>),
    /// The branches one after another.
    Concat(Seq<Fragment>),
}

impl Fragment {
    /// The fragment that matches the empty word and nothing else.
    pub open spec fn eps() -> Fragment {
        Fragment::Star(Box::new(Fragment::Empty))
    }

    /// Whether the fragment matches the word `w`, all of it.
    pub open spec fn matches(self, w: Seq<char>) -> bool
        decreases self, w.len(), 0nat,
    {
        match self {
            Fragment::Group(cs) => w.len() == 1 && cs.contains(w[0]),
            Fragment::Empty => false,
            Fragment::Star(x) => w.len() == 0 || exists|k: int|
                0 < k <= w.len() && x.matches(#[trigger] w.take(k)) && self.matches(w.skip(k)),
            Fragment::Optional(x) => w.len() == 0 || x.matches(w),
            Fragment::Alternation(rs) => exists|i: int|
                0 <= i < rs.len() && (#[trigger] rs[i]).matches(w),
            Fragment::Concat(rs) => Self::chain_matches(rs, w),
        }
    }

    /// Whether `w` splits into consecutive pieces that the fragments of `rs`
    /// match in order.
    pub open spec fn chain_matches(rs: Seq<Fragment>, w: Seq<char>) -> bool
        decreases rs, w.len(), rs.len(),
    {
        if rs.len() == 0 {
            w.len() == 0
        } else {
            exists|k: int|
                0 <= k <= w.len() && rs[0].matches(#[trigger] w.take(k)) && Self::chain_matches(
                    rs.skip(1),
                    w.skip(k),
                )
        }
    }

    /// Whether this is the fragment `eps()`.
    pub open spec fn is_eps(self) -> bool {
        self == Fragment::eps()
    }

    /// The closure of an already simplified fragment: a closure is not
    /// closed again.
    pub open spec fn star_of(s: Fragment) -> Fragment {
        if s is Star {
            s
        } else {
            Fragment::Star(Box::new(s))
        }
    }

    /// The option of an already simplified fragment: an option is not
    /// made optional again.
    pub open spec fn optional_of(s: Fragment) -> Fragment {
        if s is Optional {
            s
        } else {
            Fragment::Optional(Box::new(s))
        }
    }

    /// The branches that one simplified branch gives to the alternation
    /// around it: a nested alternation gives its own branches, the empty
    /// language and the empty word give none.
    pub open spec fn alternatives(s: Fragment) -> Seq<Fragment> {
        match s {
            Fragment::Alternation(xs) => xs,
            Fragment::Empty => Seq::empty(),
            _ => if s.is_eps() {
                Seq::empty()
            } else {
                seq![s]
            },
        }
    }

    /// The branches that simplified branches give together, in order.
    pub open spec fn all_alternatives(ss: Seq<Fragment>) -> Seq<Fragment>
        decreases ss.len(),
    {
        if ss.len() == 0 {
            Seq::empty()
        } else {
            Self::all_alternatives(ss.drop_last()) + Self::alternatives(ss.last())
        }
    }

    /// Whether one of the fragments is the empty word.
    pub open spec fn has_eps(ss: Seq<Fragment>) -> bool {
        exists|i: int| 0 <= i < ss.len() && (#[trigger] ss[i]).is_eps()
    }

    /// Whether one of the fragments is the empty language.
    pub open spec fn has_empty(ss: Seq<Fragment>) -> bool {
        exists|i: int| 0 <= i < ss.len() && (#[trigger] ss[i]) is Empty
    }

    /// Whether every fragment is a symbol group.
    pub open spec fn all_groups(ps: Seq<Fragment>) -> bool {
        forall|i: int| 0 <= i < ps.len() ==> (#[trigger] ps[i]) is Group
    }

    /// The symbols of a fragment that is a group; none for another fragment.
    pub open spec fn symbols(self) -> Seq<char> {
        match self {
            Fragment::Group(cs) => cs,
            _ => Seq::empty(),
        }
    }

    /// The symbols of all the groups among the fragments, in order.
    pub open spec fn group_symbols(ps: Seq<Fragment>) -> Seq<char>
        decreases ps.len(),
    {
        if ps.len() == 0 {
            Seq::empty()
        } else {
            Self::group_symbols(ps.drop_last()) + ps.last().symbols()
        }
    }

    /// The alternation of branches that are already flattened: none is the
    /// empty language, one is itself, groups merge into one group.
    pub open spec fn union_of(ps: Seq<Fragment>) -> Fragment {
        if ps.len() == 0 {
            Fragment::Empty
        } else if ps.len() == 1 {
            ps[0]
        } else if Self::all_groups(ps) {
            Fragment::Group(Self::group_symbols(ps))
        } else {
            Fragment::Alternation(ps)
        }
    }

    /// The simplified alternation of simplified branches.
    pub open spec fn alternation_of(ss: Seq<Fragment>) -> Fragment {
        let ps = Self::all_alternatives(ss);
        if !Self::has_eps(ss) {
            Self::union_of(ps)
        } else if ps.len() == 0 {
            Fragment::eps()
        } else {
            Self::optional_of(Self::union_of(ps))
        }
    }

    /// The parts that one simplified part gives to the concatenation around
    /// it: a nested concatenation gives its own parts, the empty word none.
    pub open spec fn factors(s: Fragment) -> Seq<Fragment> {
        match s {
            Fragment::Concat(xs) => xs,
            _ => if s.is_eps() {
                Seq::empty()
            } else {
                seq![s]
            },
        }
    }

    /// The parts that simplified parts give together, in order.
    pub open spec fn all_factors(ss: Seq<Fragment>) -> Seq<Fragment>
        decreases ss.len(),
    {
        if ss.len() == 0 {
            Seq::empty()
        } else {
            Self::all_factors(ss.drop_last()) + Self::factors(ss.last())
        }
    }

    /// The concatenation of parts that are already flattened.
    pub open spec fn product_of(ps: Seq<Fragment>) -> Fragment {
        if ps.len() == 0 {
            Fragment::eps()
        } else if ps.len() == 1 {
            ps[0]
        } else {
            Fragment::Concat(ps)
        }
    }

    /// The simplified concatenation of simplified parts.
    pub open spec fn concat_of(ss: Seq<Fragment>) -> Fragment {
        if Self::has_empty(ss) {
            Fragment::Empty
        } else {
            Self::product_of(Self::all_factors(ss))
        }
    }

    /// The simplified form of each fragment, in order.
    pub open spec fn simplified_each(rs: Seq<Fragment>) -> Seq<Fragment>
        decreases rs,
    {
        Seq::new(
            rs.len(),
            |i: int|
                if 0 <= i < rs.len() {
                    rs[i].simplified()
                } else {
                    Fragment::Empty
                },
        )
    }

    /// The simplified form of the fragment.
    pub open spec fn simplified(self) -> Fragment
        decreases self,
    {
        match self {
            Fragment::Group(_) => self,
            Fragment::Empty => self,
            Fragment::Star(x) => Self::star_of(x.simplified()),
            Fragment::Optional(x) => Self::optional_of(x.simplified()),
            Fragment::Alternation(rs) => Self::alternation_of(Self::simplified_each(rs)),
            Fragment::Concat(rs) => Self::concat_of(Self::simplified_each(rs)),
        }
    }

    /// The alternation of this fragment and one more branch: a fragment
    /// that is an alternation already takes the branch at its end.
    pub open spec fn or(self, r: Fragment) -> Fragment {
        match self {
            Fragment::Alternation(xs) => Fragment::Alternation(xs.push(r)),
            _ => Fragment::Alternation(seq![self, r]),
        }
    }

    /// Whether the fragment can stand as a branch of a simplified
    /// alternation.
    pub open spec fn is_branch(self) -> bool {
        !(self is Alternation) && !(self is Empty) && !self.is_eps()
    }

    /// Whether the fragment can stand as a part of a simplified
    /// concatenation.
    pub open spec fn is_factor(self) -> bool {
        !(self is Concat) && !(self is Empty) && !self.is_eps()
    }

    /// Whether no simplification applies anywhere in the fragment.
    pub open spec fn normal(self) -> bool
        decreases self,
    {
        match self {
            Fragment::Group(_) => true,
            Fragment::Empty => true,
            Fragment::Star(x) => x.normal() && !(*x is Star),
            Fragment::Optional(x) => x.normal() && !(*x is Optional),
            Fragment::Alternation(rs) => rs.len() >= 2 && !Self::all_groups(rs) && forall|i: int|
                0 <= i < rs.len() ==> (#[trigger] rs[i]).normal() && rs[i].is_branch(),
            Fragment::Concat(rs) => rs.len() >= 2 && forall|i: int|
                0 <= i < rs.len() ==> (#[trigger] rs[i]).normal() && rs[i].is_factor(),
        }
    }

    /// Whether the fragment has a pattern text: the empty language has
    /// none, except right under a closure.
    pub open spec fn printable(self) -> bool
        decreases self,
    {
        match self {
            Fragment::Group(_) => true,
            Fragment::Empty => false,
            Fragment::Star(x) => *x is Empty || x.printable(),
            Fragment::Optional(x) => x.printable(),
            Fragment::Alternation(rs) => forall|i: int|
                0 <= i < rs.len() ==> (#[trigger] rs[i]).printable(),
            Fragment::Concat(rs) => forall|i: int|
                0 <= i < rs.len() ==> (#[trigger] rs[i]).printable(),
        }
    }

    /// The text `s` of `n` terms, inside a non-capturing group where there
    /// is more than one term.
    pub open spec fn grouped(n: nat, s: Seq<char>) -> Seq<char> {
        if n > 1 {
            seq!['(', '?', ':'] + s + seq![')']
        } else {
            s
        }
    }

    /// The pattern texts of the fragments with `sep` between them.
    pub open spec fn joined(rs: Seq<Fragment>, sep: Seq<char>) -> Seq<char>
        decreases rs,
    {
        if rs.len() == 0 {
            Seq::empty()
        } else if rs.len() == 1 {
            rs[0].syntax()
        } else {
            Self::joined(rs.drop_last(), sep) + sep + rs.last().syntax()
        }
    }

    /// The pattern text of the fragment: a group of one symbol is the
    /// symbol, any other group a bracketed class; a closure ends in `*`, an
    /// option in `?`; the branches of an alternation stand with `|` between
    /// them, the parts of a concatenation side by side.
    pub open spec fn syntax(self) -> Seq<char>
        decreases self,
    {
        match self {
            Fragment::Group(cs) => if cs.len() == 1 {
                cs
            } else {
                seq!['['] + cs + seq![']']
            },
            Fragment::Empty => Seq::empty(),
            Fragment::Star(x) => if *x is Empty {
                Seq::empty()
            } else {
                x.syntax() + seq!['*']
            },
            Fragment::Optional(x) => x.syntax() + seq!['?'],
            Fragment::Alternation(rs) => Self::grouped(rs.len(), Self::joined(rs, seq!['|'])),
            Fragment::Concat(rs) => Self::grouped(rs.len(), Self::joined(rs, Seq::empty())),
        }
    }

    /// The pattern text between the anchors of start and end, so that it
    /// matches whole inputs only.
    pub open spec fn anchored(self) -> Seq<char> {
        seq!['^'] + self.syntax() + seq!['$']
    }
}

} // verus!
