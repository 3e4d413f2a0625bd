//! Regular-expression fragments and their algebraic simplification.

use vstd::prelude::*;
use crate::engine::{compile, compiled, MatcherError};
use crate::fragment::Fragment;
use crate::language::simplify_keeps_language;
use crate::simplification::{lemma_simplified_is_normal, simplify_is_idempotent};
use crate::text::{push_char, text_of};

verus! {

/// A regular-expression fragment.
#[derive(Debug, PartialEq, Eq)]
pub enum Re {
    /// Exactly one symbol, drawn from the listed ones.
    Group(Vec<char>),
    /// The empty language: it matches nothing, not even the empty word.
    Empty,
    /// Zero or more repetitions.
    Star(Box<Re>),
    /// Zero or one occurrence.
    Optional(Box<Re>),
    /// Any one of the branches.
    Alternation(Vec<Re>),
    /// The parts one after another.
    Concat(Vec<Re>),
}

impl Re {
    /// The mathematical tree that this fragment stands for.
    pub open spec fn model(&self) -> Fragment
        decreases self,
    {
        match self {
            Re::Group(cs) => Fragment::Group(cs@),
            Re::Empty => Fragment::Empty,
            Re::Star(r) => Fragment::Star(Box::new(r.model())),
            Re::Optional(r) => Fragment::Optional(Box::new(r.model())),
            Re::Alternation(rs) => Fragment::Alternation(
                Seq::new(
                    rs.len() as nat,
                    |i: int|
                        if 0 <= i < rs.len() {
                            rs[i].model()
                        } else {
                            Fragment::Empty
                        },
                ),
            ),
            Re::Concat(rs) => Fragment::Concat(
                Seq::new(
                    rs.len() as nat,
                    |i: int|
                        if 0 <= i < rs.len() {
                            rs[i].model()
                        } else {
                            Fragment::Empty
                        },
                ),
            ),
        }
    }

    /// The trees that a list of fragments stands for, in order.
    pub open spec fn models(rs: Seq<Re>) -> Seq<Fragment> {
        Seq::new(rs.len(), |i: int| rs[i]@)
    }

    /// An alternation stands for the alternation of its branches' trees.
    pub proof fn lemma_alternation_model(rs: Vec<Re>)
        ensures
            Re::Alternation(rs)@ == Fragment::Alternation(Re::models(rs@)),
    {
        assert(Re::Alternation(rs)@->Alternation_0 =~= Re::models(rs@));
    }

    /// A concatenation stands for the concatenation of its parts' trees.
    pub proof fn lemma_concat_model(rs: Vec<Re>)
        ensures
            Re::Concat(rs)@ == Fragment::Concat(Re::models(rs@)),
    {
        assert(Re::Concat(rs)@->Concat_0 =~= Re::models(rs@));
    }

    /// The trees of a list with one more fragment at its end.
    pub proof fn lemma_models_push(rs: Seq<Re>, r: Re)
        ensures
            Re::models(rs.push(r)) == Re::models(rs).push(r@),
    {
        assert(Re::models(rs.push(r)) =~= Re::models(rs).push(r@));
    }

    /// The trees of two lists, one after the other.
    pub proof fn lemma_models_add(a: Seq<Re>, b: Seq<Re>)
        ensures
            Re::models(a + b) == Re::models(a) + Re::models(b),
    {
        assert(Re::models(a + b) =~= Re::models(a) + Re::models(b));
    }

    /// The closure of `r`.
    pub fn star(r: Re) -> (s: Re)
        ensures
            s@ == Fragment::Star(Box::new(r@)),
    {
        Re::Star(Box::new(r))
    }

    /// The fragment that matches the empty word and nothing else.
    pub fn eps() -> (s: Re)
        ensures
            s@ == Fragment::eps(),
    {
        Re::star(Re::Empty)
    }

    /// Adds `r` as one more branch: to the branches of an alternation, or
    /// beside any other fragment in a new alternation of the two.
    pub fn add_or(&mut self, r: Re)
        ensures
            final(self)@ == old(self)@.or(r@),
    {
        let mut held = Re::Empty;
        std::mem::swap(self, &mut held);
        match held {
            Re::Alternation(v) => {
                let mut v = v;
                let ghost before = v;
                v.push(r);
                proof {
                    Re::lemma_alternation_model(before);
                    Re::lemma_alternation_model(v);
                    Re::lemma_models_push(before@, r);
                }
                *self = Re::Alternation(v);
            },
            other => {
                let mut v: Vec<Re> = Vec::new();
                v.push(other);
                v.push(r);
                proof {
                    Re::lemma_alternation_model(v);
                    assert(Re::models(v@) =~= seq![other@, r@]);
                }
                *self = Re::Alternation(v);
            },
        }
    }

    /// One group of all the symbols, where every fragment of the list is a
    /// group.
    fn literal_group(rs: &Vec<Re>) -> (g: Option<Re>)
        ensures
            g is Some <==> Fragment::all_groups(Re::models(rs@)),
            g matches Some(r) ==> r@ == Fragment::Group(
                Fragment::group_symbols(Re::models(rs@)),
            ),
    {
        let mut new_cs: Vec<char> = Vec::new();
        let mut i: usize = 0;
        while i < rs.len()
            invariant
                i <= rs.len(),
                Fragment::all_groups(Re::models(rs@).take(i as int)),
                new_cs@ == Fragment::group_symbols(Re::models(rs@).take(i as int)),
            decreases rs.len() - i,
        {
            let ghost ms = Re::models(rs@);
            match &rs[i] {
                Re::Group(cs) => {
                    let mut more = cs.clone();
                    assert(more@ =~= cs@);
                    new_cs.append(&mut more);
                    proof {
                        assert(ms.take(i + 1).drop_last() =~= ms.take(i as int));
                        assert(ms.take(i + 1).last() == rs[i as int]@);
                    }
                },
                _ => {
                    proof {
                        assert(!(ms[i as int] is Group));
                    }
                    return None;
                },
            }
            i += 1;
        }
        assert(Re::models(rs@).take(i as int) =~= Re::models(rs@));
        Some(Re::Group(new_cs))
    }

    /// The alternation of flattened branches.
    fn union_of(ps: Vec<Re>) -> (r: Re)
        ensures
            r@ == Fragment::union_of(Re::models(ps@)),
    {
        let mut ps = ps;
        if ps.len() == 0 {
            Re::Empty
        } else if ps.len() == 1 {
            let r = ps.remove(0);
            r
        } else {
            match Re::literal_group(&ps) {
                Some(g) => g,
                None => {
                    proof {
                        Re::lemma_alternation_model(ps);
                    }
                    Re::Alternation(ps)
                },
            }
        }
    }

    /// Simplifies each branch of an alternation and flattens the results;
    /// says beside them whether a branch was the empty word.
    fn simplify_branches(rs: &Vec<Re>) -> (out: (Vec<Re>, bool))
        ensures
            Re::models(out.0@) == Fragment::all_alternatives(
                Fragment::simplified_each(Re::models(rs@)),
            ),
            out.1 == Fragment::has_eps(Fragment::simplified_each(Re::models(rs@))),
        decreases rs,
    {
        let ghost ss = Fragment::simplified_each(Re::models(rs@));
        let mut new_rs: Vec<Re> = Vec::new();
        let mut has_empty = false;
        let mut i: usize = 0;
        while i < rs.len()
            invariant
                i <= rs.len(),
                ss == Fragment::simplified_each(Re::models(rs@)),
                Re::models(new_rs@) == Fragment::all_alternatives(ss.take(i as int)),
                has_empty == Fragment::has_eps(ss.take(i as int)),
            decreases rs.len() - i,
        {
            let s = rs[i].simplify_tree();
            let ghost before = new_rs@;
            proof {
                assert(ss.take(i + 1).drop_last() =~= ss.take(i as int));
                assert(ss.take(i + 1).last() == s@);
                assert(Fragment::has_eps(ss.take(i + 1)) == (Fragment::has_eps(ss.take(i as int))
                    || s@.is_eps())) by {
                    if Fragment::has_eps(ss.take(i as int)) {
                        let j = choose|j: int|
                            0 <= j < ss.take(i as int).len() && (#[trigger] ss.take(
                                i as int,
                            )[j]).is_eps();
                        assert(ss.take(i + 1)[j].is_eps());
                    }
                    if s@.is_eps() {
                        assert(ss.take(i + 1)[i as int].is_eps());
                    }
                    if Fragment::has_eps(ss.take(i + 1)) {
                        let j = choose|j: int|
                            0 <= j < ss.take(i + 1).len() && (#[trigger] ss.take(i + 1)[j]).is_eps();
                        if j < i {
                            assert(ss.take(i as int)[j].is_eps());
                        }
                    }
                }
            }
            match s {
                Re::Alternation(xs) => {
                    let mut xs = xs;
                    proof {
                        Re::lemma_alternation_model(xs);
                        Re::lemma_models_add(before, xs@);
                    }
                    new_rs.append(&mut xs);
                },
                Re::Star(b) => {
                    let is_eps = match &*b {
                        Re::Empty => true,
                        _ => false,
                    };
                    proof {
                        assert(s@ == Fragment::Star(Box::new(b@)));
                        assert(b@ is Empty <==> is_eps);
                    }
                    if is_eps {
                        has_empty = true;
                        assert(Fragment::alternatives(s@) =~= Seq::empty());
                        assert(Re::models(before) + Seq::<Fragment>::empty() =~= Re::models(before));
                    } else {
                        proof {
                            Re::lemma_models_push(before, s);
                            assert(Re::models(before).push(s@) =~= Re::models(before) + seq![s@]);
                        }
                        new_rs.push(Re::Star(b));
                    }
                },
                Re::Empty => {
                    assert(Re::models(before) + Seq::<Fragment>::empty() =~= Re::models(before));
                },
                other => {
                    proof {
                        Re::lemma_models_push(before, other);
                        assert(Re::models(before).push(s@) =~= Re::models(before) + seq![s@]);
                    }
                    new_rs.push(other);
                },
            }
            i += 1;
        }
        assert(ss.take(i as int) =~= ss);
        (new_rs, has_empty)
    }

    /// Simplifies each part of a concatenation and flattens the results;
    /// nothing where a part is the empty language.
    fn simplify_parts(rs: &Vec<Re>) -> (out: Option<Vec<Re>>)
        ensures
            out is None <==> Fragment::has_empty(Fragment::simplified_each(Re::models(rs@))),
            out matches Some(ps) ==> Re::models(ps@) == Fragment::all_factors(
                Fragment::simplified_each(Re::models(rs@)),
            ),
        decreases rs,
    {
        let ghost ss = Fragment::simplified_each(Re::models(rs@));
        let mut new_rs: Vec<Re> = Vec::new();
        let mut i: usize = 0;
        while i < rs.len()
            invariant
                i <= rs.len(),
                ss == Fragment::simplified_each(Re::models(rs@)),
                Re::models(new_rs@) == Fragment::all_factors(ss.take(i as int)),
                !Fragment::has_empty(ss.take(i as int)),
            decreases rs.len() - i,
        {
            let s = rs[i].simplify_tree();
            let ghost before = new_rs@;
            proof {
                assert(ss.take(i + 1).drop_last() =~= ss.take(i as int));
                assert(ss.take(i + 1).last() == s@);
                assert(ss[i as int] == s@);
                if !(s@ is Empty) && Fragment::has_empty(ss.take(i + 1)) {
                    let j = choose|j: int|
                        0 <= j < ss.take(i + 1).len() && (#[trigger] ss.take(i + 1)[j]) is Empty;
                    assert(ss.take(i as int)[j] is Empty);
                }
            }
            match s {
                Re::Concat(xs) => {
                    let mut xs = xs;
                    proof {
                        Re::lemma_concat_model(xs);
                        Re::lemma_models_add(before, xs@);
                    }
                    new_rs.append(&mut xs);
                },
                Re::Star(b) => {
                    let is_eps = match &*b {
                        Re::Empty => true,
                        _ => false,
                    };
                    proof {
                        assert(s@ == Fragment::Star(Box::new(b@)));
                        assert(b@ is Empty <==> is_eps);
                    }
                    if is_eps {
                        assert(Fragment::factors(s@) =~= Seq::empty());
                        assert(Re::models(before) + Seq::<Fragment>::empty() =~= Re::models(before));
                    } else {
                        proof {
                            Re::lemma_models_push(before, s);
                            assert(Re::models(before).push(s@) =~= Re::models(before) + seq![s@]);
                        }
                        new_rs.push(Re::Star(b));
                    }
                },
                Re::Empty => {
                    return None;
                },
                other => {
                    proof {
                        Re::lemma_models_push(before, other);
                        assert(Re::models(before).push(s@) =~= Re::models(before) + seq![s@]);
                    }
                    new_rs.push(other);
                },
            }
            i += 1;
        }
        assert(ss.take(i as int) =~= ss);
        Some(new_rs)
    }

    /// The simplified form of the fragment: closures and options are not
    /// nested in themselves, alternations and concatenations are flat and
    /// hold neither their neutral nor their absorbing element. It matches
    /// what the fragment matches, and simplifying it again changes nothing.
    pub fn simplify(&self) -> (r: Re)
        ensures
            r@ == self@.simplified(),
            r@.normal(),
            r@.simplified() == r@,
            forall|w: Seq<char>| r@.matches(w) == self@.matches(w),
    {
        let r = self.simplify_tree();
        proof {
            lemma_simplified_is_normal(self@);
            simplify_is_idempotent(self@);
            assert forall|w: Seq<char>| r@.matches(w) == self@.matches(w) by {
                simplify_keeps_language(self@, w);
            }
        }
        r
    }

    /// The simplified form of the fragment, branch by branch.
    fn simplify_tree(&self) -> (r: Re)
        ensures
            r@ == self@.simplified(),
        decreases self,
    {
        match self {
            Re::Group(_) => self.clone(),
            Re::Empty => Re::Empty,
            Re::Star(x) => {
                match x.simplify_tree() {
                    Re::Star(y) => Re::Star(y),
                    s => Re::Star(Box::new(s)),
                }
            },
            Re::Optional(x) => {
                match x.simplify_tree() {
                    Re::Optional(y) => Re::Optional(y),
                    s => Re::Optional(Box::new(s)),
                }
            },
            Re::Alternation(rs) => {
                proof {
                    Re::lemma_alternation_model(*rs);
                }
                let (ps, has_empty) = Re::simplify_branches(rs);
                if !has_empty {
                    Re::union_of(ps)
                } else if ps.len() == 0 {
                    Re::eps()
                } else {
                    match Re::union_of(ps) {
                        Re::Optional(y) => Re::Optional(y),
                        s => Re::Optional(Box::new(s)),
                    }
                }
            },
            Re::Concat(rs) => {
                proof {
                    Re::lemma_concat_model(*rs);
                }
                match Re::simplify_parts(rs) {
                    None => Re::Empty,
                    Some(ps) => {
                        let mut ps = ps;
                        if ps.len() == 0 {
                            Re::eps()
                        } else if ps.len() == 1 {
                            let r = ps.remove(0);
                            r
                        } else {
                            proof {
                                Re::lemma_concat_model(ps);
                            }
                            Re::Concat(ps)
                        }
                    },
                }
            },
        }
    }

    /// The pattern texts of the fragments with `sep` between them.
    fn join_syntax(rs: &Vec<Re>, sep: &str) -> (s: String)
        requires
            forall|i: int| 0 <= i < rs.len() ==> (#[trigger] Re::models(rs@)[i]).printable(),
        ensures
            s@ == Fragment::joined(Re::models(rs@), sep@),
        decreases rs,
    {
        let ghost ms = Re::models(rs@);
        let mut s = String::new();
        let mut i: usize = 0;
        while i < rs.len()
            invariant
                i <= rs.len(),
                ms == Re::models(rs@),
                forall|j: int| 0 <= j < rs.len() ==> (#[trigger] ms[j]).printable(),
                s@ == Fragment::joined(ms.take(i as int), sep@),
            decreases rs.len() - i,
        {
            if i > 0 {
                s.append(sep);
            }
            assert(ms[i as int].printable());
            let part = rs[i].to_re_syntax();
            s.append(part.as_str());
            proof {
                assert(ms.take(i + 1).drop_last() =~= ms.take(i as int));
                assert(ms.take(i + 1).last() == rs[i as int]@);
                if i == 0 {
                    assert(s@ =~= part@);
                }
            }
            i += 1;
        }
        assert(ms.take(i as int) =~= ms);
        s
    }

    /// The text `s` of `n` terms, inside a non-capturing group where there
    /// is more than one term.
    fn grouped(n: usize, s: String) -> (g: String)
        ensures
            g@ == Fragment::grouped(n as nat, s@),
    {
        if n > 1 {
            let mut g = String::new();
            push_char(&mut g, '(');
            push_char(&mut g, '?');
            push_char(&mut g, ':');
            g.append(s.as_str());
            push_char(&mut g, ')');
            assert(g@ =~= Fragment::grouped(n as nat, s@));
            g
        } else {
            s
        }
    }

    /// The pattern text of the fragment.
    pub fn to_re_syntax(&self) -> (s: String)
        requires
            self@.printable(),
        ensures
            s@ == self@.syntax(),
        decreases self,
    {
        match self {
            Re::Group(cs) => {
                if cs.len() == 1 {
                    text_of(cs)
                } else {
                    let mut s = String::new();
                    push_char(&mut s, '[');
                    let inner = text_of(cs);
                    s.append(inner.as_str());
                    push_char(&mut s, ']');
                    assert(s@ =~= seq!['['] + cs@ + seq![']']);
                    s
                }
            },
            Re::Empty => String::new(),
            Re::Star(r) => {
                match &**r {
                    Re::Empty => String::new(),
                    _ => {
                        let mut s = r.to_re_syntax();
                        push_char(&mut s, '*');
                        s
                    },
                }
            },
            Re::Optional(r) => {
                let mut s = r.to_re_syntax();
                push_char(&mut s, '?');
                s
            },
            Re::Alternation(rs) => {
                proof {
                    Re::lemma_alternation_model(*rs);
                    assert(self@ == Fragment::Alternation(Re::models(rs@)));
                    assert(Fragment::Alternation(Re::models(rs@))->Alternation_0 == Re::models(rs@));
                    reveal_strlit("|");
                    assert("|"@ =~= seq!['|']);
                }
                let inner = Re::join_syntax(rs, "|");
                Re::grouped(rs.len(), inner)
            },
            Re::Concat(rs) => {
                proof {
                    Re::lemma_concat_model(*rs);
                    assert(self@ == Fragment::Concat(Re::models(rs@)));
                    assert(Fragment::Concat(Re::models(rs@))->Concat_0 == Re::models(rs@));
                    reveal_strlit("");
                    assert(""@ =~= Seq::<char>::empty());
                }
                let inner = Re::join_syntax(rs, "");
                Re::grouped(rs.len(), inner)
            },
        }
    }

    /// Whether every fragment of the list has a pattern text.
    fn all_printable(rs: &Vec<Re>) -> (b: bool)
        ensures
            b == (forall|i: int| 0 <= i < rs.len() ==> (#[trigger] Re::models(rs@)[i]).printable()),
        decreases rs,
    {
        let mut i: usize = 0;
        while i < rs.len()
            invariant
                i <= rs.len(),
                forall|j: int| 0 <= j < i ==> (#[trigger] Re::models(rs@)[j]).printable(),
            decreases rs.len() - i,
        {
            if !rs[i].is_printable() {
                assert(!Re::models(rs@)[i as int].printable());
                return false;
            }
            i += 1;
        }
        true
    }

    /// Whether the fragment has a pattern text: the empty language has
    /// none, except right under a closure.
    pub fn is_printable(&self) -> (b: bool)
        ensures
            b == self@.printable(),
        decreases self,
    {
        match self {
            Re::Group(_) => true,
            Re::Empty => false,
            Re::Star(r) => {
                match &**r {
                    Re::Empty => true,
                    _ => r.is_printable(),
                }
            },
            Re::Optional(r) => r.is_printable(),
            Re::Alternation(rs) => {
                proof {
                    Re::lemma_alternation_model(*rs);
                    assert(Fragment::Alternation(Re::models(rs@))->Alternation_0 == Re::models(rs@));
                }
                Re::all_printable(rs)
            },
            Re::Concat(rs) => {
                proof {
                    Re::lemma_concat_model(*rs);
                    assert(Fragment::Concat(Re::models(rs@))->Concat_0 == Re::models(rs@));
                }
                Re::all_printable(rs)
            },
        }
    }

    /// The pattern text between the anchors of start and end.
    pub fn pattern(&self) -> (s: String)
        requires
            self@.printable(),
        ensures
            s@ == self@.anchored(),
    {
        let mut s = String::new();
        push_char(&mut s, '^');
        let inner = self.to_re_syntax();
        s.append(inner.as_str());
        push_char(&mut s, '$');
        assert(s@ =~= self@.anchored());
        s
    }

    /// The matcher for whole inputs that the engine compiles from the
    /// anchored pattern text. Exactly where the fragment has no pattern
    /// text, the library refuses with `NoText`; where it has one, the
    /// engine decides, and its refusal comes back as `Refused`.
    pub fn regex(&self) -> (m: Result<regex::Regex, MatcherError>)
        ensures
            m matches Err(MatcherError::NoText) <==> !self@.printable(),
    {
        if self.is_printable() {
            let text = self.pattern();
            compiled(compile(text.as_str()))
        } else {
            Err(MatcherError::NoText)
        }
    }

    /// Copies a list of fragments.
    fn clone_all(rs: &Vec<Re>) -> (out: Vec<Re>)
        ensures
            Re::models(out@) == Re::models(rs@),
        decreases rs,
    {
        let mut out: Vec<Re> = Vec::new();
        let mut i: usize = 0;
        while i < rs.len()
            invariant
                i <= rs.len(),
                out.len() == i,
                forall|j: int| 0 <= j < i ==> out[j]@ == rs[j]@,
            decreases rs.len() - i,
        {
            out.push(rs[i].clone());
            i += 1;
        }
        assert(Re::models(out@) =~= Re::models(rs@));
        out
    }
}

impl View for Re {
    type V = Fragment;

    open spec fn view(&self) -> Fragment {
        self.model()
    }
}

impl Clone for Re {
    fn clone(&self) -> (r: Re)
        ensures
            r@ == self@,
        decreases self,
    {
        match self {
            Re::Group(cs) => {
                let c = cs.clone();
                assert(c@ =~= cs@);
                Re::Group(c)
            },
            Re::Empty => Re::Empty,
            Re::Star(r) => Re::Star(Box::new((**r).clone())),
            Re::Optional(r) => Re::Optional(Box::new((**r).clone())),
            Re::Alternation(rs) => {
                let out = Re::clone_all(rs);
                proof {
                    Re::lemma_alternation_model(out);
                    Re::lemma_alternation_model(*rs);
                }
                Re::Alternation(out)
            },
            Re::Concat(rs) => {
                let out = Re::clone_all(rs);
                proof {
                    Re::lemma_concat_model(out);
                    Re::lemma_concat_model(*rs);
                }
                Re::Concat(out)
            },
        }
    }
}

} // verus!
