//! Regular expressions with literal symbols, their flattening and their
//! pattern text.

use vstd::prelude::*;
use crate::text::{push_char, text_of};

verus! {

/// A regular expression with literal symbols, as a mathematical tree.
pub ghost enum Pattern {
    /// The one symbol.
    Literal(char),
    /// Exactly one symbol, drawn from the listed ones.
    Group(Seq<char>),
    /// The empty language.
    Empty,
    /// Zero or more repetitions.
    Star(Box<Pattern>),
    /// Any one of the branches.
    Alternation(Seq<Pattern>),
    /// The branches one after another.
    Concat(Seq<Pattern>),
}

impl Pattern {
    /// The pattern of the empty word.
    pub open spec fn eps() -> Pattern {
        Pattern::Star(Box::new(Pattern::Empty))
    }

    /// The alternation of this pattern and one more branch: a pattern that
    /// is an alternation already takes the branch at its end.
    pub open spec fn or(self, r: Pattern) -> Pattern {
        match self {
            Pattern::Alternation(xs) => Pattern::Alternation(xs.push(r)),
            _ => Pattern::Alternation(seq![self, r]),
        }
    }

    /// The branches that one flattened branch gives to the alternation
    /// around it.
    pub open spec fn alternatives(s: Pattern) -> Seq<Pattern> {
        match s {
            Pattern::Alternation(xs) => xs,
            _ => seq![s],
        }
    }

    /// The branches that flattened branches give together, in order.
    pub open spec fn all_alternatives(ss: Seq<Pattern>) -> Seq<Pattern>
        decreases ss.len(),
    {
        if ss.len() == 0 {
            Seq::empty()
        } else {
            Self::all_alternatives(ss.drop_last()) + Self::alternatives(ss.last())
        }
    }

    /// The parts that one flattened part gives to the concatenation around
    /// it.
    pub open spec fn factors(s: Pattern) -> Seq<Pattern> {
        match s {
            Pattern::Concat(xs) => xs,
            _ => seq![s],
        }
    }

    /// The parts that flattened parts give together, in order.
    pub open spec fn all_factors(ss: Seq<Pattern>) -> Seq<Pattern>
        decreases ss.len(),
    {
        if ss.len() == 0 {
            Seq::empty()
        } else {
            Self::all_factors(ss.drop_last()) + Self::factors(ss.last())
        }
    }

    /// Whether every pattern is a literal.
    pub open spec fn all_literals(ps: Seq<Pattern>) -> bool {
        forall|i: int| 0 <= i < ps.len() ==> (#[trigger] ps[i]) is Literal
    }

    /// The symbols of the literals, in order.
    pub open spec fn literal_symbols(ps: Seq<Pattern>) -> Seq<char> {
        Seq::new(ps.len(), |i: int| ps[i]->Literal_0)
    }

    /// The flattened form of each pattern, in order.
    pub open spec fn simplified_each(rs: Seq<Pattern>) -> Seq<Pattern>
        decreases rs,
    {
        Seq::new(
            rs.len(),
            |i: int|
                if 0 <= i < rs.len() {
                    rs[i].simplified()
                } else {
                    Pattern::Empty
                },
        )
    }

    /// The flattened form of the pattern: an alternation without branches
    /// is the empty language, a concatenation without parts the empty
    /// word; one of a single term is that term, flattened; in a longer one
    /// the terms are flattened and nested ones of the same kind give their
    /// terms; an alternation of literals then is one group.
    pub open spec fn simplified(self) -> Pattern
        decreases self,
    {
        match self {
            Pattern::Literal(_) => self,
            Pattern::Group(_) => self,
            Pattern::Empty => self,
            Pattern::Star(x) => Pattern::Star(Box::new(x.simplified())),
            Pattern::Alternation(rs) => if rs.len() == 0 {
                Pattern::Empty
            } else if rs.len() == 1 {
                rs[0].simplified()
            } else {
                let ps = Self::all_alternatives(Self::simplified_each(rs));
                if Self::all_literals(ps) {
                    Pattern::Group(Self::literal_symbols(ps))
                } else {
                    Pattern::Alternation(ps)
                }
            },
            Pattern::Concat(rs) => if rs.len() == 0 {
                Pattern::eps()
            } else if rs.len() == 1 {
                rs[0].simplified()
            } else {
                Pattern::Concat(Self::all_factors(Self::simplified_each(rs)))
            },
        }
    }

    /// Whether the pattern has a text: the empty language has none, except
    /// right under a closure.
    pub open spec fn printable(self) -> bool
        decreases self,
    {
        match self {
            Pattern::Literal(_) => true,
            Pattern::Group(_) => true,
            Pattern::Empty => false,
            Pattern::Star(x) => *x is Empty || x.printable(),
            Pattern::Alternation(rs) => forall|i: int|
                0 <= i < rs.len() ==> (#[trigger] rs[i]).printable(),
            Pattern::Concat(rs) => forall|i: int|
                0 <= i < rs.len() ==> (#[trigger] rs[i]).printable(),
        }
    }

    /// The text `s` of `n` terms, inside a non-capturing group where there
    /// is more than one term.
    pub open spec fn paren(n: nat, s: Seq<char>) -> Seq<char> {
        if n > 1 {
            seq!['(', '?', ':'] + s + seq![')']
        } else {
            s
        }
    }

    /// The texts of the patterns with `sep` between them.
    pub open spec fn joined(rs: Seq<Pattern>, sep: Seq<char>) -> Seq<char>
        decreases rs,
    {
        if rs.len() == 0 {
            Seq::empty()
        } else if rs.len() == 1 {
            rs[0].text()
        } else {
            Self::joined(rs.drop_last(), sep) + sep + rs.last().text()
        }
    }

    /// The text of the pattern: a literal is its symbol, a group a
    /// bracketed class; a closure ends in `*`; the branches of an
    /// alternation stand with `|` between them, the parts of a
    /// concatenation side by side, each inside a non-capturing group where
    /// there is more than one term.
    pub open spec fn text(self) -> Seq<char>
        decreases self,
    {
        match self {
            Pattern::Literal(c) => seq![c],
            Pattern::Group(cs) => seq!['['] + cs + seq![']'],
            Pattern::Empty => Seq::empty(),
            Pattern::Star(x) => if *x is Empty {
                Seq::empty()
            } else {
                x.text() + seq!['*']
            },
            Pattern::Alternation(rs) => Self::paren(rs.len(), Self::joined(rs, seq!['|'])),
            Pattern::Concat(rs) => Self::paren(rs.len(), Self::joined(rs, Seq::empty())),
        }
    }
}

/// A regular expression with literal symbols.
#[derive(Debug)]
pub enum LiteralRegex {
    /// The one symbol.
    Literal(char),
    /// Exactly one symbol, drawn from the listed ones.
    Group(Vec<char>),
    /// The empty language.
    Empty,
    /// Zero or more repetitions.
    Star(Box<LiteralRegex>),
    /// Any one of the branches.
    Alternation(Vec<LiteralRegex>),
    /// The parts one after another.
    Concat(Vec<LiteralRegex>),
}

impl View for LiteralRegex {
    type V = Pattern;

    open spec fn view(&self) -> Pattern {
        self.model()
    }
}

impl Clone for LiteralRegex {
    fn clone(&self) -> (r: LiteralRegex)
        ensures
            r@ == self@,
        decreases self,
    {
        match self {
            LiteralRegex::Literal(c) => LiteralRegex::Literal(*c),
            LiteralRegex::Group(cs) => {
                let c = cs.clone();
                assert(c@ =~= cs@);
                LiteralRegex::Group(c)
            },
            LiteralRegex::Empty => LiteralRegex::Empty,
            LiteralRegex::Star(r) => LiteralRegex::Star(Box::new((**r).clone())),
            LiteralRegex::Alternation(rs) => {
                let out = LiteralRegex::clone_all(rs);
                proof {
                    LiteralRegex::lemma_alternation_model(out);
                    LiteralRegex::lemma_alternation_model(*rs);
                }
                LiteralRegex::Alternation(out)
            },
            LiteralRegex::Concat(rs) => {
                let out = LiteralRegex::clone_all(rs);
                proof {
                    LiteralRegex::lemma_concat_model(out);
                    LiteralRegex::lemma_concat_model(*rs);
                }
                LiteralRegex::Concat(out)
            },
        }
    }
}

impl LiteralRegex {
    /// The mathematical tree that this expression stands for.
    pub open spec fn model(&self) -> Pattern
        decreases self,
    {
        match self {
            LiteralRegex::Literal(c) => Pattern::Literal(*c),
            LiteralRegex::Group(cs) => Pattern::Group(cs@),
            LiteralRegex::Empty => Pattern::Empty,
            LiteralRegex::Star(r) => Pattern::Star(Box::new(r.model())),
            LiteralRegex::Alternation(rs) => Pattern::Alternation(
                Seq::new(
                    rs.len() as nat,
                    |i: int|
                        if 0 <= i < rs.len() {
                            rs[i].model()
                        } else {
                            Pattern::Empty
                        },
                ),
            ),
            LiteralRegex::Concat(rs) => Pattern::Concat(
                Seq::new(
                    rs.len() as nat,
                    |i: int|
                        if 0 <= i < rs.len() {
                            rs[i].model()
                        } else {
                            Pattern::Empty
                        },
                ),
            ),
        }
    }

    /// The trees that a list of expressions stands for, in order.
    pub open spec fn models(rs: Seq<LiteralRegex>) -> Seq<Pattern> {
        Seq::new(rs.len(), |i: int| rs[i]@)
    }

    /// An alternation stands for the alternation of its branches' trees.
    pub proof fn lemma_alternation_model(rs: Vec<LiteralRegex>)
        ensures
            LiteralRegex::Alternation(rs)@ == Pattern::Alternation(LiteralRegex::models(rs@)),
    {
        assert(LiteralRegex::Alternation(rs)@->Alternation_0 =~= LiteralRegex::models(rs@));
    }

    /// A concatenation stands for the concatenation of its parts' trees.
    pub proof fn lemma_concat_model(rs: Vec<LiteralRegex>)
        ensures
            LiteralRegex::Concat(rs)@ == Pattern::Concat(LiteralRegex::models(rs@)),
    {
        assert(LiteralRegex::Concat(rs)@->Concat_0 =~= LiteralRegex::models(rs@));
    }

    /// Copies a list of expressions.
    fn clone_all(rs: &Vec<LiteralRegex>) -> (out: Vec<LiteralRegex>)
        ensures
            LiteralRegex::models(out@) == LiteralRegex::models(rs@),
        decreases rs,
    {
        let mut out: Vec<LiteralRegex> = Vec::new();
        let mut i: usize = 0;
        while i < rs.len()
            invariant
                i <= rs.len(),
                out.len() == i,
                forall|j: int| 0 <= j < i ==> out[j]@ == rs[j]@,
            decreases rs.len() - i,
        {
            out.push(rs[i].clone());
            i += 1;
        }
        assert(LiteralRegex::models(out@) =~= LiteralRegex::models(rs@));
        out
    }

    /// The closure of `r`.
    pub fn star(r: LiteralRegex) -> (s: LiteralRegex)
        ensures
            s@ == Pattern::Star(Box::new(r@)),
    {
        LiteralRegex::Star(Box::new(r))
    }

    /// The expression of the empty word.
    pub fn eps() -> (s: LiteralRegex)
        ensures
            s@ == Pattern::eps(),
    {
        LiteralRegex::star(LiteralRegex::Empty)
    }

    /// Adds `r` as one more branch: to the branches of an alternation, or
    /// beside any other expression in a new alternation of the two.
    pub fn add_or(&mut self, r: LiteralRegex)
        ensures
            final(self)@ == old(self)@.or(r@),
    {
        let mut held = LiteralRegex::Empty;
        std::mem::swap(self, &mut held);
        match held {
            LiteralRegex::Alternation(v) => {
                let mut v = v;
                let ghost before = v;
                v.push(r);
                proof {
                    LiteralRegex::lemma_alternation_model(before);
                    LiteralRegex::lemma_alternation_model(v);
                    assert(LiteralRegex::models(v@) =~= LiteralRegex::models(before@).push(r@));
                }
                *self = LiteralRegex::Alternation(v);
            },
            other => {
                let mut v: Vec<LiteralRegex> = Vec::new();
                v.push(other);
                v.push(r);
                proof {
                    LiteralRegex::lemma_alternation_model(v);
                    assert(LiteralRegex::models(v@) =~= seq![other@, r@]);
                }
                *self = LiteralRegex::Alternation(v);
            },
        }
    }

    /// One group of all the symbols, where every expression of the list is
    /// a literal.
    fn literal_group(rs: &Vec<LiteralRegex>) -> (g: Option<LiteralRegex>)
        ensures
            g is Some <==> Pattern::all_literals(LiteralRegex::models(rs@)),
            g matches Some(r) ==> r@ == Pattern::Group(
                Pattern::literal_symbols(LiteralRegex::models(rs@)),
            ),
    {
        let ghost ms = LiteralRegex::models(rs@);
        let mut cs: Vec<char> = Vec::new();
        let mut i: usize = 0;
        while i < rs.len()
            invariant
                i <= rs.len(),
                ms == LiteralRegex::models(rs@),
                cs.len() == i,
                forall|j: int| 0 <= j < i ==> (#[trigger] ms[j]) is Literal && cs[j] == ms[j]->Literal_0,
            decreases rs.len() - i,
        {
            match &rs[i] {
                LiteralRegex::Literal(c) => {
                    assert(ms[i as int] == Pattern::Literal(*c));
                    cs.push(*c);
                },
                _ => {
                    assert(!(ms[i as int] is Literal));
                    return None;
                },
            }
            i += 1;
        }
        assert(cs@ =~= Pattern::literal_symbols(ms));
        Some(LiteralRegex::Group(cs))
    }

    /// Flattens each term and gathers the results; a term of the same kind
    /// as the whole, an alternation where `alternation` says so and a
    /// concatenation where not, gives its own terms.
    fn flatten(rs: &Vec<LiteralRegex>, alternation: bool) -> (out: Vec<LiteralRegex>)
        ensures
            LiteralRegex::models(out@) == if alternation {
                Pattern::all_alternatives(Pattern::simplified_each(LiteralRegex::models(rs@)))
            } else {
                Pattern::all_factors(Pattern::simplified_each(LiteralRegex::models(rs@)))
            },
        decreases rs,
    {
        let ghost ss = Pattern::simplified_each(LiteralRegex::models(rs@));
        let mut out: Vec<LiteralRegex> = Vec::new();
        let mut i: usize = 0;
        while i < rs.len()
            invariant
                i <= rs.len(),
                ss == Pattern::simplified_each(LiteralRegex::models(rs@)),
                LiteralRegex::models(out@) == if alternation {
                    Pattern::all_alternatives(ss.take(i as int))
                } else {
                    Pattern::all_factors(ss.take(i as int))
                },
            decreases rs.len() - i,
        {
            let s = rs[i].simplify();
            let ghost before = out@;
            proof {
                assert(ss.take(i + 1).drop_last() =~= ss.take(i as int));
                assert(ss.take(i + 1).last() == s@);
            }
            match s {
                LiteralRegex::Alternation(xs) => {
                    if alternation {
                        let mut xs = xs;
                        proof {
                            LiteralRegex::lemma_alternation_model(xs);
                            assert(LiteralRegex::models(before + xs@) =~= LiteralRegex::models(before)
                                + LiteralRegex::models(xs@));
                        }
                        out.append(&mut xs);
                    } else {
                        proof {
                            assert(LiteralRegex::models(before.push(s)) =~= LiteralRegex::models(before) + seq![
                                s@,
                            ]);
                        }
                        out.push(LiteralRegex::Alternation(xs));
                    }
                },
                LiteralRegex::Concat(xs) => {
                    if !alternation {
                        let mut xs = xs;
                        proof {
                            LiteralRegex::lemma_concat_model(xs);
                            assert(LiteralRegex::models(before + xs@) =~= LiteralRegex::models(before)
                                + LiteralRegex::models(xs@));
                        }
                        out.append(&mut xs);
                    } else {
                        proof {
                            assert(LiteralRegex::models(before.push(s)) =~= LiteralRegex::models(before) + seq![
                                s@,
                            ]);
                        }
                        out.push(LiteralRegex::Concat(xs));
                    }
                },
                other => {
                    proof {
                        assert(LiteralRegex::models(before.push(other)) =~= LiteralRegex::models(before) + seq![
                            s@,
                        ]);
                    }
                    out.push(other);
                },
            }
            i += 1;
        }
        assert(ss.take(i as int) =~= ss);
        out
    }

    /// The flattened form of the expression.
    pub fn simplify(&self) -> (r: LiteralRegex)
        ensures
            r@ == self@.simplified(),
        decreases self,
    {
        match self {
            LiteralRegex::Literal(_) => self.clone(),
            LiteralRegex::Group(_) => self.clone(),
            LiteralRegex::Empty => self.clone(),
            LiteralRegex::Star(r) => LiteralRegex::Star(Box::new(r.simplify())),
            LiteralRegex::Alternation(rs) => {
                proof {
                    LiteralRegex::lemma_alternation_model(*rs);
                }
                if rs.len() == 0 {
                    LiteralRegex::Empty
                } else if rs.len() == 1 {
                    rs[0].simplify()
                } else {
                    let ps = LiteralRegex::flatten(rs, true);
                    match LiteralRegex::literal_group(&ps) {
                        Some(g) => g,
                        None => {
                            proof {
                                LiteralRegex::lemma_alternation_model(ps);
                            }
                            LiteralRegex::Alternation(ps)
                        },
                    }
                }
            },
            LiteralRegex::Concat(rs) => {
                proof {
                    LiteralRegex::lemma_concat_model(*rs);
                }
                if rs.len() == 0 {
                    LiteralRegex::eps()
                } else if rs.len() == 1 {
                    rs[0].simplify()
                } else {
                    let ps = LiteralRegex::flatten(rs, false);
                    proof {
                        LiteralRegex::lemma_concat_model(ps);
                    }
                    LiteralRegex::Concat(ps)
                }
            },
        }
    }

    /// The texts of the expressions with `sep` between them.
    fn join(rs: &Vec<LiteralRegex>, sep: &str) -> (s: String)
        requires
            forall|i: int| 0 <= i < rs.len() ==> (#[trigger] LiteralRegex::models(rs@)[i]).printable(),
        ensures
            s@ == Pattern::joined(LiteralRegex::models(rs@), sep@),
        decreases rs,
    {
        let ghost ms = LiteralRegex::models(rs@);
        let mut s = String::new();
        let mut i: usize = 0;
        while i < rs.len()
            invariant
                i <= rs.len(),
                ms == LiteralRegex::models(rs@),
                forall|j: int| 0 <= j < rs.len() ==> (#[trigger] ms[j]).printable(),
                s@ == Pattern::joined(ms.take(i as int), sep@),
            decreases rs.len() - i,
        {
            if i > 0 {
                s.append(sep);
            }
            assert(ms[i as int].printable());
            let part = rs[i].print();
            s.append(part.as_str());
            proof {
                assert(ms.take(i + 1).drop_last() =~= ms.take(i as int));
                assert(ms.take(i + 1).last() == rs[i as int]@);
                if i == 0 {
                    assert(s@ =~= part@);
                }
            }
            i += 1;
        }
        assert(ms.take(i as int) =~= ms);
        s
    }

    /// The text `s` of `n` terms, inside a non-capturing group where there
    /// is more than one term.
    fn paren(n: usize, s: String) -> (g: String)
        ensures
            g@ == Pattern::paren(n as nat, s@),
    {
        if n > 1 {
            let mut g = String::new();
            push_char(&mut g, '(');
            push_char(&mut g, '?');
            push_char(&mut g, ':');
            g.append(s.as_str());
            push_char(&mut g, ')');
            assert(g@ =~= Pattern::paren(n as nat, s@));
            g
        } else {
            s
        }
    }

    /// The text of the expression.
    pub fn print(&self) -> (s: String)
        requires
            self@.printable(),
        ensures
            s@ == self@.text(),
        decreases self,
    {
        match self {
            LiteralRegex::Literal(c) => {
                let mut s = String::new();
                push_char(&mut s, *c);
                assert(s@ =~= seq![*c]);
                s
            },
            LiteralRegex::Group(cs) => {
                let mut s = String::new();
                push_char(&mut s, '[');
                let inner = text_of(cs);
                s.append(inner.as_str());
                push_char(&mut s, ']');
                assert(s@ =~= seq!['['] + cs@ + seq![']']);
                s
            },
            LiteralRegex::Empty => String::new(),
            LiteralRegex::Star(r) => {
                match &**r {
                    LiteralRegex::Empty => String::new(),
                    _ => {
                        let mut s = r.print();
                        push_char(&mut s, '*');
                        s
                    },
                }
            },
            LiteralRegex::Alternation(rs) => {
                proof {
                    LiteralRegex::lemma_alternation_model(*rs);
                    assert(Pattern::Alternation(LiteralRegex::models(rs@))->Alternation_0 == LiteralRegex::models(
                        rs@,
                    ));
                    reveal_strlit("|");
                    assert("|"@ =~= seq!['|']);
                }
                LiteralRegex::paren(rs.len(), LiteralRegex::join(rs, "|"))
            },
            LiteralRegex::Concat(rs) => {
                proof {
                    LiteralRegex::lemma_concat_model(*rs);
                    assert(Pattern::Concat(LiteralRegex::models(rs@))->Concat_0 == LiteralRegex::models(rs@));
                    reveal_strlit("");
                    assert(""@ =~= Seq::<char>::empty());
                }
                LiteralRegex::paren(rs.len(), LiteralRegex::join(rs, ""))
            },
        }
    }
}

} // verus!
