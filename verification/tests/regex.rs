use div_regex::literal_regex::LiteralRegex;
use div_regex::{MatcherError, Re};

#[test]
fn regex_basic_printing() {
    assert_eq!(LiteralRegex::Literal('a').print(), "a");
    assert_eq!(LiteralRegex::Group(vec!['a']).print(), "[a]");
    let abc = LiteralRegex::Group(vec!['a', 'b', 'c']);
    assert_eq!(abc.print(), "[abc]");
    assert_eq!(LiteralRegex::Star(Box::new(abc.clone())).print(), "[abc]*");
    assert_eq!(
        LiteralRegex::Alternation(vec![abc.clone(), abc.clone()]).print(),
        "(?:[abc]|[abc])"
    );
    assert_eq!(
        LiteralRegex::Concat(vec![abc.clone(), abc.clone()]).print(),
        "(?:[abc][abc])"
    );
    assert_eq!(LiteralRegex::eps().print(), "");
}

#[test]
fn simple_regex_basic_printing() {
    let abc = Re::Group(vec!['a', 'b', 'c']);
    let tests = vec![
        (Re::Group(vec!['a']), "a"),
        (abc.clone(), "[abc]"),
        (Re::Star(Box::new(abc.clone())), "[abc]*"),
        (
            Re::Alternation(vec![abc.clone(), abc.clone()]),
            "(?:[abc]|[abc])",
        ),
        (Re::Concat(vec![abc.clone(), abc.clone()]), "(?:[abc][abc])"),
        (Re::eps(), ""),
    ];
    for (r, expected) in tests {
        assert_eq!(r.regex().unwrap().as_str(), format!("^{}$", expected))
    }
}

#[test]
fn simplification() {
    let a = Re::Group(vec!['a']);
    let b = Re::Group(vec!['b']);
    let tests = vec![
        (Re::Alternation(vec![]), Re::Empty),
        (Re::Concat(vec![]), Re::eps()),
        (Re::Alternation(vec![a.clone()]), a.clone()),
        (Re::Concat(vec![a.clone()]), a.clone()),
        (Re::Alternation(vec![Re::Alternation(vec![])]), Re::Empty),
        (Re::Concat(vec![Re::Concat(vec![])]), Re::eps()),
        (Re::Alternation(vec![Re::Empty, a.clone()]), a.clone()),
        (Re::Concat(vec![Re::Empty, a.clone()]), Re::Empty),
        (
            Re::Alternation(vec![Re::Empty, a.clone(), b.clone()]),
            Re::Group(vec!['a', 'b']),
        ),
        (
            Re::Alternation(vec![Re::eps(), a.clone()]),
            Re::Optional(Box::new(a.clone())),
        ),
        (Re::Star(Box::new(a.clone())), Re::Star(Box::new(a.clone()))),
        (
            Re::Star(Box::new(Re::Star(Box::new(a.clone())))),
            Re::Star(Box::new(a.clone())),
        ),
        (
            Re::Star(Box::new(Re::Star(Box::new(Re::Star(Box::new(a.clone())))))),
            Re::Star(Box::new(a.clone())),
        ),
        (
            Re::Optional(Box::new(Re::Optional(Box::new(a.clone())))),
            Re::Optional(Box::new(a.clone())),
        ),
    ];
    for (r, expected) in tests {
        assert_eq!(r.simplify(), expected)
    }
}

#[test]
fn optional_of_one_symbol() {
    let r = Re::Alternation(vec![Re::Concat(vec![]), Re::Group(vec!['a'])]).simplify();
    assert_eq!(r, Re::Optional(Box::new(Re::Group(vec!['a']))));
    assert_eq!(r.to_re_syntax(), "a?");
    assert_eq!(r.pattern(), "^a?$");
    let m = r.regex().unwrap();
    assert!(m.is_match(""));
    assert!(m.is_match("a"));
    assert!(!m.is_match("aa"));
}

#[test]
fn simplify_twice_is_simplify_once() {
    let a = Re::Group(vec!['a']);
    let b = Re::Group(vec!['b']);
    let samples = vec![
        Re::Alternation(vec![
            Re::eps(),
            Re::Alternation(vec![Re::eps(), a.clone(), b.clone()]),
        ]),
        Re::Alternation(vec![Re::eps()]),
        Re::Alternation(vec![Re::eps(), Re::Empty, Re::eps()]),
        Re::Concat(vec![
            Re::Concat(vec![a.clone(), Re::eps()]),
            Re::Star(Box::new(Re::Star(Box::new(b.clone())))),
            Re::Concat(vec![b.clone(), a.clone()]),
        ]),
        Re::Star(Box::new(Re::Optional(Box::new(Re::Alternation(vec![a.clone()]))))),
        Re::Optional(Box::new(Re::Empty)),
        Re::Alternation(vec![
            Re::Concat(vec![a.clone(), b.clone()]),
            Re::Alternation(vec![a.clone(), Re::Star(Box::new(Re::Empty))]),
        ]),
    ];
    for r in samples {
        let once = r.simplify();
        assert_eq!(once.simplify(), once);
    }
}

#[test]
fn simplify_exact_results() {
    let a = Re::Group(vec!['a']);
    let b = Re::Group(vec!['b']);
    // an option is not made optional again
    assert_eq!(
        Re::Alternation(vec![
            Re::eps(),
            Re::Alternation(vec![Re::eps(), a.clone(), b.clone()]),
        ])
        .simplify(),
        Re::Optional(Box::new(Re::Group(vec!['a', 'b'])))
    );
    // branches that are all the empty word leave the empty word
    assert_eq!(Re::Alternation(vec![Re::eps()]).simplify(), Re::eps());
    assert_eq!(
        Re::Alternation(vec![Re::eps(), Re::Empty, Re::eps()]).simplify(),
        Re::eps()
    );
    // nested concatenations flatten, the empty word drops out
    assert_eq!(
        Re::Concat(vec![
            Re::Concat(vec![a.clone(), Re::eps()]),
            Re::Star(Box::new(Re::Star(Box::new(b.clone())))),
            Re::Concat(vec![b.clone(), a.clone()]),
        ])
        .simplify(),
        Re::Concat(vec![
            a.clone(),
            Re::Star(Box::new(b.clone())),
            b.clone(),
            a.clone()
        ])
    );
    // groups of several symbols merge too
    assert_eq!(
        Re::Alternation(vec![Re::Group(vec!['a', 'b']), Re::Group(vec!['c'])]).simplify(),
        Re::Group(vec!['a', 'b', 'c'])
    );
    // a nested alternation flattens into its parent
    assert_eq!(
        Re::Alternation(vec![
            Re::Concat(vec![a.clone(), b.clone()]),
            Re::Alternation(vec![a.clone(), Re::Star(Box::new(b.clone()))]),
        ])
        .simplify(),
        Re::Alternation(vec![
            Re::Concat(vec![a.clone(), b.clone()]),
            a.clone(),
            Re::Star(Box::new(b.clone()))
        ])
    );
    assert_eq!(Re::Star(Box::new(Re::Empty)).simplify(), Re::eps());
}

#[test]
fn add_or_extends_or_pairs() {
    let a = Re::Group(vec!['a']);
    let b = Re::Group(vec!['b']);
    let c = Re::Group(vec!['c']);
    let mut r = a.clone();
    r.add_or(b.clone());
    assert_eq!(r, Re::Alternation(vec![a.clone(), b.clone()]));
    r.add_or(c.clone());
    assert_eq!(r, Re::Alternation(vec![a.clone(), b.clone(), c.clone()]));
    assert_eq!(Re::star(a.clone()), Re::Star(Box::new(a.clone())));
    assert_eq!(Re::eps(), Re::Star(Box::new(Re::Empty)));
}

#[test]
fn syntax_groups_more_than_one_term() {
    let a = Re::Group(vec!['a']);
    let b = Re::Group(vec!['b']);
    assert_eq!(Re::Concat(vec![a.clone()]).to_re_syntax(), "a");
    assert_eq!(Re::Alternation(vec![b.clone()]).to_re_syntax(), "b");
    assert_eq!(Re::Concat(vec![a.clone(), b.clone()]).to_re_syntax(), "(?:ab)");
    assert_eq!(
        Re::Alternation(vec![a.clone(), b.clone(), a.clone()]).to_re_syntax(),
        "(?:a|b|a)"
    );
    assert_eq!(Re::Group(vec![]).to_re_syntax(), "[]");
    assert_eq!(
        Re::Optional(Box::new(Re::Star(Box::new(Re::Group(vec!['x', 'y']))))).to_re_syntax(),
        "[xy]*?"
    );
}

#[test]
fn printable_fragments() {
    assert!(!Re::Empty.is_printable());
    assert!(Re::eps().is_printable());
    assert!(!Re::Optional(Box::new(Re::Empty)).is_printable());
    assert!(!Re::Concat(vec![Re::Group(vec!['a']), Re::Empty]).is_printable());
    assert!(Re::Alternation(vec![Re::Group(vec!['a']), Re::eps()]).is_printable());
    assert!(matches!(Re::Empty.regex(), Err(MatcherError::NoText)));
    assert!(matches!(
        Re::Optional(Box::new(Re::Empty)).regex(),
        Err(MatcherError::NoText)
    ));
}

#[test]
fn engine_refuses_a_broken_pattern() {
    // an empty class is no pattern for the engine
    assert!(matches!(
        Re::Group(vec![]).regex(),
        Err(MatcherError::Refused(_))
    ));
    assert!(matches!(
        div_regex::engine::compiled(regex::Regex::new("(")),
        Err(MatcherError::Refused(_))
    ));
    assert_eq!(
        div_regex::engine::compiled(regex::Regex::new("a"))
            .unwrap()
            .as_str(),
        "a"
    );
}

#[test]
fn literal_regex_simplify() {
    let a = LiteralRegex::Literal('a');
    let b = LiteralRegex::Literal('b');
    assert_eq!(
        LiteralRegex::Alternation(vec![a.clone(), b.clone()])
            .simplify()
            .print(),
        "[ab]"
    );
    assert_eq!(
        LiteralRegex::Concat(vec![
            a.clone(),
            LiteralRegex::Concat(vec![b.clone(), a.clone()])
        ])
        .simplify()
        .print(),
        "(?:aba)"
    );
    assert_eq!(
        LiteralRegex::Alternation(vec![
            a.clone(),
            LiteralRegex::Alternation(vec![b.clone(), LiteralRegex::Star(Box::new(a.clone()))])
        ])
        .simplify()
        .print(),
        "(?:a|b|a*)"
    );
    assert_eq!(LiteralRegex::Concat(vec![]).simplify().print(), "");
    assert_eq!(LiteralRegex::Concat(vec![b.clone()]).simplify().print(), "b");
    // the one term of a concatenation or alternation is flattened too
    assert_eq!(
        LiteralRegex::Concat(vec![LiteralRegex::Concat(vec![])])
            .simplify()
            .print(),
        ""
    );
    assert!(matches!(
        LiteralRegex::Concat(vec![LiteralRegex::Concat(vec![])]).simplify(),
        LiteralRegex::Star(_)
    ));
    assert!(matches!(
        LiteralRegex::Alternation(vec![LiteralRegex::Alternation(vec![])]).simplify(),
        LiteralRegex::Empty
    ));
    assert_eq!(
        LiteralRegex::Alternation(vec![LiteralRegex::Alternation(vec![a.clone(), b.clone()])])
            .simplify()
            .print(),
        "[ab]"
    );
    // a group stands round more than one term only
    assert_eq!(LiteralRegex::Concat(vec![a.clone()]).print(), "a");
    assert_eq!(LiteralRegex::Alternation(vec![b.clone()]).print(), "b");
    assert_eq!(
        LiteralRegex::Concat(vec![a.clone(), b.clone()]).print(),
        "(?:ab)"
    );
    let mut r = a.clone();
    r.add_or(b.clone());
    assert_eq!(r.print(), "(?:a|b)");
    r.add_or(LiteralRegex::star(a.clone()));
    assert_eq!(r.print(), "(?:a|b|a*)");
}
