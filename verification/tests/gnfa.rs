use div_regex::{Dfa, Gnfa, MatcherError, Re, State};

#[test]
fn even() {
    let delta = vec![(0, vec![('a', 1)]), (1, vec![('a', 0)])];
    let dfa = Dfa::make(delta, 0, vec![0]).unwrap();
    let re = Gnfa::dfa_re(&dfa).unwrap();
    let tests = vec![("", true), ("a", false), ("aa", true), ("aaa", false)];
    for (test, expected) in tests {
        assert_eq!(
            re.is_match(test),
            expected,
            "text: \"{}\" regex: {}",
            test,
            re
        );
    }
}

#[test]
fn three_state() {
    // ab(.ab)*
    let delta = vec![
        (0, vec![('a', 1), ('b', 0)]),
        (1, vec![('b', 2), ('a', 0)]),
        (2, vec![('a', 0), ('b', 0)]),
    ];
    let dfa = Dfa::make(delta, 0, vec![2]).unwrap();
    let re = Gnfa::dfa_re(&dfa).unwrap();
    let tests = vec![
        ("", false),
        ("ab", true),
        ("aba", false),
        ("abaab", true),
        ("abab", false),
    ];
    for (test, expected) in tests {
        assert_eq!(
            re.is_match(test),
            expected,
            "text: \"{}\" regex: {}",
            test,
            re
        );
    }
}

#[test]
fn ab() {
    let delta = vec![
        (0, vec![('a', 1), ('b', 3)]),
        (1, vec![('b', 2), ('a', 3)]),
        (2, vec![('a', 3), ('b', 3)]),
        (3, vec![('a', 3), ('b', 3)]),
    ];
    let dfa = Dfa::make(delta, 0, vec![2]).unwrap();
    let re = Gnfa::dfa_re(&dfa).unwrap();
    let tests = vec![
        ("", false),
        ("a", false),
        ("ab", true),
        ("aba", false),
        ("abaab", false),
        ("abab", false),
    ];
    for (test, expected) in tests {
        assert_eq!(
            re.is_match(test),
            expected,
            "text: \"{}\" regex: {}",
            test,
            re
        );
    }
}

#[test]
fn even_length_pattern() {
    let dfa = Dfa::make(vec![(0, vec![('a', 1)]), (1, vec![('a', 0)])], 0, vec![0]).unwrap();
    let r = Gnfa::regex_for(&dfa);
    let a = Re::Group(vec!['a']);
    assert_eq!(
        r,
        Re::Optional(Box::new(Re::Concat(vec![
            a.clone(),
            Re::Star(Box::new(Re::Concat(vec![a.clone(), a.clone()]))),
            a.clone()
        ])))
    );
    assert_eq!(Gnfa::dfa_re_str(&dfa), Some("^(?:a(?:aa)*a)?$".to_string()));
    let re = Gnfa::dfa_re(&dfa).unwrap();
    assert_eq!(re.as_str(), "^(?:a(?:aa)*a)?$");
    for (test, expected) in vec![("", true), ("aa", true), ("aaaa", true), ("a", false), ("aaa", false)] {
        assert_eq!(re.is_match(test), expected);
    }
}

#[test]
fn no_pattern_for_the_empty_language() {
    let dfa = Dfa::make(vec![(0, vec![('a', 0)])], 0, vec![]).unwrap();
    assert_eq!(Gnfa::regex_for(&dfa), Re::Empty);
    assert_eq!(Gnfa::dfa_re_str(&dfa), None);
    assert!(matches!(Gnfa::dfa_re(&dfa), Err(MatcherError::NoText)));
}

#[test]
fn only_the_empty_word() {
    let dfa = Dfa::make(vec![(0, vec![('a', 1)]), (1, vec![('a', 1)])], 0, vec![0]).unwrap();
    assert_eq!(Gnfa::regex_for(&dfa), Re::eps());
    assert_eq!(Gnfa::dfa_re_str(&dfa), Some("^$".to_string()));
    let re = Gnfa::dfa_re(&dfa).unwrap();
    assert!(re.is_match(""));
    assert!(!re.is_match("a"));
}

fn words(alphabet: &[char], max_len: usize) -> Vec<String> {
    let mut all: Vec<String> = vec![String::new()];
    let mut last: Vec<String> = vec![String::new()];
    for _ in 0..max_len {
        let mut next = Vec::new();
        for w in &last {
            for c in alphabet {
                let mut longer = w.clone();
                longer.push(*c);
                next.push(longer);
            }
        }
        all.extend(next.iter().cloned());
        last = next;
    }
    all
}

#[test]
fn pattern_matches_what_the_automaton_accepts() {
    let dfa = Dfa::make(
        vec![
            (0, vec![('a', 1), ('b', 2)]),
            (1, vec![('a', 0), ('b', 3)]),
            (2, vec![('a', 3), ('b', 0)]),
            (3, vec![('a', 2), ('b', 1)]),
        ],
        0,
        vec![0, 3],
    )
    .unwrap();
    let re = Gnfa::dfa_re(&dfa).unwrap();
    let min = Gnfa::dfa_re(&dfa.minimal()).unwrap();
    for w in words(&['a', 'b'], 7) {
        let cs: Vec<char> = w.chars().collect();
        assert_eq!(re.is_match(&w), dfa.accepts(&cs), "word {}", w);
        assert_eq!(min.is_match(&w), dfa.accepts(&cs), "word {}", w);
    }
    assert!(!re.is_match("abc"));
}

#[test]
fn pattern_text_is_anchored() {
    let dfa = Dfa::make(vec![(0, vec![('a', 0)])], 0, vec![0]).unwrap();
    assert_eq!(Gnfa::regex_for(&dfa), Re::Star(Box::new(Re::Group(vec!['a']))));
    assert_eq!(Gnfa::dfa_re_str(&dfa), Some("^a*$".to_string()));
    let re = Gnfa::dfa_re(&dfa).unwrap();
    assert_eq!(re.as_str(), "^a*$");
    assert!(re.is_match("aaa"));
    assert!(!re.is_match("aba"));
}

#[test]
fn engine_refusal_is_told_from_no_text() {
    // the symbol `(` stands bare in the text, which is no pattern for the engine
    let dfa = Dfa::make(vec![(0, vec![('(', 0)])], 0, vec![0]).unwrap();
    assert_eq!(Gnfa::dfa_re_str(&dfa), Some("^(*$".to_string()));
    assert!(matches!(Gnfa::dfa_re(&dfa), Err(MatcherError::Refused(_))));
}

#[test]
fn states_are_told_apart() {
    assert_ne!(State::Init, State::Final);
    assert_ne!(State::State(0), State::Init);
    assert_ne!(State::State(0), State::State(1));
    assert_eq!(State::State(3), State::State(3));
}
