use div_regex::{Dfa, Partition};

fn chars(s: &str) -> Vec<char> {
    s.chars().collect()
}

fn three_states() -> Dfa {
    Dfa::make(
        vec![
            (1, vec![('a', 2), ('b', 3)]),
            (2, vec![('a', 3), ('b', 3)]),
            (3, vec![('a', 3), ('b', 3)]),
        ],
        1,
        vec![2],
    )
    .unwrap()
}

#[test]
fn trivial_accept() {
    let dfa = Dfa::make(vec![(1, vec![])], 1, vec![1]).unwrap();
    assert_eq!(dfa.accepts(&[]), true);
}

#[test]
fn accept_a() {
    let dfa = three_states();
    for (input, expected) in vec![
        ("", false),
        ("a", true),
        ("b", false),
        ("aa", false),
        ("ab", false),
    ] {
        assert_eq!(
            dfa.accepts(&chars(input)),
            expected,
            "final state {}",
            dfa.run(&chars(input))
        );
    }
}

#[test]
#[should_panic]
fn invariant_all_states_mentioned() {
    Dfa::make(vec![(1, vec![('a', 2)])], 1, vec![1]).unwrap();
}

#[test]
#[should_panic]
fn invariant_accept_states_mentioned() {
    Dfa::make(vec![(1, vec![('a', 1)])], 1, vec![2]).unwrap();
}

#[test]
#[should_panic]
fn invariant_same_inputs() {
    Dfa::make(vec![(1, vec![('a', 2)]), (2, vec![])], 1, vec![1]).unwrap();
}

#[test]
fn construction_fails_without_panic() {
    assert!(Dfa::make(vec![(1, vec![('a', 2)])], 1, vec![1]).is_none());
    assert!(Dfa::make(vec![(1, vec![('a', 1)])], 1, vec![2]).is_none());
    assert!(Dfa::make(vec![(1, vec![('a', 2)]), (2, vec![])], 1, vec![1]).is_none());
    assert!(Dfa::make(vec![(1, vec![('a', 1)])], 7, vec![1]).is_none());
    assert!(Dfa::make(vec![], 0, vec![]).is_none());
    assert!(Dfa::make(vec![(1, vec![('a', 1)])], 1, vec![]).is_some());
}

#[test]
fn make_keeps_the_later_of_two() {
    let dfa = Dfa::make(
        vec![
            (0, vec![('a', 0), ('a', 1)]),
            (1, vec![('a', 0)]),
            (1, vec![('a', 1)]),
        ],
        0,
        vec![1, 1],
    )
    .unwrap();
    assert_eq!(
        dfa.transition_map(),
        &vec![(0, vec![('a', 1)]), (1, vec![('a', 1)])]
    );
    assert_eq!(dfa.accept_states(), &vec![1]);
    assert_eq!(dfa.init_state(), 0);
    assert_eq!(dfa.transition(0, 'a'), 1);
    assert_eq!(dfa.transition(1, 'a'), 1);
}

#[test]
fn new_takes_no_repeated_key() {
    assert!(Dfa::new(vec![(0, vec![('a', 0)]), (0, vec![('a', 0)])], 0, vec![0]).is_none());
    assert!(Dfa::new(vec![(0, vec![('a', 0), ('a', 0)])], 0, vec![0]).is_none());
    assert!(Dfa::new(vec![(0, vec![('a', 0)])], 0, vec![0, 0]).is_none());
    assert!(Dfa::new(vec![(0, vec![('a', 1)])], 0, vec![0]).is_none());
    let dfa = Dfa::new(vec![(0, vec![('a', 0)])], 0, vec![0]).unwrap();
    assert_eq!(dfa.transition_map(), &vec![(0, vec![('a', 0)])]);
}

#[test]
fn run_and_transition() {
    let dfa = three_states();
    assert_eq!(dfa.run(&[]), 1);
    assert_eq!(dfa.run(&chars("a")), 2);
    assert_eq!(dfa.run(&chars("ab")), 3);
    assert_eq!(dfa.transition(1, 'b'), 3);
    assert_eq!(dfa.transition(2, 'a'), 3);
    assert_eq!(dfa.chars(), vec!['a', 'b']);
}

#[test]
fn next_states_groups_symbols_by_target() {
    let dfa = three_states();
    assert_eq!(dfa.next_states(1), vec![(2, vec!['a']), (3, vec!['b'])]);
    assert_eq!(dfa.next_states(2), vec![(3, vec!['a', 'b'])]);
    let other = Dfa::make(
        vec![(0, vec![('a', 1), ('b', 0), ('c', 1)]), (1, vec![('a', 1), ('b', 1), ('c', 1)])],
        0,
        vec![],
    )
    .unwrap();
    assert_eq!(other.next_states(0), vec![(1, vec!['a', 'c']), (0, vec!['b'])]);
}

#[test]
fn minimal_merges_equivalent_states() {
    // states 2 and 3 both accept everything from there on
    let dfa = Dfa::make(
        vec![
            (0, vec![('a', 1), ('b', 0)]),
            (1, vec![('a', 2), ('b', 3)]),
            (2, vec![('a', 3), ('b', 2)]),
            (3, vec![('a', 2), ('b', 3)]),
        ],
        0,
        vec![2, 3],
    )
    .unwrap();
    let min = dfa.minimal();
    assert_eq!(min.transition_map().len(), 3);
    assert_eq!(
        min.transition_map(),
        &vec![
            (0, vec![('a', 1), ('b', 0)]),
            (1, vec![('a', 2), ('b', 2)]),
            (2, vec![('a', 2), ('b', 2)]),
        ]
    );
    assert_eq!(min.init_state(), 0);
    assert_eq!(min.accept_states(), &vec![2]);
}

fn words(alphabet: &[char], max_len: usize) -> Vec<Vec<char>> {
    let mut all: Vec<Vec<char>> = vec![vec![]];
    let mut last: Vec<Vec<char>> = vec![vec![]];
    for _ in 0..max_len {
        let mut next = Vec::new();
        for w in &last {
            for c in alphabet {
                let mut longer = w.clone();
                longer.push(*c);
                next.push(longer);
            }
        }
        all.extend(next.iter().cloned());
        last = next;
    }
    all
}

#[test]
fn minimal_keeps_the_language() {
    let dfa = Dfa::make(
        vec![
            (0, vec![('a', 1), ('b', 2)]),
            (1, vec![('a', 3), ('b', 4)]),
            (2, vec![('a', 4), ('b', 3)]),
            (3, vec![('a', 5), ('b', 5)]),
            (4, vec![('a', 5), ('b', 5)]),
            (5, vec![('a', 5), ('b', 5)]),
        ],
        0,
        vec![1, 2, 5],
    )
    .unwrap();
    let min = dfa.minimal();
    assert_eq!(min.transition_map().len(), 4);
    for w in words(&['a', 'b'], 6) {
        assert_eq!(dfa.accepts(&w), min.accepts(&w));
    }
}

#[test]
fn minimal_twice_keeps_the_size() {
    let dfa = Dfa::make(
        vec![
            (0, vec![('a', 1), ('b', 2)]),
            (1, vec![('a', 3), ('b', 4)]),
            (2, vec![('a', 4), ('b', 3)]),
            (3, vec![('a', 5), ('b', 5)]),
            (4, vec![('a', 5), ('b', 5)]),
            (5, vec![('a', 5), ('b', 5)]),
        ],
        0,
        vec![1, 2, 5],
    )
    .unwrap();
    let once = dfa.minimal();
    let twice = once.minimal();
    assert_eq!(once.transition_map().len(), twice.transition_map().len());
    let all_accept = Dfa::make(vec![(3, vec![('x', 4)]), (4, vec![('x', 3)])], 3, vec![3, 4])
        .unwrap()
        .minimal();
    assert_eq!(all_accept.transition_map(), &vec![(0, vec![('x', 0)])]);
    assert_eq!(all_accept.minimal().transition_map().len(), 1);
}

#[test]
fn partition_index_and_len() {
    let p = Partition::new(vec![vec![4, 7], vec![], vec![1]]);
    assert_eq!(p.len(), 3);
    assert_eq!(p.index(&4), 0);
    assert_eq!(p.index(&7), 0);
    assert_eq!(p.index(&1), 2);
}

#[test]
fn refine_splits_by_successor_groups() {
    let dfa = Dfa::make(
        vec![
            (0, vec![('a', 1)]),
            (1, vec![('a', 2)]),
            (2, vec![('a', 3)]),
            (3, vec![('a', 3)]),
        ],
        0,
        vec![3],
    )
    .unwrap();
    let p = Partition::new(vec![vec![0, 1, 2], vec![3]]);
    let q = p.refine(&dfa);
    assert_eq!(q.len(), 3);
    assert_eq!(q.index(&0), 0);
    assert_eq!(q.index(&1), 0);
    assert_eq!(q.index(&2), 1);
    assert_eq!(q.index(&3), 2);
    let r = q.refine(&dfa);
    assert_eq!(r.len(), 4);
    assert_eq!(r.index(&0), 0);
    assert_eq!(r.index(&1), 1);
    assert_eq!(r.index(&2), 2);
    assert_eq!(r.index(&3), 3);
    assert_eq!(r.refine(&dfa).len(), 4);
}
