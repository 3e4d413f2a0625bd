use div_regex::div_dfa;
use div_regex::div_re;

fn digits(m: u32) -> Vec<char> {
    m.to_string().chars().collect()
}

fn dfa_test_modulus(n: u32) {
    let dfa = div_dfa::by_modulus(n);
    for m in 0..1000 {
        assert_eq!(dfa.run(&digits(m)), (m % n) as usize)
    }
}

fn dfa_test_divisible(n: u32) {
    let dfa = div_dfa::by_modulus(n).minimal();
    for m in 0..1000 {
        assert_eq!(dfa.accepts(&digits(m)), m % n == 0)
    }
}

#[test]
fn div_dfa_test_mod_4() {
    dfa_test_modulus(4);
    dfa_test_divisible(4);
}

#[test]
fn div_dfa_test_mod_10() {
    dfa_test_modulus(10);
    dfa_test_divisible(10);
}

#[test]
fn test_mod_14() {
    dfa_test_modulus(14);
    dfa_test_divisible(14);
}

fn re_test_modulus(m: u32) {
    let r = div_re::by_modulus(m).unwrap();
    for n in 0..100 {
        assert_eq!(r.is_match(&format!("{}", n)), n % m == 0)
    }
}

#[test]
fn test_mod_1() {
    re_test_modulus(1)
}

#[test]
fn test_mod_2() {
    re_test_modulus(2)
}

#[test]
fn div_re_test_mod_4() {
    re_test_modulus(4)
}

#[test]
fn test_mod_5() {
    re_test_modulus(5)
}

#[test]
fn div_re_test_mod_10() {
    re_test_modulus(10)
}

#[test]
fn remainder_table() {
    let dfa = div_dfa::by_modulus(3);
    assert_eq!(dfa.transition_map().len(), 3);
    assert_eq!(dfa.init_state(), 0);
    assert_eq!(dfa.accept_states(), &vec![0]);
    assert_eq!(
        dfa.transition_map()[1],
        (
            1,
            vec![
                ('0', 1),
                ('1', 2),
                ('2', 0),
                ('3', 1),
                ('4', 2),
                ('5', 0),
                ('6', 1),
                ('7', 2),
                ('8', 0),
                ('9', 1)
            ]
        )
    );
    assert_eq!(dfa.transition(2, '7'), 0);
}

#[test]
fn minimal_of_remainders() {
    // modulo 4 only the last two digits count: three groups are left
    assert_eq!(div_dfa::by_modulus(4).minimal().transition_map().len(), 3);
    assert_eq!(div_dfa::by_modulus(10).minimal().transition_map().len(), 2);
    assert_eq!(div_dfa::by_modulus(1).minimal().transition_map().len(), 1);
    assert_eq!(div_dfa::by_modulus(7).minimal().transition_map().len(), 7);
}

#[test]
fn pattern_text_of_a_modulus() {
    assert_eq!(div_re::by_str(1), "^[0123456789]*$");
    let text = div_re::by_str(2);
    assert!(text.starts_with('^') && text.ends_with('$'));
    let r = regex::Regex::new(&text).unwrap();
    for n in 0..200 {
        assert_eq!(r.is_match(&format!("{}", n)), n % 2 == 0)
    }
    assert_eq!(div_re::by_modulus(2).unwrap().as_str(), text);
}
