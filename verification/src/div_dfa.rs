//! The automaton that reads a decimal number and keeps its remainder.

use vstd::arithmetic::div_mod::{lemma_add_mod_noop, lemma_mul_mod_noop_left};
use vstd::prelude::*;
use crate::automaton::Automaton;
use crate::dfa::{table_model, Dfa};
use crate::table::{distinct_keys, has_key, key_index, lemma_key_index};

verus! {

/// The base of the numbers that the automaton reads.
pub const BASE: u32 = 10;

/// The character of the decimal digit `d`.
pub open spec fn digit(d: int) -> char {
    ((48 + d) as u8) as char
}

/// The transitions of the remainder `s` modulo `n`: on each digit to the
/// remainder of the number with that digit more.
pub open spec fn digit_row(n: int, s: int) -> Seq<(char, usize)> {
    Seq::new(10, |d: int| (digit(d), ((s * 10 + d) % n) as usize))
}

/// The automaton of the remainders modulo `n`: it starts at 0, and accepts
/// there.
pub open spec fn remainders(n: int) -> Automaton {
    Automaton {
        table: Seq::new(n as nat, |s: int| (s as usize, digit_row(n, s))),
        start: 0,
        accepting: seq![0usize],
    }
}

/// `char::from_digit`, with the radix 10: the character of the digit `d`
/// where `d` is below ten, and nothing else.
#[verifier::external_body]
fn from_digit(d: u32) -> (c: Option<char>)
    ensures
        c == if d < 10 {
            Some(digit(d as int))
        } else {
            None::<char>
        },
{
    char::from_digit(d, 10)
}

/// The remainders modulo `n` are an automaton.
pub proof fn lemma_remainders_wf(n: int)
    requires
        0 < n <= u32::MAX,
    ensures
        remainders(n).wf(),
{
    reveal(Automaton::complete);
    reveal(Automaton::closed);
    let a = remainders(n);
    assert forall|i: int| 0 <= i < a.table.len() implies distinct_keys((#[trigger] a.table[i]).1) by {
        let row = a.table[i].1;
        assert forall|p: int, q: int| 0 <= p < q < row.len() implies (#[trigger] row[p]).0 != (
        #[trigger] row[q]).0 by {
            assert(digit(p) as u32 == 48 + p);
            assert(digit(q) as u32 == 48 + q);
        }
    }
    assert(a.table[0].0 == 0);
    assert(a.has_state(0));
    assert(a.accepting[0] == 0);
    assert forall|i: int, j: int, k: int|
        0 <= i < a.table.len() && 0 <= j < a.table[i].1.len() && 0 <= k
            < a.table.len() implies has_key(
        (#[trigger] a.table[k]).1,
        (#[trigger] a.table[i].1[j]).0,
    ) by {
        assert(a.table[k].1[j].0 == digit(j));
    }
    assert forall|i: int, j: int|
        0 <= i < a.table.len() && 0 <= j < a.table[i].1.len() implies a.has_state(
        (#[trigger] a.table[i].1[j]).1,
    ) by {
        let t = (i * 10 + j) % n;
        assert(0 <= t < n);
        assert(a.table[t].0 == t as usize);
    }
}

/// Whether the word is made of decimal digits.
pub open spec fn is_number(w: Seq<char>) -> bool {
    forall|i: int| 0 <= i < w.len() ==> 48 <= (#[trigger] w[i]) as u32 <= 57
}

/// The number that the decimal digits stand for, the most significant
/// first; no digits stand for 0.
pub open spec fn number(w: Seq<char>) -> nat
    decreases w.len(),
{
    if w.len() == 0 {
        0
    } else {
        (number(w.drop_last()) * 10 + (w.last() as u32 - 48)) as nat
    }
}

/// A decimal digit is the character of its value.
pub proof fn lemma_digit_of(x: char)
    requires
        48 <= x as u32 <= 57,
    ensures
        digit((x as u32 - 48) as int) == x,
{
    let d = x as u32 - 48;
    assert(digit(d as int) == x);
}

/// The alphabet of the remainders is the decimal digits.
pub proof fn lemma_digit_symbols(n: int, x: char)
    requires
        0 < n <= u32::MAX,
    ensures
        remainders(n).has_symbol(x) == (48 <= x as u32 <= 57),
{
    let a = remainders(n);
    lemma_remainders_wf(n);
    a.lemma_row(0);
    let row = a.row(0);
    assert(row == digit_row(n, 0));
    if 48 <= x as u32 <= 57 {
        let d = x as u32 - 48;
        assert(digit(d as int) == x);
        assert(row[d as int].0 == x);
    }
    if has_key(row, x) {
        let j = key_index(row, x);
        assert(row[j].0 == digit(j));
    }
}

/// From the remainder `s`, the digit `d` leads to the remainder of ten
/// times `s` and `d`.
pub proof fn lemma_remainder_step(n: int, s: int, d: int)
    requires
        0 < n <= u32::MAX,
        0 <= s < n,
        0 <= d < 10,
    ensures
        remainders(n).next(s as usize, digit(d)) == ((s * 10 + d) % n) as usize,
{
    let a = remainders(n);
    lemma_remainders_wf(n);
    a.lemma_row(s);
    let row = a.row(s as usize);
    assert(row == digit_row(n, s));
    assert(row[d].0 == digit(d));
    lemma_key_index(row, d);
}

/// Reading a decimal number leaves the automaton in the state of the
/// number's remainder modulo `n`.
pub proof fn run_ends_in_remainder(n: int, w: Seq<char>)
    requires
        0 < n <= u32::MAX,
        is_number(w),
    ensures
        remainders(n).run(w) == number(w) % (n as nat),
    decreases w.len(),
{
    let a = remainders(n);
    if w.len() > 0 {
        let init = w.drop_last();
        let x = w.last();
        let d = (x as u32 - 48) as int;
        assert(48 <= w[w.len() - 1] as u32 <= 57);
        assert(is_number(init)) by {
            assert forall|i: int| 0 <= i < init.len() implies 48 <= (#[trigger] init[i]) as u32
                <= 57 by {
                assert(init[i] == w[i]);
            }
        }
        run_ends_in_remainder(n, init);
        assert(init.push(x) =~= w);
        a.lemma_run_push(a.start, init, x);
        let v = number(init) as int;
        let s = v % n;
        lemma_digit_of(x);
        lemma_remainder_step(n, s, d);
        lemma_mul_mod_noop_left(v, 10, n);
        lemma_add_mod_noop(s * 10, d, n);
        lemma_add_mod_noop(v * 10, d, n);
    }
}

/// The automaton of the remainders modulo `n` accepts exactly the decimal
/// numbers that `n` divides.
pub proof fn accepts_the_multiples(n: int, w: Seq<char>)
    requires
        0 < n <= u32::MAX,
    ensures
        remainders(n).accepts(w) == (is_number(w) && number(w) % (n as nat) == 0),
{
    let a = remainders(n);
    assert(a.over_alphabet(w) == is_number(w)) by {
        if a.over_alphabet(w) {
            assert forall|i: int| 0 <= i < w.len() implies 48 <= (#[trigger] w[i]) as u32
                <= 57 by {
                assert(a.has_symbol(w[i]));
                lemma_digit_symbols(n, w[i]);
            }
        }
        if is_number(w) {
            assert forall|i: int| 0 <= i < w.len() implies a.has_symbol(#[trigger] w[i]) by {
                lemma_digit_symbols(n, w[i]);
            }
        }
    }
    if is_number(w) {
        run_ends_in_remainder(n, w);
        let s = a.run(w);
        if a.is_accepting(s) {
            let j = choose|j: int| 0 <= j < a.accepting.len() && a.accepting[j] == s;
        }
        if s == 0 {
            assert(a.accepting[0] == s);
        }
    }
}

/// The automaton that reads a decimal number, most significant digit
/// first, and is in the state of its remainder modulo `n`; it accepts the
/// numbers that `n` divides.
pub fn by_modulus(n: u32) -> (d: Dfa)
    requires
        n > 0,
    ensures
        d@ == remainders(n as int),
        d@.wf(),
        forall|w: Seq<char>| is_number(w) ==> #[trigger] d@.run(w) == number(w) % (n as nat),
        forall|w: Seq<char>| #[trigger]
            d@.accepts(w) == (is_number(w) && number(w) % (n as nat) == 0),
{
    let mut delta: Vec<(usize, Vec<(char, usize)>)> = Vec::new();
    let mut s: u32 = 0;
    while s < n
        invariant
            s <= n,
            delta.len() == s,
            forall|i: int|
                0 <= i < s ==> (#[trigger] delta[i]).0 == i && delta[i].1@ == digit_row(n as int, i),
        decreases n - s,
    {
        let mut row: Vec<(char, usize)> = Vec::new();
        let mut d: u32 = 0;
        while d < BASE
            invariant
                d <= 10,
                s < n,
                row.len() == d,
                forall|j: int|
                    0 <= j < d ==> #[trigger] row[j] == (
                        digit(j),
                        ((s * 10 + j) % (n as int)) as usize,
                    ),
            decreases 10 - d,
        {
            let c = from_digit(d).unwrap();
            let t: u64 = (s as u64 * 10 + d as u64) % (n as u64);
            row.push((c, t as usize));
            d += 1;
        }
        assert(row@ =~= digit_row(n as int, s as int));
        delta.push((s as usize, row));
        s += 1;
    }
    let mut accept: Vec<usize> = Vec::new();
    accept.push(0);
    proof {
        lemma_remainders_wf(n as int);
        assert(table_model(delta@) =~= remainders(n as int).table);
        assert(accept@ =~= seq![0usize]);
    }
    let made = Dfa::new(delta, 0, accept);
    proof {
        assert forall|w: Seq<char>| is_number(w) implies #[trigger] remainders(n as int).run(w)
            == number(w) % (n as nat) by {
            run_ends_in_remainder(n as int, w);
        }
        assert forall|w: Seq<char>| #[trigger]
            remainders(n as int).accepts(w) == (is_number(w) && number(w) % (n as nat) == 0) by {
            accepts_the_multiples(n as int, w);
        }
    }
    made.unwrap()
}

} // verus!
