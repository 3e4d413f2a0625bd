//! Regular expressions for the decimal numbers that a modulus divides.

use vstd::prelude::*;
use crate::div_dfa;
use crate::elimination::eliminates_to;
use crate::engine::MatcherError;
use crate::fragment::Fragment;
use crate::gnfa::Gnfa;
use crate::refinement::minimized;

verus! {

/// The matcher for the decimal numbers that `n` divides. The library never
/// refuses: every modulus divides the number of no digits, so there is a
/// pattern text. The engine decides, and its refusal comes back as
/// `Refused`.
pub fn by_modulus(n: u32) -> (m: Result<regex::Regex, MatcherError>)
    requires
        n > 0,
    ensures
        !(m matches Err(MatcherError::NoText)),
{
    let dfa = div_dfa::by_modulus(n).minimal();
    proof {
        let nothing = Seq::<char>::empty();
        assert(div_dfa::is_number(nothing));
        assert(div_dfa::number(nothing) == 0);
        assert(0nat % (n as nat) == 0);
        assert(div_dfa::remainders(n as int).accepts(nothing));
        assert(dfa@.accepts(nothing));
    }
    Gnfa::dfa_re(&dfa)
}

/// The pattern text for the decimal numbers that `n` divides, between the
/// anchors of start and end: that of a regular expression which matches
/// exactly the words of decimal digits whose number `n` divides, as state
/// elimination gives it for the minimal automaton of the remainders modulo
/// `n`.
pub fn by_str(n: u32) -> (s: String)
    requires
        n > 0,
    ensures
        exists|r: Fragment|
            #[trigger] eliminates_to(minimized(div_dfa::remainders(n as int)), r) && (forall|
                w: Seq<char>,
            |
                r.matches(w) == (div_dfa::is_number(w) && div_dfa::number(w) % (n as nat) == 0))
                && r.printable() && s@ == r.anchored(),
{
    let dfa = div_dfa::by_modulus(n).minimal();
    proof {
        let nothing = Seq::<char>::empty();
        assert(div_dfa::is_number(nothing));
        assert(div_dfa::number(nothing) == 0);
        assert(0nat % (n as nat) == 0);
        assert(div_dfa::remainders(n as int).accepts(nothing));
        assert(dfa@.accepts(nothing));
    }
    let text = Gnfa::dfa_re_str(&dfa);
    text.unwrap()
}

} // verus!
