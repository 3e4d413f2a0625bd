//! The regular-expression engine that compiles the pattern texts.

use vstd::prelude::*;

verus! {

/// `regex::Regex`, a compiled pattern. Nothing is known of its inside.
#[verifier::external_type_specification]
#[verifier::external_body]
pub struct ExRegex(regex::Regex);

/// `regex::Error`, the engine's reason to refuse a pattern. Nothing is
/// known of its inside.
#[verifier::external_type_specification]
#[verifier::external_body]
pub struct ExRegexError(regex::Error);

/// Why there is no matcher.
#[derive(Debug)]
pub enum MatcherError {
    /// There is no pattern text to compile: the fragment is the empty
    /// language, or holds it where a text would have to show it.
    NoText,
    /// The engine refused the pattern text, for the reason it gave.
    Refused(regex::Error),
}

/// `regex::Regex::new`: hands the pattern text to the engine, which compiles
/// it or refuses it. Nothing is claimed of which it does: the engine
/// refuses a pattern that is no pattern to it, and one whose compiled form
/// is larger than its limit, by a size that it counts in the machine's own
/// units.
#[verifier::external_body]
pub(crate) fn compile(pattern: &str) -> (r: Result<regex::Regex, regex::Error>) {
    regex::Regex::new(pattern)
}

/// What the engine gave: its matcher, or its refusal as the library's
/// error.
pub fn compiled(outcome: Result<regex::Regex, regex::Error>) -> (r: Result<
    regex::Regex,
    MatcherError,
>)
    ensures
        r == match outcome {
            Ok(m) => Ok::<regex::Regex, MatcherError>(m),
            Err(e) => Err::<regex::Regex, MatcherError>(MatcherError::Refused(e)),
        },
{
    match outcome {
        Ok(m) => Ok(m),
        Err(e) => Err(MatcherError::Refused(e)),
    }
}

} // verus!
