//! Compiled patterns and the test of a base name against one.

use regex::Regex;
use vstd::prelude::*;

verus! {

/// The compiled regular expression of the `regex` crate. Nothing inside
/// it is visible here: it is made by `Regex::new` and asked by
/// `Regex::is_match`.
#[verifier::external_type_specification]
#[verifier::external_body]
pub struct ExRegex(regex::Regex);

/// The pattern text that a compiled regex holds: what `Regex::as_str` hands back.
pub uninterp spec fn regex_source(re: Regex) -> Seq<char>;

/// Whether a regex that `Regex::new` compiled from `pattern` finds a match
/// anywhere in `text`: what `Regex::is_match` returns.
pub uninterp spec fn regex_matches(pattern: Seq<char>, text: Seq<char>) -> bool;

/// What `Regex::new` says against `source` on a machine whose words have
/// `word_bits` bits: the message of the error, or nothing where the text
/// compiles. The text alone decides but for one thing: the compiled
/// program must stay under a fixed size, and its size is counted in the
/// machine's words.
pub uninterp spec fn regex_error(source: Seq<char>, word_bits: nat) -> Option<Seq<char>>;

/// What `Regex::new` says against `source` on this machine.
pub open spec fn pattern_error(source: Seq<char>) -> Option<Seq<char>> {
    regex_error(source, usize::BITS as nat)
}

/// A compiled pattern. Its view is the text it was compiled from.
#[derive(Debug)]
pub struct Pattern {
    re: Regex,
}

impl View for Pattern {
    type V = Seq<char>;

    closed spec fn view(&self) -> Seq<char> {
        regex_source(self.re)
    }
}

/// Calls `Regex::new`. A regex that comes back holds the text it was given;
/// where none does, the text that comes back is the message of the error.
/// Which of the two happens, and the message, is what `regex_error` names:
/// nothing is claimed about which texts compile.
#[verifier::external_body]
fn regex_new(source: &str) -> (r: Result<Regex, String>)
    ensures
        match r {
            Ok(re) => regex_error(source@, usize::BITS as nat) is None && regex_source(re)
                == source@,
            Err(m) => regex_error(source@, usize::BITS as nat) == Some(m@),
        },
{
    match Regex::new(source) {
        Ok(re) => Ok(re),
        Err(e) => Err(e.to_string()),
    }
}

/// Calls `Regex::is_match` on the regex inside a `Pattern`. Every `Pattern`
/// is made by `Regex::new` with the default options, so the answer depends
/// on the pattern text and the haystack alone.
#[verifier::external_body]
fn regex_is_match(pattern: &Pattern, text: &str) -> (b: bool)
    ensures
        b == regex_matches(pattern@, text@),
{
    pattern.re.is_match(text)
}

/// Whether `name` is matched by `pattern`; with no pattern nothing is.
pub open spec fn name_matches(pattern: Option<Seq<char>>, name: Seq<char>) -> bool {
    match pattern {
        Some(p) => regex_matches(p, name),
        None => false,
    }
}

/// The view of an optional pattern.
pub open spec fn source_of(pattern: Option<Pattern>) -> Option<Seq<char>> {
    match pattern {
        Some(p) => Some(p@),
        None => None,
    }
}

impl Pattern {
    /// Compiles `source`. The pattern that comes back views as `source`;
    /// where none does, the text says why.
    pub fn new(source: &str) -> (r: Result<Pattern, String>)
        ensures
            match r {
                Ok(p) => pattern_error(source@) is None && p@ == source@,
                Err(m) => pattern_error(source@) == Some(m@),
            },
    {
        Pattern::wrapped(regex_new(source))
    }

    /// Tests `text` against this pattern.
    pub fn accepts(&self, text: &str) -> (b: bool)
        ensures
            b == regex_matches(self@, text@),
    {
        regex_is_match(self, text)
    }

    /// Makes the pattern out of what compiling gave: the regex that came
    /// back, wrapped, or else the message as it is. It stays inside the
    /// library, so that no regex made with other options gets into a
    /// `Pattern`.
    fn wrapped(outcome: Result<Regex, String>) -> (r: Result<Pattern, String>)
        ensures
            match outcome {
                Ok(re) => r matches Ok(p) && p@ == regex_source(re),
                Err(e) => r == Err::<Pattern, String>(e),
            },
    {
        match outcome {
            Ok(re) => Ok(Pattern { re }),
            Err(e) => Err(e),
        }
    }
}

/// Tests a base name against an optional pattern. A missing pattern matches
/// nothing.
pub fn is_match(name: &str, pattern: &Option<Pattern>) -> (b: bool)
    ensures
        b == name_matches(source_of(*pattern), name@),
{
    match pattern {
        Some(p) => p.accepts(name),
        None => false,
    }
}

} // verus!
