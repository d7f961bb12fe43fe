use regex::Regex;
use vstd::prelude::*;
use vstd::string::StringSliceAdditionalSpecFns;
use vstd::utf8::is_char_boundary;

verus! {

/// A compiled regular expression of the `regex` crate. Nothing is known of
/// what is inside one: it is compiled, handed on and searched with.
#[verifier::external_type_specification]
#[verifier::external_body]
pub struct ExRegex(regex::Regex);

/// The error with which the `regex` crate turns a pattern down.
#[verifier::external_type_specification]
#[verifier::external_body]
pub struct ExRegexError(regex::Error);

/// A pattern that the `regex` crate has compiled.
pub struct Pattern {
    regex: Regex,
}

/// The pattern that `Regex::new` compiles `source` to; `None` where it turns
/// the source down.
pub uninterp spec fn compiled(source: Seq<char>) -> Option<Pattern>;

/// The byte offsets at which the leftmost match of `pattern` in `haystack`
/// begins and ends when the search sets out at the byte offset `start`;
/// `None` where nothing matches from there on. This is what `Regex::find_at`
/// returns.
pub uninterp spec fn found_at(pattern: Pattern, haystack: Seq<char>, start: int) -> Option<
    (usize, usize),
>;

/// Calls `Regex::new`. The crate compiles a source in one way only, so the
/// outcome is the named one for the text of the source.
#[verifier::external_body]
pub(crate) fn compile(source: &str) -> (r: Result<Pattern, regex::Error>)
    ensures
        match r {
            Ok(pattern) => compiled(source@) == Some(pattern),
            Err(_) => compiled(source@) is None,
        },
{
    Regex::new(source).map(|regex| Pattern { regex })
}

/// Calls `Regex::find_at` and hands back where the match begins and ends.
///
/// The crate documents that the search panics when `start` lies beyond the
/// end of the haystack, which `requires` leaves out; that a match begins no
/// later than it ends; and that both offsets fall on character boundaries of
/// the haystack, so that the haystack can be sliced at them.
#[verifier::external_body]
pub(crate) fn find_at(pattern: &Pattern, haystack: &str, start: usize) -> (r: Option<
    (usize, usize),
>)
    requires
        start <= haystack.spec_bytes().len(),
        is_char_boundary(haystack.spec_bytes(), start as int),
    ensures
        r == found_at(*pattern, haystack@, start as int),
        r matches Some((from, to)) ==> {
            &&& from <= to <= haystack.spec_bytes().len()
            &&& is_char_boundary(haystack.spec_bytes(), from as int)
            &&& is_char_boundary(haystack.spec_bytes(), to as int)
        },
{
    pattern.regex.find_at(haystack, start).map(|m| (m.start(), m.end()))
}

/// Formats the error of the `regex` crate with its `Display`. Nothing is
/// claimed of the text.
#[verifier::external_body]
pub(crate) fn describe(error: &regex::Error) -> (text: String) {
    format!("{}", error)
}

/// `Regex::clone` hands back an expression that searches as the one it was
/// made from: the crate derives it, and a copy shares the compiled program.
pub assume_specification[ <Regex as Clone>::clone ](regex: &Regex) -> (copy: Regex)
    ensures
        copy == *regex,
;

impl Clone for Pattern {
    /// A pattern that searches as this one does.
    fn clone(&self) -> (copy: Self)
        ensures
            copy == *self,
    {
        Pattern { regex: self.regex.clone() }
    }
}

} // verus!
