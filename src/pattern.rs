//! Compiled regular expressions, backed by the `regex` crate.
use vstd::prelude::*;

verus! {

/// `regex::Regex`, a compiled regular expression, held opaquely.
#[verifier::external_type_specification]
#[verifier::external_body]
pub struct ExRegex(regex::Regex);

/// `regex::Error`, why a pattern did not compile, held opaquely.
#[verifier::external_type_specification]
#[verifier::external_body]
pub struct ExRegexError(regex::Error);

/// Whether the regular expression written as `pattern` matches somewhere in
/// `text`, as `regex::Regex::is_match` decides it.
pub uninterp spec fn regex_is_match(pattern: Seq<char>, text: Seq<char>) -> bool;

/// A compiled regular expression together with the text it was compiled from.
pub struct Pattern {
    re: regex::Regex,
    source: String,
}

impl View for Pattern {
    type V = Seq<char>;

    /// The pattern text.
    closed spec fn view(&self) -> Seq<char> {
        self.source@
    }
}

/// Relies on `regex::Regex::new`: compiles `pattern`, or reports why it cannot.
#[verifier::external_body]
fn compile_regex(pattern: &str) -> (r: Result<regex::Regex, regex::Error>) {
    regex::Regex::new(pattern)
}

/// Relies on `regex::Regex::is_match`: whether the regex matches anywhere in
/// `text`; the answer depends on the pattern text and on `text` alone.
#[verifier::external_body]
fn regex_matches(p: &Pattern, text: &str) -> (r: bool)
    ensures
        r == regex_is_match(p@, text@),
{
    p.re.is_match(text)
}

impl Pattern {
    /// Compiles `source`; on success the pattern's view is `source`.
    pub fn new(source: &str) -> (r: Result<Pattern, regex::Error>)
        ensures
            r matches Ok(p) ==> p@ == source@,
    {
        match compile_regex(source) {
            Ok(re) => Ok(Pattern { re, source: source.to_owned() }),
            Err(e) => Err(e),
        }
    }

    /// Whether the pattern matches somewhere in `text`.
    pub fn is_match(&self, text: &str) -> (r: bool)
        ensures
            r == regex_is_match(self@, text@),
    {
        regex_matches(self, text)
    }
}

} // verus!
