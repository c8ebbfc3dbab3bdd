//! Regular expressions, as the `regex` crate compiles and runs them.

use vstd::prelude::*;

verus! {

#[verifier::external_type_specification]
#[verifier::external_body]
pub struct ExRegex(regex::Regex);

#[verifier::external_type_specification]
#[verifier::external_body]
pub struct ExRegexError(regex::Error);

/// Whether `regex` accepts `pattern` as a regular expression.
pub uninterp spec fn regex_accepts(pattern: Seq<char>) -> bool;

/// Whether `pattern` matches somewhere in `text`.
pub uninterp spec fn regex_finds(pattern: Seq<char>, text: Seq<char>) -> bool;

/// `text` with the leftmost match of `pattern` replaced by `replacement`, in which `$`
/// names a capture group.
pub uninterp spec fn regex_replace_first(pattern: Seq<char>, text: Seq<char>, replacement: Seq<char>) -> Seq<char>;

/// `text` with every non-overlapping match of `pattern` replaced by `replacement`, in which
/// `$` names a capture group.
pub uninterp spec fn regex_replace_every(pattern: Seq<char>, text: Seq<char>, replacement: Seq<char>) -> Seq<char>;

/// Relies on `regex::Regex::new`: compiles `pattern`, or returns the crate's error.
#[verifier::external_body]
fn regex_new(pattern: &str) -> (r: Result<regex::Regex, regex::Error>)
    ensures
        r is Ok <==> regex_accepts(pattern@),
{
    regex::Regex::new(pattern)
}

/// A compiled regular expression together with the text it was compiled from.
///
/// `compile` is the only constructor, so `re` is always what `regex` made of `source`.
pub struct CompiledRegex {
    source: String,
    re: regex::Regex,
}

impl View for CompiledRegex {
    type V = Seq<char>;

    /// The pattern text.
    closed spec fn view(&self) -> Seq<char> {
        self.source@
    }
}

impl CompiledRegex {
    /// Compiles `pattern`; `None` when the regex syntax refuses it.
    pub fn compile(pattern: &str) -> (r: Option<CompiledRegex>)
        ensures
            r is Some <==> regex_accepts(pattern@),
            r matches Some(c) ==> c@ == pattern@,
    {
        match regex_new(pattern) {
            Ok(re) => Some(CompiledRegex { source: pattern.to_owned(), re }),
            Err(_) => None,
        }
    }

    /// The pattern text.
    pub fn as_str(&self) -> (r: &str)
        ensures
            r@ == self@,
    {
        self.source.as_str()
    }

    /// Relies on `regex::Regex::is_match`: whether the pattern matches somewhere in `text`.
    #[verifier::external_body]
    pub(crate) fn is_match(&self, text: &str) -> (r: bool)
        ensures
            r == regex_finds(self@, text@),
    {
        self.re.is_match(text)
    }

    /// Relies on `regex::Regex::replace`: replaces the leftmost match.
    #[verifier::external_body]
    pub(crate) fn replace_first(&self, text: &str, replacement: &str) -> (r: String)
        ensures
            r@ == regex_replace_first(self@, text@, replacement@),
    {
        self.re.replace(text, replacement).into_owned()
    }

    /// Relies on `regex::Regex::replace_all`: replaces every non-overlapping match.
    #[verifier::external_body]
    pub(crate) fn replace_every(&self, text: &str, replacement: &str) -> (r: String)
        ensures
            r@ == regex_replace_every(self@, text@, replacement@),
    {
        self.re.replace_all(text, replacement).into_owned()
    }
}

} // verus!
