//! Rate limiting rules, and the regular expressions they are written with.
use crate::text;
use vstd::prelude::*;

verus! {

/// A compiled regular expression, as the `regex` crate holds it.
#[verifier::external_type_specification]
#[verifier::external_body]
pub struct ExRegex(regex::Regex);

/// Does `regex::Regex::new` accept the pattern?
pub uninterp spec fn regex_compiles(pattern: Seq<char>) -> bool;

/// The pattern that a regular expression was compiled from, as
/// `regex::Regex::as_str` gives it.
pub uninterp spec fn regex_source(r: regex::Regex) -> Seq<char>;

/// Does `regex::Regex::is_match` find the pattern anywhere in the text?
pub uninterp spec fn regex_finds(pattern: Seq<char>, text: Seq<char>) -> bool;

/// `regex::Regex::new` compiles a pattern or refuses it, going by the pattern
/// alone, and keeps the pattern.
#[verifier::external_body]
fn compile(pattern: &str) -> (r: Option<regex::Regex>)
    ensures
        r is Some == regex_compiles(pattern@),
        r is Some ==> regex_source(r->0) == pattern@,
{
    regex::Regex::new(pattern).ok()
}

/// `regex::Regex::is_match` goes by the pattern and the text alone.
#[verifier::external_body]
fn finds(r: &regex::Regex, text: &str) -> (b: bool)
    ensures
        b == regex_finds(regex_source(*r), text@),
{
    r.is_match(text)
}

/// `regex::Regex::as_str` gives the pattern back.
#[verifier::external_body]
fn source_of(r: &regex::Regex) -> (s: &str)
    ensures
        s@ == regex_source(*r),
{
    r.as_str()
}

/// A regular expression. Two of them are equal when their patterns are.
#[derive(Debug)]
pub struct RegexShim {
    inner: regex::Regex,
}

/// `regex::Regex::clone` keeps the pattern.
pub assume_specification[ <regex::Regex as Clone>::clone ](r: &regex::Regex) -> (c: regex::Regex)
    ensures
        regex_source(c) == regex_source(*r),
;

impl Clone for RegexShim {
    fn clone(&self) -> (r: Self)
        ensures
            r.source() == self.source(),
    {
        RegexShim { inner: self.inner.clone() }
    }
}

impl RegexShim {
    /// The pattern.
    pub closed spec fn source(self) -> Seq<char> {
        regex_source(self.inner)
    }

    /// Compiles a pattern, if it is a valid one.
    pub fn new(pattern: &str) -> (r: Option<Self>)
        ensures
            r is Some == regex_compiles(pattern@),
            r is Some ==> r->0.source() == pattern@,
    {
        match compile(pattern) {
            Some(inner) => Some(RegexShim { inner }),
            None => None,
        }
    }

    /// Is the pattern found anywhere in the text?
    pub fn is_match(&self, text: &str) -> (r: bool)
        ensures
            r == regex_finds(self.source(), text@),
    {
        finds(&self.inner, text)
    }

    /// The pattern.
    pub fn as_str(&self) -> (r: &str)
        ensures
            r@ == self.source(),
    {
        source_of(&self.inner)
    }
}

impl PartialEq for RegexShim {
    fn eq(&self, other: &Self) -> (r: bool) {
        text::same_text(self.as_str(), other.as_str())
    }
}

impl vstd::std_specs::cmp::PartialEqSpecImpl for RegexShim {
    open spec fn obeys_eq_spec() -> bool {
        true
    }

    open spec fn eq_spec(&self, other: &Self) -> bool {
        self.source() == other.source()
    }
}

impl Eq for RegexShim {

}

/// A rule that keeps one bucket per key.
#[derive(Debug, Clone, Copy, PartialEq, Eq, Structural)]
pub struct MultiRaterConfig {
    pub threads: usize,
    pub max_buckets: usize,
    pub max_tokens_per_bucket: usize,
    pub refill_interval_millis: usize,
    pub refill_qty: usize,
}

/// A rule with a single bucket.
#[derive(Debug, Clone, Copy, PartialEq, Eq, Structural)]
pub struct SingleInstanceConfig {
    pub max_tokens_per_bucket: usize,
    pub refill_interval_millis: usize,
    pub refill_qty: usize,
}

/// What the buckets of a rule are kept by.
#[derive(Debug, Clone, PartialEq, Eq)]
pub enum MultiRequestKeyKind {
    SourceIp,
    Uri { pattern: RegexShim },
}

/// What the one bucket of a rule is for.
#[derive(Debug, Clone, PartialEq, Eq)]
pub enum SingleRequestKeyKind {
    UriGroup { pattern: RegexShim },
}

/// One rate limiting rule.
#[derive(Debug, Clone, PartialEq, Eq)]
#[allow(inconsistent_fields)]
pub enum AllRateConfig {
    Single { kind: SingleRequestKeyKind, config: SingleInstanceConfig },
    Multi { kind: MultiRequestKeyKind, config: MultiRaterConfig },
}

} // verus!
