//! The regular-expression engine of the `regex` crate, as this library uses it.
use vstd::prelude::*;
use vstd::string::*;

use crate::model::{span_pairs, spans_valid};

verus! {

/// Declares the error type of the `regex` crate so that it can be carried.
#[verifier::external_type_specification]
#[verifier::external_body]
pub struct ExRegexError(regex::Error);

/// Declares the compiled regular expression of the `regex` crate.
#[verifier::external_type_specification]
#[verifier::external_body]
pub struct ExRegex(regex::Regex);

/// Whether the `regex` crate compiles `pattern`: its syntax is valid and the
/// program it makes stays within the default size limit.
pub uninterp spec fn regex_accepts(pattern: Seq<char>) -> bool;

/// The byte spans of the successive non-overlapping matches that the `regex`
/// crate finds in `hay` (UTF-8 bytes) for the regular expression `pattern`.
pub uninterp spec fn regex_spans(pattern: Seq<char>, hay: Seq<u8>) -> Seq<(int, int)>;

/// Relies on `regex::Regex::new`: it fails exactly on a pattern that is
/// invalid or too big, which depends on the pattern alone.
pub assume_specification[ regex::Regex::new ](re: &str) -> (r: Result<regex::Regex, regex::Error>)
    ensures
        r is Ok <==> regex_accepts(re@),
;

/// A compiled regular expression together with the pattern text it was
/// compiled from. Its fields are private: `compile` is the only way to make
/// one, so `re` is always the compilation of `source`.
pub struct CompiledPattern {
    re: regex::Regex,
    source: String,
}

impl CompiledPattern {
    /// The pattern text that this regular expression was compiled from.
    pub closed spec fn source(&self) -> Seq<char> {
        self.source@
    }
}

/// Compiles `pattern`; fails exactly when the engine does not accept it.
pub fn compile(pattern: &str) -> (r: Result<CompiledPattern, regex::Error>)
    ensures
        r is Ok <==> regex_accepts(pattern@),
        r is Ok ==> r->Ok_0.source() == pattern@,
{
    match regex::Regex::new(pattern) {
        Ok(re) => Ok(CompiledPattern { re, source: pattern.to_owned() }),
        Err(e) => Err(e),
    }
}

/// Relies on `regex::Regex::find_iter` with `Match::start` and `Match::end`,
/// on the regex compiled from `p.source()`: the matches depend on that
/// pattern and the haystack alone; they come in order, do not overlap, have
/// `start <= end`, and both offsets lie on UTF-8 boundaries of the haystack;
/// each search after an empty match starts past it, so starts strictly increase.
#[verifier::external_body]
pub(crate) fn find_spans(p: &CompiledPattern, hay: &str) -> (r: Vec<core::ops::Range<usize>>)
    ensures
        span_pairs(r@) == regex_spans(p.source(), hay.spec_bytes()),
        spans_valid(hay.spec_bytes(), span_pairs(r@)),
{
    p.re.find_iter(hay).map(|m| m.start()..m.end()).collect()
}

} // verus!
