//! Compiled byte patterns: the one place where the regular-expression engine
//! is called.
//!
//! What the engine decides is a function of the pattern text and the haystack
//! alone. It is far too large to write out here, so it is given names
//! ([`regex_compiles`], [`regex_is_match`], [`regex_replace_all`]) and the
//! rest of the library states its contracts over those names.

use crate::error::ConfigError;
use std::borrow::Cow;
use vstd::prelude::*;

verus! {

/// `regex::bytes::Regex`: a compiled pattern, carried as an opaque value.
#[verifier::external_type_specification]
#[verifier::external_body]
pub struct ExRegex(regex::bytes::Regex);

/// `regex::Error`: the engine's report on a pattern it refused, carried as an
/// opaque value.
#[verifier::external_type_specification]
#[verifier::external_body]
pub struct ExRegexError(regex::Error);

/// Whether the engine accepts `pattern`.
pub uninterp spec fn regex_compiles(pattern: Seq<char>) -> bool;

/// Whether `pattern` matches anywhere in `haystack`.
pub uninterp spec fn regex_is_match(pattern: Seq<char>, haystack: Seq<u8>) -> bool;

/// `haystack` with every non-overlapping match of `pattern` replaced by the
/// literal bytes `replacement`.
pub uninterp spec fn regex_replace_all(
    pattern: Seq<char>,
    haystack: Seq<u8>,
    replacement: Seq<u8>,
) -> Seq<u8>;

/// A pattern together with the engine compiled from it.
///
/// The two fields never part: the only way to make a `Matcher` is
/// [`Matcher::new`], which compiles `engine` from `source`.
pub struct Matcher {
    source: String,
    engine: regex::bytes::Regex,
}

/// Calls `regex::bytes::Regex::new`.
///
/// Trusted: the call succeeds exactly on the patterns that
/// [`regex_compiles`] names, and the matcher that comes back holds the
/// pattern it was given.
#[verifier::external_body]
pub(crate) fn compile(pattern: &str) -> (r: Result<Matcher, regex::Error>)
    ensures
        r is Ok <==> regex_compiles(pattern@),
        r matches Ok(m) ==> m.pattern() == pattern@,
{
    match regex::bytes::Regex::new(pattern) {
        Ok(engine) => Ok(Matcher { source: pattern.to_string(), engine }),
        Err(e) => Err(e),
    }
}

/// Calls `regex::bytes::Regex::is_match`.
///
/// Trusted: the answer is the one that [`regex_is_match`] names for the
/// matcher's pattern and the haystack.
#[verifier::external_body]
pub(crate) fn engine_is_match(matcher: &Matcher, haystack: &[u8]) -> (hit: bool)
    ensures
        hit == regex_is_match(matcher.pattern(), haystack@),
{
    matcher.engine.is_match(haystack)
}

/// Calls `regex::bytes::Regex::replace_all` with a `NoExpand` replacement, so
/// that the replacement is taken as literal bytes.
///
/// Trusted: the bytes that come back are those that [`regex_replace_all`]
/// names; the haystack itself comes back borrowed exactly when the pattern
/// matches nowhere in it.
#[verifier::external_body]
pub(crate) fn engine_replace_all<'h>(
    matcher: &Matcher,
    haystack: &'h [u8],
    replacement: &[u8],
) -> (out: Cow<'h, [u8]>)
    ensures
        out@ == regex_replace_all(matcher.pattern(), haystack@, replacement@),
        out is Borrowed <==> !regex_is_match(matcher.pattern(), haystack@),
        out is Borrowed ==> out@ == haystack@,
{
    matcher.engine.replace_all(haystack, regex::bytes::NoExpand(replacement))
}

impl Matcher {
    /// The pattern text this matcher was compiled from.
    pub closed spec fn pattern(&self) -> Seq<char> {
        self.source@
    }

    /// Compiles `pattern`, or says that the engine refused it.
    pub fn new(pattern: &str) -> (r: Result<Matcher, ConfigError>)
        ensures
            r is Ok <==> regex_compiles(pattern@),
            r matches Ok(m) ==> m.pattern() == pattern@,
            r matches Err(e) ==> e is InvalidPattern,
    {
        match compile(pattern) {
            Ok(m) => Ok(m),
            Err(e) => Err(ConfigError::InvalidPattern(e)),
        }
    }

    /// The pattern text.
    pub fn as_str(&self) -> (s: &str)
        ensures
            s@ == self.pattern(),
    {
        self.source.as_str()
    }
}

/// The pattern text of an optional matcher that is borrowed.
pub open spec fn pattern_at(matcher: Option<&Matcher>) -> Option<Seq<char>> {
    match matcher {
        Some(m) => Some(m.pattern()),
        None => None,
    }
}

/// The pattern text of an optional matcher.
pub open spec fn pattern_of(matcher: Option<Matcher>) -> Option<Seq<char>> {
    match matcher {
        Some(m) => Some(m.pattern()),
        None => None,
    }
}

} // verus!
