//! The record filter: which records are retained for counting.

use crate::pattern::engine_is_match;
use crate::pattern::pattern_at;
use crate::pattern::regex_is_match;
use crate::pattern::Matcher;
use vstd::prelude::*;

verus! {

/// Whether a record is retained, given what the exclude and include patterns
/// (where present) said of it: exclusion wins, and an absent pattern objects
/// to nothing.
pub open spec fn retained(excluded: Option<bool>, included: Option<bool>) -> bool {
    excluded != Some(true) && included != Some(false)
}

/// What an optional pattern says of a record: nothing where there is no
/// pattern, else whether it matches.
pub open spec fn verdict(pattern: Option<Seq<char>>, record: Seq<u8>) -> Option<bool> {
    match pattern {
        Some(p) => Some(regex_is_match(p, record)),
        None => None,
    }
}

/// Whether `record` passes the filter made of the two optional patterns.
pub open spec fn keeps(
    record: Seq<u8>,
    including: Option<Seq<char>>,
    excluding: Option<Seq<char>>,
) -> bool {
    retained(verdict(excluding, record), verdict(including, record))
}

/// Decides whether a record is kept from the outcomes of the two optional
/// pattern tests.
pub fn retain(excluded: Option<bool>, included: Option<bool>) -> (keep: bool)
    ensures
        keep == retained(excluded, included),
{
    match excluded {
        Some(true) => false,
        _ => match included {
            Some(false) => false,
            _ => true,
        },
    }
}

/// Tests `record` against an optional pattern.
pub fn probe(pattern: Option<&Matcher>, record: &[u8]) -> (hit: Option<bool>)
    ensures
        hit == verdict(pattern_at(pattern), record@),
{
    match pattern {
        Some(m) => Some(engine_is_match(m, record)),
        None => None,
    }
}

/// The record filter. A record that the exclude pattern matches is dropped
/// whatever the include pattern says; otherwise it is kept unless an include
/// pattern is present and does not match.
pub fn should_keep(
    record: &[u8],
    including: Option<&Matcher>,
    excluding: Option<&Matcher>,
) -> (keep: bool)
    ensures
        keep == keeps(record@, pattern_at(including), pattern_at(excluding)),
{
    let excluded = probe(excluding, record);
    match excluded {
        Some(true) => retain(excluded, None),
        _ => retain(excluded, probe(including, record)),
    }
}

} // verus!
