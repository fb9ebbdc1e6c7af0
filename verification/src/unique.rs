//! Unique mode: each distinct retained record is emitted once, at its first
//! occurrence, and nothing is counted.

use crate::arena::Interner;
use crate::error::EncodingError;
use crate::filter::keeps;
use crate::filter::should_keep;
use crate::pattern::pattern_of;
use crate::pattern::pattern_at;
use crate::pattern::Matcher;
use crate::rewrite::line_bytes;
use crate::rewrite::rewrite;
use crate::rewrite::rewritten;
use crate::rewrite::rules_of;
use crate::rewrite::Substitute;
use crate::stream::first_seen;
use crate::stream::lemma_first_seen;
use crate::stream::lemma_first_seen_grows;
use crate::stream::lemma_retained_grows;
use crate::stream::records_view;
use crate::stream::retained_stream;
use crate::text::decode;
use std::borrow::Cow;
use vstd::prelude::*;
use vstd::utf8::decode_utf8;
use vstd::utf8::valid_utf8;

verus! {

/// The set of keys seen so far, kept in a `hashbrown::HashSet`.
#[verifier::external_body]
pub struct SeenSet<'a> {
    keys: hashbrown::HashSet<&'a [u8]>,
}

/// What a set holds: its keys, taken as their bytes.
pub uninterp spec fn seen_keys(set: SeenSet) -> Set<Seq<u8>>;

/// The keys of a set that holds nothing.
pub open spec fn no_keys() -> Set<Seq<u8>> {
    Set::empty()
}

/// Calls `hashbrown::HashSet::default`.
///
/// Trusted: the new set holds nothing.
#[verifier::external_body]
fn seen_new<'a>() -> (fresh: SeenSet<'a>)
    ensures
        seen_keys(fresh) == no_keys(),
{
    SeenSet { keys: hashbrown::HashSet::default() }
}

/// Calls `hashbrown::HashSet::contains`.
///
/// Trusted: the answer says whether the set holds a key with these bytes.
#[verifier::external_body]
fn seen_contains(set: &SeenSet<'_>, key: &[u8]) -> (found: bool)
    ensures
        found == seen_keys(*set).contains(key@),
{
    set.keys.contains(key)
}

/// Calls `hashbrown::HashSet::insert`.
///
/// Trusted: afterwards the set holds the key besides what it held.
#[verifier::external_body]
fn seen_insert<'a>(set: &mut SeenSet<'a>, key: &'a [u8])
    ensures
        seen_keys(*final(set)) == seen_keys(*old(set)).insert(key@),
{
    set.keys.insert(key);
}

impl<'a> SeenSet<'a> {
    /// The set as a set of key bytes.
    pub open spec fn view(&self) -> Set<Seq<u8>> {
        seen_keys(*self)
    }

    /// An empty set.
    pub fn new() -> (set: SeenSet<'a>)
        ensures
            set@ == no_keys(),
    {
        seen_new()
    }

    /// Observes one retained record. A record not seen before is interned,
    /// entered into the set and handed back for emission; one seen before
    /// changes nothing and is not interned.
    pub fn observe(&mut self, arena: &'a Interner, record: &[u8]) -> (fresh: Option<&'a [u8]>)
        ensures
            final(self)@ == old(self)@.insert(record@),
            fresh is Some <==> !old(self)@.contains(record@),
            fresh matches Some(key) ==> key@ == record@,
    {
        if seen_contains(self, record) {
            assert(self@.insert(record@) == self@);
            None
        } else {
            let key = arena.intern(record);
            seen_insert(self, key);
            Some(key)
        }
    }
}

/// The views of a sequence of texts.
pub open spec fn texts(rows: Seq<&str>) -> Seq<Seq<char>> {
    rows.map_values(|row: &str| row@)
}

/// Every key of `keys` is valid UTF-8.
pub open spec fn all_text(keys: Seq<Seq<u8>>) -> bool {
    forall|i: int| 0 <= i < keys.len() ==> valid_utf8(#[trigger] keys[i])
}

/// The texts that `keys` encode.
pub open spec fn texts_of(keys: Seq<Seq<u8>>) -> Seq<Seq<char>> {
    keys.map_values(|key: Seq<u8>| decode_utf8(key))
}

/// What one step of unique mode has to do with a line, given the keys seen
/// before it: nothing for a line that the filter drops or whose rewritten
/// form was seen; else the rewritten form enters the set and is emitted as
/// text, or fails the run where it is not valid UTF-8.
pub open spec fn unique_step(
    line: Seq<u8>,
    including: Option<Seq<char>>,
    excluding: Option<Seq<char>>,
    rules: Seq<(Seq<char>, Seq<u8>)>,
    before: Set<Seq<u8>>,
    after: Set<Seq<u8>>,
    r: Result<Option<&str>, EncodingError>,
) -> bool {
    let key = rewritten(line, rules);
    if keeps(line, including, excluding) {
        &&& after == before.insert(key)
        &&& match r {
            Ok(None) => before.contains(key),
            Ok(Some(text)) => !before.contains(key) && valid_utf8(key) && text@ == decode_utf8(
                key,
            ),
            Err(e) => !before.contains(key) && !valid_utf8(key) && e.bytes@ == key,
        }
    } else {
        after == before && r matches Ok(None)
    }
}

/// One step of unique mode: decides whether `line` is emitted, and as what
/// text.
pub fn unique_line<'a>(
    line: &[u8],
    set: &mut SeenSet<'a>,
    arena: &'a Interner,
    including: Option<&Matcher>,
    excluding: Option<&Matcher>,
    substitutions: Option<&[Substitute<'_>]>,
) -> (r: Result<Option<&'a str>, EncodingError>)
    ensures
        unique_step(
            line@,
            pattern_at(including),
            pattern_at(excluding),
            rules_of(substitutions),
            old(set)@,
            final(set)@,
            r,
        ),
{
    if !should_keep(line, including, excluding) {
        return Ok(None);
    }
    let rewritten_line = match substitutions {
        Some(rules) => rewrite(line, rules),
        None => Cow::Borrowed(line),
    };
    match set.observe(arena, line_bytes(&rewritten_line)) {
        Some(key) => match decode(key) {
            Ok(text) => Ok(Some(text)),
            Err(e) => Err(e),
        },
        None => Ok(None),
    }
}

/// What unique mode has to emit for the distinct keys `firsts`, in order:
/// the text of each, up to the first that is not valid UTF-8, which fails
/// the run.
pub open spec fn emitted(
    firsts: Seq<Seq<u8>>,
    before: Seq<Seq<char>>,
    after: Seq<Seq<char>>,
    r: Result<(), EncodingError>,
) -> bool {
    match r {
        Ok(()) => all_text(firsts) && after == before + texts_of(firsts),
        Err(e) => exists|j: int|
            {
                &&& 0 <= j < firsts.len()
                &&& all_text(firsts.take(j))
                &&& !valid_utf8(#[trigger] firsts[j])
                &&& e.bytes@ == firsts[j]
                &&& after == before + texts_of(firsts.take(j))
            },
    }
}

/// Unique mode over a whole input: the records that pass the filter are
/// rewritten, and each distinct result is appended to `out` as text once, in
/// the order of first occurrence. A result that is not valid UTF-8 ends the
/// run with an error; what was emitted before it stays in `out`.
pub fn stream_unique<'a>(
    records: &[Vec<u8>],
    out: &mut Vec<&'a str>,
    arena: &'a Interner,
    including: Option<Matcher>,
    excluding: Option<Matcher>,
    substitutions: Option<&[Substitute<'_>]>,
) -> (r: Result<(), EncodingError>)
    ensures
        emitted(
            first_seen(
                retained_stream(
                    records_view(records@),
                    pattern_of(including),
                    pattern_of(excluding),
                    rules_of(substitutions),
                ),
            ),
            texts(old(out)@),
            texts(final(out)@),
            r,
        ),
{
    let ghost lines = records_view(records@);
    let ghost inc = pattern_of(including);
    let ghost exc = pattern_of(excluding);
    let ghost rules = rules_of(substitutions);
    let ghost whole = first_seen(retained_stream(lines, inc, exc, rules));
    let mut set = SeenSet::new();
    let mut i: usize = 0;
    proof {
        assert(texts(out@) == texts(old(out)@) + texts_of(Seq::<Seq<u8>>::empty()));
    }
    while i < records.len()
        invariant
            0 <= i <= records.len(),
            lines == records_view(records@),
            inc == pattern_of(including),
            exc == pattern_of(excluding),
            rules == rules_of(substitutions),
            whole == first_seen(retained_stream(lines, inc, exc, rules)),
            forall|key: Seq<u8>|
                set@.contains(key) <==> #[trigger] first_seen(
                    retained_stream(lines.take(i as int), inc, exc, rules),
                ).contains(key),
            all_text(first_seen(retained_stream(lines.take(i as int), inc, exc, rules))),
            texts(out@) == texts(old(out)@) + texts_of(
                first_seen(retained_stream(lines.take(i as int), inc, exc, rules)),
            ),
        decreases records.len() - i,
    {
        let ghost seen = retained_stream(lines.take(i as int), inc, exc, rules);
        let ghost firsts = first_seen(seen);
        let ghost line = records@[i as int]@;
        let ghost key = rewritten(line, rules);
        let ghost next = retained_stream(lines.take(i as int + 1), inc, exc, rules);
        let ghost shown = texts(out@);
        proof {
            assert(lines.take(i as int + 1).drop_last() == lines.take(i as int));
            assert(lines.take(i as int + 1).last() == line);
            if keeps(line, inc, exc) {
                assert(next == seen.push(key));
                assert(next.drop_last() == seen);
                assert(next.last() == key);
            } else {
                assert(next == seen);
            }
            lemma_first_seen(seen);
            lemma_first_seen(next);
        }
        let step = unique_line(
            records[i].as_slice(),
            &mut set,
            arena,
            including.as_ref(),
            excluding.as_ref(),
            substitutions,
        );
        match step {
            Ok(Some(text)) => {
                out.push(text);
                proof {
                    assert(first_seen(next) == firsts.push(key));
                    assert(texts_of(firsts.push(key)) == texts_of(firsts).push(decode_utf8(key)));
                    assert(texts(out@) == shown.push(text@));
                    assert forall|k: Seq<u8>|
                        set@.contains(k) <==> #[trigger] first_seen(next).contains(k) by {
                        if firsts.contains(k) {
                            let j = choose|j: int| 0 <= j < firsts.len() && firsts[j] == k;
                            assert(first_seen(next)[j] == k);
                        }
                        if k == key {
                            assert(first_seen(next)[firsts.len() as int] == k);
                        }
                    }
                }
            },
            Ok(None) => {
                proof {
                    assert(first_seen(next) == firsts);
                }
            },
            Err(e) => {
                proof {
                    let j = firsts.len() as int;
                    assert(first_seen(next) == firsts.push(key));
                    lemma_retained_grows(lines, i as int + 1, inc, exc, rules);
                    lemma_first_seen_grows(
                        retained_stream(lines, inc, exc, rules),
                        next.len() as int,
                    );
                    assert(whole.take(j + 1) == firsts.push(key));
                    assert(whole.take(j + 1)[j] == key);
                    assert(whole[j] == key);
                    assert(whole.take(j) == whole.take(j + 1).take(j));
                    assert(whole.take(j) == firsts);
                }
                return Err(e);
            },
        }
        i += 1;
    }
    proof {
        assert(lines.take(i as int) == lines);
    }
    Ok(())
}

} // verus!
