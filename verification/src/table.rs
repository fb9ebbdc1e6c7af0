//! The frequency table: one count for each distinct retained record.

use crate::arena::Interner;
use crate::filter::keeps;
use crate::filter::should_keep;
use crate::pattern::pattern_of;
use crate::pattern::pattern_at;
use crate::pattern::Matcher;
use crate::rewrite::line_bytes;
use crate::rewrite::rewrite;
use crate::rewrite::rewritten;
use crate::rewrite::rules_of;
use crate::rewrite::Substitute;
use crate::stream::occurrences;
use crate::stream::records_view;
use crate::stream::retained_stream;
use std::borrow::Cow;
use vstd::prelude::*;

verus! {

/// A mapping from interned key to occurrence count, kept in a
/// `hashbrown::HashMap`.
#[verifier::external_body]
pub struct FrequencyTable<'a> {
    map: hashbrown::HashMap<&'a [u8], usize>,
}

/// What a table holds: the count stored for each key, keys taken as their
/// bytes.
pub uninterp spec fn table_counts(table: FrequencyTable) -> Map<Seq<u8>, usize>;

/// A ranked sequence as plain values.
pub open spec fn entries_view(entries: Seq<(&[u8], usize)>) -> Seq<(Seq<u8>, usize)> {
    entries.map_values(|e: (&[u8], usize)| (e.0@, e.1))
}

/// `entries` lists `counts`: every entry is a pair of the map, no key comes
/// twice, and every key of the map has its entry.
pub open spec fn lists(entries: Seq<(Seq<u8>, usize)>, counts: Map<Seq<u8>, usize>) -> bool {
    &&& forall|i: int|
        0 <= i < entries.len() ==> counts.contains_pair(
            (#[trigger] entries[i]).0,
            entries[i].1,
        )
    &&& forall|i: int, j: int|
        0 <= i < j < entries.len() ==> (#[trigger] entries[i]).0 != (#[trigger] entries[j]).0
    &&& forall|k: Seq<u8>|
        counts.contains_key(k) ==> exists|i: int|
            0 <= i < entries.len() && (#[trigger] entries[i]).0 == k
}

/// Every key of `counts` was counted at least once, and the keys are
/// finitely many.
pub open spec fn counted_once(counts: Map<Seq<u8>, usize>) -> bool {
    &&& counts.dom().finite()
    &&& forall|key: Seq<u8>| counts.contains_key(key) ==> #[trigger] counts[key] >= 1
}

/// The map of a table that holds nothing.
pub open spec fn no_counts() -> Map<Seq<u8>, usize> {
    Map::empty()
}

/// What one sequence holds, every rearrangement of it holds.
proof fn lemma_shared_member(
    a: Seq<(Seq<u8>, usize)>,
    b: Seq<(Seq<u8>, usize)>,
    x: (Seq<u8>, usize),
)
    requires
        a.to_multiset() == b.to_multiset(),
        a.contains(x),
    ensures
        b.contains(x),
{
    a.to_multiset_ensures();
    b.to_multiset_ensures();
    assert(a.to_multiset().count(x) > 0);
    assert(b.to_multiset().count(x) > 0);
}

/// A rearrangement of a listing of `counts` lists `counts` too.
pub proof fn lemma_lists_permuted(
    before: Seq<(Seq<u8>, usize)>,
    after: Seq<(Seq<u8>, usize)>,
    counts: Map<Seq<u8>, usize>,
)
    requires
        lists(before, counts),
        before.to_multiset() == after.to_multiset(),
    ensures
        lists(after, counts),
{
    before.to_multiset_ensures();
    after.to_multiset_ensures();
    assert(before.no_duplicates()) by {
        assert forall|i: int, j: int|
            0 <= i < before.len() && 0 <= j < before.len() && i != j implies before[i]
            != before[j] by {
            if i < j {
                assert(before[i].0 != before[j].0);
            } else {
                assert(before[j].0 != before[i].0);
            }
        }
    }
    before.lemma_multiset_has_no_duplicates();
    after.lemma_multiset_has_no_duplicates_conv();
    assert forall|i: int| 0 <= i < after.len() implies counts.contains_pair(
        (#[trigger] after[i]).0,
        after[i].1,
    ) by {
        lemma_shared_member(after, before, after[i]);
        let p = choose|p: int| 0 <= p < before.len() && before[p] == after[i];
        assert(counts.contains_pair(before[p].0, before[p].1));
    }
    assert forall|i: int, j: int| 0 <= i < j < after.len() implies (#[trigger] after[i]).0 != (
    #[trigger] after[j]).0 by {
        lemma_shared_member(after, before, after[i]);
        lemma_shared_member(after, before, after[j]);
        let p = choose|p: int| 0 <= p < before.len() && before[p] == after[i];
        let q = choose|q: int| 0 <= q < before.len() && before[q] == after[j];
        assert(after[i] != after[j]);
        if p < q {
            assert(before[p].0 != before[q].0);
        } else if q < p {
            assert(before[q].0 != before[p].0);
        }
    }
    assert forall|k: Seq<u8>| counts.contains_key(k) implies exists|i: int|
        0 <= i < after.len() && (#[trigger] after[i]).0 == k by {
        let p = choose|p: int| 0 <= p < before.len() && (#[trigger] before[p]).0 == k;
        lemma_shared_member(before, after, before[p]);
        let q = choose|q: int| 0 <= q < after.len() && after[q] == before[p];
        assert(after[q].0 == k);
    }
}

/// `counts` after one more occurrence of `key`: its count goes up by one, or
/// it enters with a count of one.
pub open spec fn bumped(counts: Map<Seq<u8>, usize>, key: Seq<u8>) -> Map<Seq<u8>, usize> {
    counts.insert(
        key,
        if counts.contains_key(key) {
            (counts[key] + 1) as usize
        } else {
            1
        },
    )
}

/// The count that `counts` holds for `key`: zero where the key is absent.
pub open spec fn tally_of(counts: Map<Seq<u8>, usize>, key: Seq<u8>) -> nat {
    if counts.contains_key(key) {
        counts[key] as nat
    } else {
        0
    }
}

/// Every count of `counts` can grow by `n` and still be held.
pub open spec fn room_for(counts: Map<Seq<u8>, usize>, n: nat) -> bool {
    forall|key: Seq<u8>| #[trigger] tally_of(counts, key) + n <= usize::MAX
}

/// `counts` after every record of `stream` was observed, in order.
pub open spec fn tallied(
    counts: Map<Seq<u8>, usize>,
    stream: Seq<Seq<u8>>,
) -> Map<Seq<u8>, usize>
    decreases stream.len(),
{
    if stream.len() == 0 {
        counts
    } else {
        bumped(tallied(counts, stream.drop_last()), stream.last())
    }
}

/// Observing a stream adds to each count the occurrences of its key, and
/// brings in exactly the keys that the stream holds.
pub proof fn lemma_tallied(counts: Map<Seq<u8>, usize>, stream: Seq<Seq<u8>>)
    requires
        room_for(counts, stream.len()),
    ensures
        forall|key: Seq<u8>| #[trigger]
            tally_of(tallied(counts, stream), key) == tally_of(counts, key) + occurrences(
                stream,
                key,
            ),
        forall|key: Seq<u8>| #[trigger]
            tallied(counts, stream).contains_key(key) <==> counts.contains_key(key)
                || stream.contains(key),
    decreases stream.len(),
{
    if stream.len() > 0 {
        let front = stream.drop_last();
        let last = stream.last();
        let before = tallied(counts, front);
        assert forall|key: Seq<u8>| #[trigger]
            tally_of(counts, key) + front.len() <= usize::MAX by {
            assert(tally_of(counts, key) + stream.len() <= usize::MAX);
        }
        lemma_tallied(counts, front);
        crate::stream::lemma_occurrences_bounds(front, last);
        assert(tally_of(before, last) == tally_of(counts, last) + occurrences(front, last));
        assert(tally_of(counts, last) + stream.len() <= usize::MAX);
        assert forall|key: Seq<u8>| #[trigger]
            tallied(counts, stream).contains_key(key) <==> counts.contains_key(key)
                || stream.contains(key) by {
            assert(before.contains_key(key) <==> counts.contains_key(key) || front.contains(key));
            if front.contains(key) {
                let i = choose|i: int| 0 <= i < front.len() && front[i] == key;
                assert(stream[i] == key);
            }
            if stream.contains(key) && key != last {
                let i = choose|i: int| 0 <= i < stream.len() && stream[i] == key;
                assert(front[i] == key);
            }
            if key == last {
                assert(stream[stream.len() - 1] == key);
            }
        }
        assert forall|key: Seq<u8>| #[trigger]
            tally_of(tallied(counts, stream), key) == tally_of(counts, key) + occurrences(
                stream,
                key,
            ) by {
            assert(tally_of(before, key) == tally_of(counts, key) + occurrences(front, key));
        }
    }
}

/// Adds one occurrence to a stored count.
pub fn count_up(count: &mut usize)
    requires
        *old(count) < usize::MAX,
    ensures
        *final(count) == *old(count) + 1,
{
    *count = *count + 1;
}

/// The entry of a key seen for the first time: its interned copy, counted
/// once.
pub fn first_entry<'a>(arena: &'a Interner, key: &[u8]) -> (entry: (&'a [u8], usize))
    ensures
        entry.0@ == key@,
        entry.1 == 1,
{
    (arena.intern(key), 1)
}

/// Calls `hashbrown::HashMap::default`.
///
/// Trusted: the new map holds nothing.
#[verifier::external_body]
fn table_new<'a>() -> (fresh: FrequencyTable<'a>)
    ensures
        table_counts(fresh) == no_counts(),
{
    FrequencyTable { map: hashbrown::HashMap::default() }
}

/// Calls `hashbrown::HashMap::raw_entry_mut`, then `from_key`, `and_modify`
/// and `or_insert_with` on the entry: one lookup that either updates the
/// count in place or inserts a new entry.
///
/// Trusted: where the key is present, [`count_up`] is applied to its count
/// and nothing else changes; where it is absent, what [`first_entry`] makes
/// is inserted and nothing else changes.
#[verifier::external_body]
fn table_upsert<'a>(table: &mut FrequencyTable<'a>, arena: &'a Interner, key: &[u8])
    requires
        table_counts(*old(table)).contains_key(key@) ==> table_counts(*old(table))[key@]
            < usize::MAX,
    ensures
        table_counts(*final(table)) == bumped(table_counts(*old(table)), key@),
{
    table.map.raw_entry_mut().from_key(key).and_modify(|_, count| count_up(count)).or_insert_with(
        || first_entry(arena, key),
    );
}

/// Calls `hashbrown::HashMap::get`.
///
/// Trusted: the count stored for the key comes back, or nothing where the
/// key is absent.
#[verifier::external_body]
fn table_get(table: &FrequencyTable<'_>, key: &[u8]) -> (count: Option<usize>)
    ensures
        count == if table_counts(*table).contains_key(key@) {
            Some(table_counts(*table)[key@])
        } else {
            None
        },
{
    table.map.get(key).copied()
}

/// Calls `hashbrown::HashMap::into_iter` and collects what it yields.
///
/// Trusted: each entry of the map comes out once, in an order that is not
/// specified.
#[verifier::external_body]
fn table_into_entries<'a>(table: FrequencyTable<'a>) -> (entries: Vec<(&'a [u8], usize)>)
    ensures
        lists(entries_view(entries@), table_counts(table)),
{
    table.map.into_iter().collect()
}

impl<'a> FrequencyTable<'a> {
    /// The table as a map from key bytes to count.
    pub open spec fn view(&self) -> Map<Seq<u8>, usize> {
        table_counts(*self)
    }

    /// How often `key` was observed: its stored count, or zero.
    pub open spec fn tally(&self, key: Seq<u8>) -> nat {
        tally_of(self@, key)
    }

    /// The table holds what observing records leaves in it: finitely many
    /// keys, none with a count of zero.
    pub open spec fn well_formed(&self) -> bool {
        counted_once(self@)
    }

    /// An empty table.
    pub fn new() -> (table: FrequencyTable<'a>)
        ensures
            table@ == no_counts(),
            table.well_formed(),
    {
        table_new()
    }

    /// Observes one retained record: a key already in the table has its count
    /// raised by one; a new key is interned and enters with a count of one.
    pub fn observe(&mut self, arena: &'a Interner, record: &[u8])
        requires
            old(self).tally(record@) < usize::MAX,
        ensures
            final(self)@ == bumped(old(self)@, record@),
            old(self).well_formed() ==> final(self).well_formed(),
    {
        table_upsert(self, arena, record)
    }

    /// The count stored for `key`, zero where the key is absent.
    pub fn count(&self, key: &[u8]) -> (n: usize)
        ensures
            n == self.tally(key@),
    {
        match table_get(self, key) {
            Some(c) => c,
            None => 0,
        }
    }

    /// Consumes the table into its entries, in no particular order.
    pub fn into_entries(self) -> (entries: Vec<(&'a [u8], usize)>)
        ensures
            lists(entries_view(entries@), self@),
    {
        table_into_entries(self)
    }
}

/// One step of the counting pass: a record that passes the filter is
/// rewritten and observed; any other leaves the table as it was.
pub fn count_line<'a>(
    line: &[u8],
    map: &mut FrequencyTable<'a>,
    arena: &'a Interner,
    including: Option<&Matcher>,
    excluding: Option<&Matcher>,
    substitutions: Option<&[Substitute<'_>]>,
)
    requires
        room_for(old(map)@, 1),
    ensures
        final(map)@ == if keeps(line@, pattern_at(including), pattern_at(excluding)) {
            bumped(old(map)@, rewritten(line@, rules_of(substitutions)))
        } else {
            old(map)@
        },
        old(map).well_formed() ==> final(map).well_formed(),
{
    if !should_keep(line, including, excluding) {
        return ;
    }
    let rewritten_line = match substitutions {
        Some(rules) => rewrite(line, rules),
        None => Cow::Borrowed(line),
    };
    let key = line_bytes(&rewritten_line);
    assert(map.tally(key@) + 1 <= usize::MAX);
    map.observe(arena, key);
}

/// The counting pass: every record that passes the filter is rewritten and
/// counted under what it was rewritten to.
pub fn build_map<'a>(
    records: &[Vec<u8>],
    map: &mut FrequencyTable<'a>,
    arena: &'a Interner,
    including: Option<Matcher>,
    excluding: Option<Matcher>,
    substitutions: Option<&[Substitute<'_>]>,
)
    requires
        room_for(old(map)@, records@.len()),
    ensures
        final(map)@ == tallied(
            old(map)@,
            retained_stream(
                records_view(records@),
                pattern_of(including),
                pattern_of(excluding),
                rules_of(substitutions),
            ),
        ),
        old(map).well_formed() ==> final(map).well_formed(),
{
    let ghost lines = records_view(records@);
    let ghost inc = pattern_of(including);
    let ghost exc = pattern_of(excluding);
    let ghost rules = rules_of(substitutions);
    let mut i: usize = 0;
    while i < records.len()
        invariant
            0 <= i <= records.len(),
            lines == records_view(records@),
            inc == pattern_of(including),
            exc == pattern_of(excluding),
            rules == rules_of(substitutions),
            room_for(old(map)@, records@.len()),
            map@ == tallied(old(map)@, retained_stream(lines.take(i as int), inc, exc, rules)),
            old(map).well_formed() ==> map.well_formed(),
            retained_stream(lines.take(i as int), inc, exc, rules).len() <= i,
        decreases records.len() - i,
    {
        let ghost seen = retained_stream(lines.take(i as int), inc, exc, rules);
        proof {
            assert(lines.take(i as int + 1).drop_last() == lines.take(i as int));
            assert(lines.take(i as int + 1).last() == records@[i as int]@);
            assert forall|key: Seq<u8>| #[trigger] tally_of(old(map)@, key) + seen.len()
                <= usize::MAX by {
                assert(tally_of(old(map)@, key) + records@.len() <= usize::MAX);
            }
            lemma_tallied(old(map)@, seen);
            assert forall|key: Seq<u8>| #[trigger] tally_of(map@, key) + 1 <= usize::MAX by {
                crate::stream::lemma_occurrences_bounds(seen, key);
                assert(tally_of(old(map)@, key) + records@.len() <= usize::MAX);
            }
        }
        count_line(
            records[i].as_slice(),
            map,
            arena,
            including.as_ref(),
            excluding.as_ref(),
            substitutions,
        );
        proof {
            let line = records@[i as int]@;
            let next = retained_stream(lines.take(i as int + 1), inc, exc, rules);
            if keeps(line, inc, exc) {
                assert(next == seen.push(rewritten(line, rules)));
                assert(next.drop_last() == seen);
                assert(next.last() == rewritten(line, rules));
            } else {
                assert(next == seen);
            }
        }
        i += 1;
    }
    proof {
        assert(lines.take(i as int) == lines);
    }
}

} // verus!
