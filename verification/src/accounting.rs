//! What the counts add up to: a table built from a stream of records
//! accounts for every retained record exactly once, and has one entry for
//! each record that unique mode would emit.

use crate::report::total;
use crate::stream::first_seen;
use crate::stream::lemma_first_seen;
use crate::stream::lemma_retained_length;
use crate::stream::lemma_without;
use crate::stream::occurrences;
use crate::stream::retained_count;
use crate::stream::retained_stream;
use crate::stream::without;
use crate::table::lemma_tallied;
use crate::table::lists;
use crate::table::no_counts;
use crate::table::room_for;
use crate::table::tallied;
use crate::table::tally_of;
use crate::unique::all_text;
use crate::unique::texts_of;
use vstd::prelude::*;
use vstd::utf8::decode_utf8_encode_utf8;

verus! {

/// The keys of a ranked sequence, in its order.
pub open spec fn keys_of(entries: Seq<(Seq<u8>, usize)>) -> Seq<Seq<u8>> {
    entries.map_values(|entry: (Seq<u8>, usize)| entry.0)
}

/// The occurrences in `stream` of each key of `keys`, summed.
pub open spec fn occurrences_sum(keys: Seq<Seq<u8>>, stream: Seq<Seq<u8>>) -> nat
    decreases keys.len(),
{
    if keys.len() == 0 {
        0
    } else {
        occurrences_sum(keys.drop_last(), stream) + occurrences(stream, keys.last())
    }
}

/// Taking out of a stream a value that is none of `keys` leaves the sum of
/// their occurrences as it was.
proof fn lemma_sum_ignores(keys: Seq<Seq<u8>>, stream: Seq<Seq<u8>>, key: Seq<u8>)
    requires
        !keys.contains(key),
    ensures
        occurrences_sum(keys, without(stream, key)) == occurrences_sum(keys, stream),
    decreases keys.len(),
{
    if keys.len() > 0 {
        let front = keys.drop_last();
        lemma_without(stream, key);
        if front.contains(key) {
            let i = choose|i: int| 0 <= i < front.len() && front[i] == key;
            assert(keys[i] == key);
        }
        assert(keys[keys.len() - 1] == keys.last());
        lemma_sum_ignores(front, stream, key);
        assert(occurrences(without(stream, key), keys.last()) == occurrences(stream, keys.last()));
    }
}

/// A table built from nothing holds exactly one count for each value of the
/// stream it observed: the number of its occurrences, which is at least one.
pub proof fn lemma_table_holds_occurrences(stream: Seq<Seq<u8>>)
    requires
        stream.len() <= usize::MAX,
    ensures
        forall|key: Seq<u8>| #[trigger]
            tallied(no_counts(), stream).contains_key(key) <==> stream.contains(key),
        forall|key: Seq<u8>|
            stream.contains(key) ==> #[trigger] tallied(no_counts(), stream)[key] == occurrences(
                stream,
                key,
            ) && occurrences(stream, key) >= 1,
{
    assert(room_for(no_counts(), stream.len())) by {
        assert forall|key: Seq<u8>| #[trigger] tally_of(no_counts(), key) + stream.len()
            <= usize::MAX by {}
    }
    lemma_tallied(no_counts(), stream);
    assert forall|key: Seq<u8>| stream.contains(key) implies #[trigger] tallied(
        no_counts(),
        stream,
    )[key] == occurrences(stream, key) && occurrences(stream, key) >= 1 by {
        crate::stream::lemma_occurrences_bounds(stream, key);
        assert(tally_of(tallied(no_counts(), stream), key) == tally_of(no_counts(), key)
            + occurrences(stream, key));
    }
}

/// Keys that are all different and hold every value of a stream account for
/// each of its records once: their occurrences sum to its length.
pub proof fn lemma_sum_covers(keys: Seq<Seq<u8>>, stream: Seq<Seq<u8>>)
    requires
        keys.no_duplicates(),
        forall|x: Seq<u8>| stream.contains(x) ==> keys.contains(x),
    ensures
        occurrences_sum(keys, stream) == stream.len(),
    decreases keys.len(),
{
    if keys.len() == 0 {
        if stream.len() > 0 {
            assert(stream.contains(stream[0]));
            assert(keys.contains(stream[0]));
        }
    } else {
        let key = keys.last();
        let front = keys.drop_last();
        let rest = without(stream, key);
        lemma_without(stream, key);
        assert(keys[keys.len() - 1] == key);
        assert forall|x: Seq<u8>| rest.contains(x) implies front.contains(x) by {
            assert(stream.contains(x) && x != key);
            assert(keys.contains(x));
            let i = choose|i: int| 0 <= i < keys.len() && keys[i] == x;
            assert(front[i] == x);
        }
        lemma_sum_covers(front, rest);
        if front.contains(key) {
            let i = choose|i: int| 0 <= i < front.len() && front[i] == key;
            assert(keys[i] == key);
        }
        lemma_sum_ignores(front, stream, key);
    }
}

/// Where each entry holds the occurrences of its key, the counts sum to the
/// occurrences of the keys.
proof fn lemma_total_of_listing(entries: Seq<(Seq<u8>, usize)>, stream: Seq<Seq<u8>>)
    requires
        forall|i: int|
            0 <= i < entries.len() ==> (#[trigger] entries[i]).1 == occurrences(
                stream,
                entries[i].0,
            ),
    ensures
        total(entries) == occurrences_sum(keys_of(entries), stream),
    decreases entries.len(),
{
    if entries.len() > 0 {
        let front = entries.drop_last();
        assert(keys_of(entries).drop_last() == keys_of(front));
        assert(keys_of(entries).last() == entries.last().0);
        assert forall|i: int| 0 <= i < front.len() implies (#[trigger] front[i]).1 == occurrences(
            stream,
            front[i].0,
        ) by {
            assert(front[i] == entries[i]);
        }
        lemma_total_of_listing(front, stream);
        assert(entries[entries.len() - 1] == entries.last());
    }
}

/// The counts of a table built from a stream sum to the length of the
/// stream, in whatever order its entries are listed.
pub proof fn lemma_counts_sum_to_stream(entries: Seq<(Seq<u8>, usize)>, stream: Seq<Seq<u8>>)
    requires
        stream.len() <= usize::MAX,
        lists(entries, tallied(no_counts(), stream)),
    ensures
        total(entries) == stream.len(),
{
    let counts = tallied(no_counts(), stream);
    let keys = keys_of(entries);
    assert(room_for(no_counts(), stream.len())) by {
        assert forall|key: Seq<u8>| #[trigger] tally_of(no_counts(), key) + stream.len()
            <= usize::MAX by {}
    }
    lemma_tallied(no_counts(), stream);
    assert forall|i: int| 0 <= i < entries.len() implies (#[trigger] entries[i]).1 == occurrences(
        stream,
        entries[i].0,
    ) by {
        assert(counts.contains_pair(entries[i].0, entries[i].1));
        assert(tally_of(counts, entries[i].0) == tally_of(no_counts(), entries[i].0) + occurrences(
            stream,
            entries[i].0,
        ));
    }
    lemma_total_of_listing(entries, stream);
    assert(keys.no_duplicates()) by {
        assert forall|i: int, j: int|
            0 <= i < keys.len() && 0 <= j < keys.len() && i != j implies keys[i] != keys[j] by {
            if i < j {
                assert(entries[i].0 != entries[j].0);
            } else {
                assert(entries[j].0 != entries[i].0);
            }
        }
    }
    assert forall|x: Seq<u8>| stream.contains(x) implies keys.contains(x) by {
        assert(counts.contains_key(x));
        let i = choose|i: int| 0 <= i < entries.len() && (#[trigger] entries[i]).0 == x;
        assert(keys[i] == x);
    }
    lemma_sum_covers(keys, stream);
}

/// The counts of a table that the counting pass built from nothing sum to
/// the number of records that pass the filter: each such record is counted
/// once, under what it was rewritten to.
pub proof fn lemma_counts_sum_to_retained(
    entries: Seq<(Seq<u8>, usize)>,
    records: Seq<Seq<u8>>,
    including: Option<Seq<char>>,
    excluding: Option<Seq<char>>,
    rules: Seq<(Seq<char>, Seq<u8>)>,
)
    requires
        records.len() <= usize::MAX,
        lists(
            entries,
            tallied(no_counts(), retained_stream(records, including, excluding, rules)),
        ),
    ensures
        total(entries) == retained_count(records, including, excluding),
{
    lemma_retained_length(records, including, excluding, rules);
    lemma_counts_sum_to_stream(entries, retained_stream(records, including, excluding, rules));
}

/// Different keys that are valid UTF-8 are different texts.
pub proof fn lemma_texts_distinct(keys: Seq<Seq<u8>>)
    requires
        keys.no_duplicates(),
        all_text(keys),
    ensures
        texts_of(keys).no_duplicates(),
{
    let texts = texts_of(keys);
    assert forall|i: int, j: int|
        0 <= i < texts.len() && 0 <= j < texts.len() && i != j implies texts[i] != texts[j] by {
        decode_utf8_encode_utf8(keys[i]);
        decode_utf8_encode_utf8(keys[j]);
        assert(keys[i] != keys[j]);
    }
}

/// Unique mode emits as many texts, all different, as the table built from
/// the same retained stream has entries.
pub proof fn lemma_unique_matches_table(entries: Seq<(Seq<u8>, usize)>, stream: Seq<Seq<u8>>)
    requires
        lists(entries, tallied(no_counts(), stream)),
        all_text(first_seen(stream)),
    ensures
        texts_of(first_seen(stream)).no_duplicates(),
        texts_of(first_seen(stream)).len() == entries.len(),
{
    let firsts = first_seen(stream);
    let keys = keys_of(entries);
    let counts = tallied(no_counts(), stream);
    lemma_first_seen(stream);
    lemma_texts_distinct(firsts);
    lemma_tallied_keys(stream);
    assert(keys.no_duplicates()) by {
        assert forall|i: int, j: int|
            0 <= i < keys.len() && 0 <= j < keys.len() && i != j implies keys[i] != keys[j] by {
            if i < j {
                assert(entries[i].0 != entries[j].0);
            } else {
                assert(entries[j].0 != entries[i].0);
            }
        }
    }
    assert(keys.to_set() =~= firsts.to_set()) by {
        assert forall|x: Seq<u8>| keys.to_set().contains(x) <==> firsts.to_set().contains(x) by {
            if keys.contains(x) {
                let i = choose|i: int| 0 <= i < keys.len() && keys[i] == x;
                assert(counts.contains_pair(entries[i].0, entries[i].1));
                assert(firsts.contains(x));
            }
            if firsts.contains(x) {
                assert(stream.contains(x));
                assert(counts.contains_key(x));
                let i = choose|i: int| 0 <= i < entries.len() && (#[trigger] entries[i]).0 == x;
                assert(keys[i] == x);
            }
        }
    }
    keys.unique_seq_to_set();
    firsts.unique_seq_to_set();
}

/// The keys of a table built from a stream are the values of the stream.
pub proof fn lemma_tallied_keys(stream: Seq<Seq<u8>>)
    ensures
        forall|key: Seq<u8>| #[trigger]
            tallied(no_counts(), stream).contains_key(key) <==> stream.contains(key),
    decreases stream.len(),
{
    if stream.len() > 0 {
        let front = stream.drop_last();
        lemma_tallied_keys(front);
        assert forall|key: Seq<u8>| #[trigger]
            tallied(no_counts(), stream).contains_key(key) <==> stream.contains(key) by {
            assert(tallied(no_counts(), front).contains_key(key) <==> front.contains(key));
            if front.contains(key) {
                let i = choose|i: int| 0 <= i < front.len() && front[i] == key;
                assert(stream[i] == key);
            }
            if stream.contains(key) && key != stream.last() {
                let i = choose|i: int| 0 <= i < stream.len() && stream[i] == key;
                assert(front[i] == key);
            }
            if key == stream.last() {
                assert(stream[stream.len() - 1] == key);
            }
        }
    }
}

} // verus!
