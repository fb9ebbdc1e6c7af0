//! The stream of retained records, as mathematics: what the filter and the
//! rewriter make of the input, how often each value occurs in it, and where
//! each value occurs first.

use crate::filter::keeps;
use crate::rewrite::rewritten;
use vstd::prelude::*;

verus! {

/// The input records as plain values.
pub open spec fn records_view(records: Seq<Vec<u8>>) -> Seq<Seq<u8>> {
    records.map_values(|r: Vec<u8>| r@)
}

/// The records that pass the filter, each rewritten, in input order.
pub open spec fn retained_stream(
    records: Seq<Seq<u8>>,
    including: Option<Seq<char>>,
    excluding: Option<Seq<char>>,
    rules: Seq<(Seq<char>, Seq<u8>)>,
) -> Seq<Seq<u8>>
    decreases records.len(),
{
    if records.len() == 0 {
        Seq::empty()
    } else {
        let front = retained_stream(records.drop_last(), including, excluding, rules);
        if keeps(records.last(), including, excluding) {
            front.push(rewritten(records.last(), rules))
        } else {
            front
        }
    }
}

/// The number of records that pass the filter.
pub open spec fn retained_count(
    records: Seq<Seq<u8>>,
    including: Option<Seq<char>>,
    excluding: Option<Seq<char>>,
) -> nat
    decreases records.len(),
{
    if records.len() == 0 {
        0
    } else {
        let front = retained_count(records.drop_last(), including, excluding);
        if keeps(records.last(), including, excluding) {
            front + 1
        } else {
            front
        }
    }
}

/// How often `key` occurs in `stream`.
pub open spec fn occurrences(stream: Seq<Seq<u8>>, key: Seq<u8>) -> nat
    decreases stream.len(),
{
    if stream.len() == 0 {
        0
    } else if stream.last() == key {
        occurrences(stream.drop_last(), key) + 1
    } else {
        occurrences(stream.drop_last(), key)
    }
}

/// The distinct values of `stream`, each at the place of its first
/// occurrence.
pub open spec fn first_seen(stream: Seq<Seq<u8>>) -> Seq<Seq<u8>>
    decreases stream.len(),
{
    if stream.len() == 0 {
        Seq::empty()
    } else {
        let front = first_seen(stream.drop_last());
        if front.contains(stream.last()) {
            front
        } else {
            front.push(stream.last())
        }
    }
}

/// `stream` without the occurrences of `key`.
pub open spec fn without(stream: Seq<Seq<u8>>, key: Seq<u8>) -> Seq<Seq<u8>>
    decreases stream.len(),
{
    if stream.len() == 0 {
        Seq::empty()
    } else if stream.last() == key {
        without(stream.drop_last(), key)
    } else {
        without(stream.drop_last(), key).push(stream.last())
    }
}

/// The retained stream is as long as the number of records that pass the
/// filter: rewriting changes a record, never whether it is counted.
pub proof fn lemma_retained_length(
    records: Seq<Seq<u8>>,
    including: Option<Seq<char>>,
    excluding: Option<Seq<char>>,
    rules: Seq<(Seq<char>, Seq<u8>)>,
)
    ensures
        retained_stream(records, including, excluding, rules).len() == retained_count(
            records,
            including,
            excluding,
        ),
        retained_count(records, including, excluding) <= records.len(),
    decreases records.len(),
{
    if records.len() > 0 {
        lemma_retained_length(records.drop_last(), including, excluding, rules);
    }
}

/// A value occurs in a stream at most as often as the stream is long, and at
/// least once where the stream holds it.
pub proof fn lemma_occurrences_bounds(stream: Seq<Seq<u8>>, key: Seq<u8>)
    ensures
        occurrences(stream, key) <= stream.len(),
        occurrences(stream, key) > 0 <==> stream.contains(key),
    decreases stream.len(),
{
    if stream.len() > 0 {
        let front = stream.drop_last();
        lemma_occurrences_bounds(front, key);
        if stream.last() == key {
            assert(stream[stream.len() - 1] == key);
        } else if front.contains(key) {
            let i = choose|i: int| 0 <= i < front.len() && front[i] == key;
            assert(stream[i] == key);
        } else if stream.contains(key) {
            let i = choose|i: int| 0 <= i < stream.len() && stream[i] == key;
            assert(front[i] == key);
        }
    }
}

/// Taking a value out of a stream shortens it by that value's occurrences,
/// leaves the occurrences of every other value as they were, and leaves only
/// values that the stream held.
pub proof fn lemma_without(stream: Seq<Seq<u8>>, key: Seq<u8>)
    ensures
        without(stream, key).len() + occurrences(stream, key) == stream.len(),
        !without(stream, key).contains(key),
        forall|other: Seq<u8>|
            other != key ==> #[trigger] occurrences(without(stream, key), other) == occurrences(
                stream,
                other,
            ),
        forall|other: Seq<u8>| #[trigger]
            without(stream, key).contains(other) ==> stream.contains(other) && other != key,
    decreases stream.len(),
{
    if stream.len() > 0 {
        let front = stream.drop_last();
        let rest = without(front, key);
        lemma_without(front, key);
        assert forall|other: Seq<u8>| #[trigger]
            without(stream, key).contains(other) implies stream.contains(other) && other
            != key by {
            let w = without(stream, key);
            let i = choose|i: int| 0 <= i < w.len() && w[i] == other;
            if stream.last() != key && i == w.len() - 1 {
                assert(stream[stream.len() - 1] == other);
            } else {
                assert(rest[i] == other);
                assert(rest.contains(other));
                let j = choose|j: int| 0 <= j < front.len() && front[j] == other;
                assert(stream[j] == other);
            }
        }
        if stream.last() != key {
            assert(without(stream, key).drop_last() == rest);
            assert(without(stream, key).last() == stream.last());
        }
        assert forall|other: Seq<u8>| other != key implies #[trigger] occurrences(
            without(stream, key),
            other,
        ) == occurrences(stream, other) by {
            assert(occurrences(rest, other) == occurrences(front, other));
        }
    }
}

/// The values seen first are the values of the stream, each once.
pub proof fn lemma_first_seen(stream: Seq<Seq<u8>>)
    ensures
        first_seen(stream).no_duplicates(),
        forall|key: Seq<u8>| #[trigger] first_seen(stream).contains(key) <==> stream.contains(key),
        first_seen(stream).len() <= stream.len(),
    decreases stream.len(),
{
    if stream.len() > 0 {
        let front = stream.drop_last();
        let seen = first_seen(front);
        let last = stream.last();
        lemma_first_seen(front);
        assert forall|key: Seq<u8>| #[trigger]
            first_seen(stream).contains(key) <==> stream.contains(key) by {
            if first_seen(stream).contains(key) {
                let fs = first_seen(stream);
                let i = choose|i: int| 0 <= i < fs.len() && fs[i] == key;
                if seen.contains(last) || i < seen.len() {
                    assert(seen[i] == key);
                    assert(seen.contains(key));
                    assert(front.contains(key));
                    let j = choose|j: int| 0 <= j < front.len() && front[j] == key;
                    assert(stream[j] == key);
                } else {
                    assert(stream[stream.len() - 1] == key);
                }
            }
            if stream.contains(key) {
                let i = choose|i: int| 0 <= i < stream.len() && stream[i] == key;
                if i < front.len() {
                    assert(front[i] == key);
                    assert(front.contains(key));
                    assert(seen.contains(key));
                    let j = choose|j: int| 0 <= j < seen.len() && seen[j] == key;
                    assert(first_seen(stream)[j] == key);
                } else {
                    assert(key == last);
                    if seen.contains(last) {
                    } else {
                        assert(first_seen(stream)[seen.len() as int] == key);
                    }
                }
            }
        }
    }
}

/// The retained stream of the first `n` records opens the retained stream
/// of all of them.
pub proof fn lemma_retained_grows(
    records: Seq<Seq<u8>>,
    n: int,
    including: Option<Seq<char>>,
    excluding: Option<Seq<char>>,
    rules: Seq<(Seq<char>, Seq<u8>)>,
)
    requires
        0 <= n <= records.len(),
    ensures
        retained_stream(records.take(n), including, excluding, rules).len() <= retained_stream(
            records,
            including,
            excluding,
            rules,
        ).len(),
        retained_stream(records, including, excluding, rules).take(
            retained_stream(records.take(n), including, excluding, rules).len() as int,
        ) == retained_stream(records.take(n), including, excluding, rules),
    decreases records.len(),
{
    let whole = retained_stream(records, including, excluding, rules);
    if n == records.len() {
        assert(records.take(n) == records);
        assert(whole.take(whole.len() as int) == whole);
    } else {
        let front = records.drop_last();
        assert(front.take(n) == records.take(n));
        lemma_retained_grows(front, n, including, excluding, rules);
        let part = retained_stream(records.take(n), including, excluding, rules);
        let most = retained_stream(front, including, excluding, rules);
        assert(whole.take(part.len() as int) == most.take(part.len() as int));
    }
}

/// The values seen first in the first `n` records of a stream open the
/// values seen first in all of it.
pub proof fn lemma_first_seen_grows(stream: Seq<Seq<u8>>, n: int)
    requires
        0 <= n <= stream.len(),
    ensures
        first_seen(stream.take(n)).len() <= first_seen(stream).len(),
        first_seen(stream).take(first_seen(stream.take(n)).len() as int) == first_seen(
            stream.take(n),
        ),
    decreases stream.len(),
{
    let whole = first_seen(stream);
    if n == stream.len() {
        assert(stream.take(n) == stream);
        assert(whole.take(whole.len() as int) == whole);
    } else {
        let front = stream.drop_last();
        assert(front.take(n) == stream.take(n));
        lemma_first_seen_grows(front, n);
        let part = first_seen(stream.take(n));
        let most = first_seen(front);
        assert(whole.take(part.len() as int) == most.take(part.len() as int));
    }
}

} // verus!
