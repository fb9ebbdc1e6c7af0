//! Ranking: the table's entries in the order that the sort policy asks for.

use crate::bytes::bytes_le;
use crate::bytes::bytes_lt;
use crate::bytes::first_difference;
use crate::bytes::lemma_bytes_le_total;
use crate::bytes::lemma_bytes_lt_transitive;
use crate::bytes::lemma_bytes_trichotomy;
use crate::bytes::lemma_decided_at;
use crate::table::entries_view;
use crate::table::lemma_lists_permuted;
use crate::table::lists;
use crate::table::FrequencyTable;
use std::cmp::Ordering;
use vstd::prelude::*;
use vstd::std_specs::cmp::OrdSpec;

verus! {

/// The entries of a table, each a key and its count.
pub type FlatCounts<'a> = Vec<(&'a [u8], usize)>;

/// How two keys stand to each other in byte-lexicographic order.
pub open spec fn key_ordering(a: Seq<u8>, b: Seq<u8>) -> Ordering {
    if a == b {
        Ordering::Equal
    } else if bytes_lt(a, b) {
        Ordering::Less
    } else {
        Ordering::Greater
    }
}

/// How two counts stand to each other.
pub open spec fn count_ordering(a: usize, b: usize) -> Ordering {
    if a < b {
        Ordering::Less
    } else if a > b {
        Ordering::Greater
    } else {
        Ordering::Equal
    }
}

/// How two entries stand to each other under a sort policy: by key or by
/// count, and from the smallest or from the largest.
pub open spec fn entry_ordering(
    a: (Seq<u8>, usize),
    b: (Seq<u8>, usize),
    sort_by_name: bool,
    descending: bool,
) -> Ordering {
    if sort_by_name {
        if descending {
            key_ordering(b.0, a.0)
        } else {
            key_ordering(a.0, b.0)
        }
    } else {
        if descending {
            count_ordering(b.1, a.1)
        } else {
            count_ordering(a.1, b.1)
        }
    }
}

/// Under the sort policy, `a` may stand before `b`.
pub open spec fn precedes(
    a: (Seq<u8>, usize),
    b: (Seq<u8>, usize),
    sort_by_name: bool,
    descending: bool,
) -> bool {
    if sort_by_name {
        if descending {
            bytes_le(b.0, a.0)
        } else {
            bytes_le(a.0, b.0)
        }
    } else {
        if descending {
            a.1 >= b.1
        } else {
            a.1 <= b.1
        }
    }
}

/// `entries` are in the order of the sort policy: each entry may stand
/// before every entry after it.
pub open spec fn ordered(
    entries: Seq<(Seq<u8>, usize)>,
    sort_by_name: bool,
    descending: bool,
) -> bool {
    forall|i: int, j: int|
        0 <= i < j < entries.len() ==> precedes(
            #[trigger] entries[i],
            #[trigger] entries[j],
            sort_by_name,
            descending,
        )
}

/// An entry may stand before another exactly where the comparison does not
/// put it after.
pub proof fn lemma_precedes(
    a: (Seq<u8>, usize),
    b: (Seq<u8>, usize),
    sort_by_name: bool,
    descending: bool,
)
    ensures
        precedes(a, b, sort_by_name, descending) <==> entry_ordering(
            a,
            b,
            sort_by_name,
            descending,
        ) != Ordering::Greater,
{
    lemma_bytes_trichotomy(a.0, b.0);
    lemma_bytes_trichotomy(b.0, a.0);
}

/// The comparison of entries is a total order under every sort policy: an
/// entry equals itself, turning a comparison round turns its answer round,
/// and "not after" carries over a middle entry.
pub proof fn lemma_entry_ordering_total(
    a: (Seq<u8>, usize),
    b: (Seq<u8>, usize),
    c: (Seq<u8>, usize),
    sort_by_name: bool,
    descending: bool,
)
    ensures
        entry_ordering(a, a, sort_by_name, descending) == Ordering::Equal,
        entry_ordering(a, b, sort_by_name, descending) == Ordering::Less <==> entry_ordering(
            b,
            a,
            sort_by_name,
            descending,
        ) == Ordering::Greater,
        entry_ordering(a, b, sort_by_name, descending) == Ordering::Equal <==> entry_ordering(
            b,
            a,
            sort_by_name,
            descending,
        ) == Ordering::Equal,
        entry_ordering(a, b, sort_by_name, descending) != Ordering::Greater && entry_ordering(
            b,
            c,
            sort_by_name,
            descending,
        ) != Ordering::Greater ==> entry_ordering(a, c, sort_by_name, descending)
            != Ordering::Greater,
{
    lemma_bytes_trichotomy(a.0, a.0);
    lemma_bytes_trichotomy(a.0, b.0);
    lemma_bytes_trichotomy(b.0, c.0);
    lemma_bytes_trichotomy(a.0, c.0);
    lemma_bytes_le_total(a.0, b.0, c.0);
    lemma_bytes_le_total(c.0, b.0, a.0);
    if bytes_lt(a.0, b.0) && bytes_lt(b.0, c.0) {
        lemma_bytes_lt_transitive(a.0, b.0, c.0);
    }
    if bytes_lt(c.0, b.0) && bytes_lt(b.0, a.0) {
        lemma_bytes_lt_transitive(c.0, b.0, a.0);
    }
}

/// In a sequence that is in the order of the sort policy, every entry and
/// the one after it stand as the policy says: counts do not fall when
/// sorting by count from the smallest and do not rise from the largest, and
/// likewise for keys when sorting by key.
pub proof fn lemma_adjacent_in_order(
    entries: Seq<(Seq<u8>, usize)>,
    sort_by_name: bool,
    descending: bool,
    i: int,
)
    requires
        ordered(entries, sort_by_name, descending),
        0 <= i,
        i + 1 < entries.len(),
    ensures
        !sort_by_name && !descending ==> entries[i].1 <= entries[i + 1].1,
        !sort_by_name && descending ==> entries[i].1 >= entries[i + 1].1,
        sort_by_name && !descending ==> bytes_le(entries[i].0, entries[i + 1].0),
        sort_by_name && descending ==> bytes_le(entries[i + 1].0, entries[i].0),
{
    assert(precedes(entries[i], entries[i + 1], sort_by_name, descending));
}

/// Compares two values by their own order.
pub fn sort_func<T: Ord>(a: &T, b: &T) -> (r: Ordering)
    ensures
        T::obeys_cmp_spec() ==> r == a.cmp_spec(b),
{
    a.cmp(b)
}

/// Compares two keys byte by byte: the first byte that differs decides, and
/// a key that ends first comes first.
pub fn key_order(a: &[u8], b: &[u8]) -> (r: Ordering)
    ensures
        r == key_ordering(a@, b@),
{
    let n = first_difference(a, b);
    proof {
        lemma_decided_at(a@, b@, n);
        lemma_bytes_trichotomy(a@, b@);
    }
    if n < a.len() && n < b.len() {
        sort_func(&a[n], &b[n])
    } else {
        let a_len = a.len();
        let b_len = b.len();
        sort_func(&a_len, &b_len)
    }
}

/// Compares two entries as the sort policy asks.
pub fn entry_order(
    a: &(&[u8], usize),
    b: &(&[u8], usize),
    sort_by_name: bool,
    descending: bool,
) -> (r: Ordering)
    ensures
        r == entry_ordering((a.0@, a.1), (b.0@, b.1), sort_by_name, descending),
{
    if sort_by_name {
        if descending {
            key_order(b.0, a.0)
        } else {
            key_order(a.0, b.0)
        }
    } else {
        if descending {
            sort_func(&b.1, &a.1)
        } else {
            sort_func(&a.1, &b.1)
        }
    }
}

/// Calls `sort_unstable_by` of `std` on the entries, with [`entry_order`] as
/// the comparison.
///
/// Trusted: the entries afterwards are the entries before, rearranged, and
/// the comparison puts none of them after one that follows it. The
/// comparison is a total order ([`lemma_entry_ordering_total`]), which is
/// what the sort asks for.
#[verifier::external_body]
fn sort_entries(entries: &mut Vec<(&[u8], usize)>, sort_by_name: bool, descending: bool)
    ensures
        entries_view(final(entries)@).to_multiset() == entries_view(old(entries)@).to_multiset(),
        forall|i: int, j: int|
            0 <= i < j < final(entries)@.len() ==> #[trigger] entry_ordering(
                entries_view(final(entries)@)[i],
                entries_view(final(entries)@)[j],
                sort_by_name,
                descending,
            ) != Ordering::Greater,
{
    entries.sort_unstable_by(|a, b| entry_order(a, b, sort_by_name, descending));
}

/// Ranks a table: its entries, each once, in the order of the sort policy.
/// With `skip_sorting` they come in the order the table gives them, which
/// is not specified.
pub fn sort_collection<'a>(
    map: FrequencyTable<'a>,
    descending: bool,
    skip_sorting: bool,
    sort_by_name: bool,
) -> (collection: FlatCounts<'a>)
    ensures
        lists(entries_view(collection@), map@),
        !skip_sorting ==> ordered(entries_view(collection@), sort_by_name, descending),
{
    let mut collection = map.into_entries();
    if skip_sorting {
        collection
    } else {
        let ghost before = entries_view(collection@);
        sort_entries(&mut collection, sort_by_name, descending);
        proof {
            let after = entries_view(collection@);
            lemma_lists_permuted(before, after, map@);
            assert forall|i: int, j: int| 0 <= i < j < after.len() implies precedes(
                #[trigger] after[i],
                #[trigger] after[j],
                sort_by_name,
                descending,
            ) by {
                assert(entry_ordering(after[i], after[j], sort_by_name, descending)
                    != Ordering::Greater);
                lemma_precedes(after[i], after[j], sort_by_name, descending);
            }
        }
        collection
    }
}

} // verus!
