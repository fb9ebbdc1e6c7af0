//! The report: which rows a ranked sequence gives, bounded by count or cut
//! to the last k with one row for the rest, and those rows as text.

use crate::error::EncodingError;
use crate::label::label_text;
use crate::label::other_label;
use crate::rank::FlatCounts;
use crate::table::entries_view;
use crate::text::decode;
use std::borrow::Cow;
use vstd::prelude::*;
use vstd::utf8::decode_utf8;
use vstd::utf8::valid_utf8;

verus! {

/// A row of the report as it is handed out: a count and its text.
pub type Row<'a> = (usize, Cow<'a, str>);

/// A row of the report before it becomes text.
pub enum RankedEntry<'a> {
    /// An entry of the table: a key and how often it was counted.
    Counted { count: usize, key: &'a [u8] },
    /// The row that stands for the entries a top-k report does not show:
    /// the sum of their counts, and how many they are.
    Summary { count: usize, collapsed: usize },
}

/// A row of the report before it becomes text, as plain values.
pub enum RankedValue {
    /// An entry of the table.
    Counted { count: usize, key: Seq<u8> },
    /// The row that stands for the entries not shown.
    Summary { count: usize, collapsed: usize },
}

impl<'a> View for RankedEntry<'a> {
    type V = RankedValue;

    open spec fn view(&self) -> RankedValue {
        match *self {
            RankedEntry::Counted { count, key } => RankedValue::Counted { count, key: key@ },
            RankedEntry::Summary { count, collapsed } => RankedValue::Summary { count, collapsed },
        }
    }
}

/// A sequence of rows as plain values.
pub open spec fn ranked_view(rows: Seq<RankedEntry>) -> Seq<RankedValue> {
    rows.map_values(|row: RankedEntry| row@)
}

/// A sequence of text rows as plain values.
pub open spec fn rows_view(rows: Seq<(usize, Cow<str>)>) -> Seq<(usize, Seq<char>)> {
    rows.map_values(|row: (usize, Cow<str>)| (row.0, row.1@))
}

/// The row of one entry.
pub open spec fn counted_row(entry: (Seq<u8>, usize)) -> RankedValue {
    RankedValue::Counted { count: entry.1, key: entry.0 }
}

/// The rows of a sequence of entries, one each, in order.
pub open spec fn counted(entries: Seq<(Seq<u8>, usize)>) -> Seq<RankedValue> {
    entries.map_values(|entry: (Seq<u8>, usize)| counted_row(entry))
}

/// The sum of the counts of `entries`.
pub open spec fn total(entries: Seq<(Seq<u8>, usize)>) -> nat
    decreases entries.len(),
{
    if entries.len() == 0 {
        0
    } else {
        total(entries.drop_last()) + entries.last().1 as nat
    }
}

/// The rows of a bounded report: the entries whose count lies between `min`
/// and `max`, both included, in the order they came in.
pub open spec fn bounded(
    entries: Seq<(Seq<u8>, usize)>,
    min: usize,
    max: usize,
) -> Seq<RankedValue>
    decreases entries.len(),
{
    if entries.len() == 0 {
        Seq::empty()
    } else {
        let front = bounded(entries.drop_last(), min, max);
        let entry = entries.last();
        if min <= entry.1 <= max {
            front.push(counted_row(entry))
        } else {
            front
        }
    }
}

/// How many entries a top-k report of `len` entries does not show.
pub open spec fn collapsed_of(len: nat, k: nat) -> nat {
    if len > k {
        (len - k) as nat
    } else {
        0
    }
}

/// Where the summary row goes among the entries `shown`: before the first
/// whose count exceeds `other`, or behind them all where there is none.
pub open spec fn summary_place(shown: Seq<(Seq<u8>, usize)>, other: nat) -> nat
    decreases shown.len(),
{
    if shown.len() == 0 {
        0
    } else {
        let place = summary_place(shown.drop_last(), other);
        if place < shown.len() - 1 {
            place
        } else if shown.last().1 > other {
            (shown.len() - 1) as nat
        } else {
            shown.len()
        }
    }
}

/// The rows of a top-k report: the last `k` entries in order, and among
/// them, at its place, one row for the entries before them.
pub open spec fn top_k(entries: Seq<(Seq<u8>, usize)>, k: nat) -> Seq<RankedValue> {
    let collapsed = collapsed_of(entries.len(), k);
    let other = total(entries.take(collapsed as int));
    let shown = entries.skip(collapsed as int);
    let place = summary_place(shown, other);
    counted(shown.take(place as int)).push(
        RankedValue::Summary { count: other as usize, collapsed: collapsed as usize },
    ) + counted(shown.skip(place as int))
}

/// The summary row's place is the first entry whose count exceeds `other`:
/// no entry before it does, and the entry at it, if there is one, does.
pub proof fn lemma_summary_place(shown: Seq<(Seq<u8>, usize)>, other: nat)
    ensures
        summary_place(shown, other) <= shown.len(),
        forall|i: int| 0 <= i < summary_place(shown, other) ==> (#[trigger] shown[i]).1 <= other,
        summary_place(shown, other) < shown.len() ==> shown[summary_place(shown, other) as int].1
            > other,
    decreases shown.len(),
{
    if shown.len() > 0 {
        let front = shown.drop_last();
        lemma_summary_place(front, other);
        assert forall|i: int| 0 <= i < summary_place(shown, other) implies (#[trigger] shown[i]).1
            <= other by {
            if i < front.len() {
                assert(shown[i] == front[i]);
            }
        }
        if summary_place(front, other) < front.len() {
            assert(shown[summary_place(front, other) as int] == front[summary_place(
                front,
                other,
            ) as int]);
        }
    }
}

/// A top-k report has one row for each entry it shows, which are the last
/// `k` or all where there are fewer, and besides them exactly one summary
/// row, whatever the entries are.
pub proof fn lemma_top_k_shape(entries: Seq<(Seq<u8>, usize)>, k: nat)
    ensures
        top_k(entries, k).len() == (if entries.len() < k {
            entries.len()
        } else {
            k
        }) + 1,
        exists|place: int|
            {
                &&& 0 <= place < top_k(entries, k).len()
                &&& #[trigger] top_k(entries, k)[place] is Summary
                &&& forall|i: int|
                    0 <= i < top_k(entries, k).len() && i != place ==> #[trigger] top_k(
                        entries,
                        k,
                    )[i] is Counted
            },
{
    let collapsed = collapsed_of(entries.len(), k);
    let other = total(entries.take(collapsed as int));
    let shown = entries.skip(collapsed as int);
    let place = summary_place(shown, other);
    lemma_summary_place(shown, other);
    let rows = top_k(entries, k);
    assert(rows[place as int] is Summary);
    assert forall|i: int|
        0 <= i < rows.len() && i != place implies #[trigger] rows[i] is Counted by {
        if i < place {
            assert(rows[i] == counted(shown.take(place as int))[i]);
        } else {
            assert(rows[i] == counted(shown.skip(place as int))[i - place - 1]);
        }
    }
}

/// The sum of the counts of the first entries is at most the sum of all.
pub proof fn lemma_total_grows(entries: Seq<(Seq<u8>, usize)>, n: int)
    requires
        0 <= n <= entries.len(),
    ensures
        total(entries.take(n)) <= total(entries),
    decreases entries.len(),
{
    if n == entries.len() {
        assert(entries.take(n) == entries);
    } else {
        assert(entries.drop_last().take(n) == entries.take(n));
        lemma_total_grows(entries.drop_last(), n);
    }
}

/// The rows of a bounded report. Entries counted less often than `min` or
/// more often than `max` are left out; the others stay in their order.
pub fn bounded_rows<'a>(
    collection: &FlatCounts<'a>,
    max: usize,
    min: usize,
) -> (rows: Vec<RankedEntry<'a>>)
    ensures
        ranked_view(rows@) == bounded(entries_view(collection@), min, max),
{
    let ghost entries = entries_view(collection@);
    let mut rows: Vec<RankedEntry<'a>> = Vec::new();
    let mut i: usize = 0;
    proof {
        assert(ranked_view(rows@) == bounded(entries.take(0), min, max));
    }
    while i < collection.len()
        invariant
            0 <= i <= collection.len(),
            entries == entries_view(collection@),
            ranked_view(rows@) == bounded(entries.take(i as int), min, max),
        decreases collection.len() - i,
    {
        let key = collection[i].0;
        let count = collection[i].1;
        let ghost before = ranked_view(rows@);
        proof {
            assert(entries.take(i as int + 1).drop_last() == entries.take(i as int));
            assert(entries.take(i as int + 1).last() == (key@, count));
        }
        if count <= max && count >= min {
            rows.push(RankedEntry::Counted { count, key });
            proof {
                assert(ranked_view(rows@) == before.push(counted_row((key@, count))));
            }
        }
        i += 1;
    }
    proof {
        assert(entries.take(i as int) == entries);
    }
    rows
}

/// The rows of a top-k report.
///
/// The entries before the last `k` are not shown one by one: their counts
/// are summed into one summary row, which also says how many they are. The
/// last `k` entries follow in their order, and the summary row is put
/// before the first of them whose count exceeds its sum, or behind them all
/// where none does. The summary row is always there, also where nothing
/// was left out and it counts zero.
pub fn top_k_rows<'a>(collection: &FlatCounts<'a>, k: usize) -> (rows: Vec<RankedEntry<'a>>)
    requires
        total(entries_view(collection@)) <= usize::MAX,
    ensures
        ranked_view(rows@) == top_k(entries_view(collection@), k as nat),
{
    let ghost entries = entries_view(collection@);
    let len = collection.len();
    let lbound = if len > k {
        len - k
    } else {
        0
    };
    let mut other_sum: usize = 0;
    let mut i: usize = 0;
    proof {
        assert(total(entries.take(0)) == 0);
    }
    while i < lbound
        invariant
            0 <= i <= lbound <= len,
            len == collection.len(),
            entries == entries_view(collection@),
            total(entries) <= usize::MAX,
            other_sum == total(entries.take(i as int)),
        decreases lbound - i,
    {
        proof {
            assert(entries.take(i as int + 1).drop_last() == entries.take(i as int));
            assert(entries.take(i as int + 1).last() == entries[i as int]);
            lemma_total_grows(entries, i as int + 1);
        }
        other_sum = other_sum + collection[i].1;
        i += 1;
    }
    let ghost shown = entries.skip(lbound as int);
    let ghost summary = RankedValue::Summary { count: other_sum, collapsed: lbound };
    let mut rows: Vec<RankedEntry<'a>> = Vec::new();
    let mut other_sum_written = false;
    let mut j: usize = lbound;
    proof {
        assert(ranked_view(rows@) == counted(shown.take(0)));
    }
    while j < len
        invariant
            lbound <= j <= len,
            len == collection.len(),
            entries == entries_view(collection@),
            shown == entries.skip(lbound as int),
            summary == (RankedValue::Summary { count: other_sum, collapsed: lbound }),
            other_sum_written <==> summary_place(shown.take(j - lbound), other_sum as nat) < j
                - lbound,
            other_sum_written ==> ranked_view(rows@) == counted(
                shown.take(j - lbound).take(
                    summary_place(shown.take(j - lbound), other_sum as nat) as int,
                ),
            ).push(summary) + counted(
                shown.take(j - lbound).skip(
                    summary_place(shown.take(j - lbound), other_sum as nat) as int,
                ),
            ),
            !other_sum_written ==> ranked_view(rows@) == counted(shown.take(j - lbound)),
        decreases len - j,
    {
        let key = collection[j].0;
        let value = collection[j].1;
        let ghost m = j - lbound;
        let ghost seen = shown.take(m);
        let ghost next = shown.take(m + 1);
        let ghost place = summary_place(seen, other_sum as nat) as int;
        let ghost entry = (key@, value);
        let ghost before = ranked_view(rows@);
        proof {
            lemma_summary_place(seen, other_sum as nat);
            assert(next.drop_last() == seen);
            assert(next.last() == entry);
            assert(shown[m] == entries[j as int]);
        }
        if !other_sum_written && value > other_sum {
            rows.push(RankedEntry::Summary { count: other_sum, collapsed: lbound });
            other_sum_written = true;
            proof {
                assert(ranked_view(rows@) == before.push(summary));
            }
        }
        let ghost middle = ranked_view(rows@);
        rows.push(RankedEntry::Counted { count: value, key });
        proof {
            assert(ranked_view(rows@) == middle.push(counted_row(entry)));
            let new_place = summary_place(next, other_sum as nat) as int;
            if place < m {
                assert(new_place == place);
                assert(next.take(place) == seen.take(place));
                assert(next.skip(place) == seen.skip(place).push(entry));
                assert(counted(next.skip(place)) == counted(seen.skip(place)).push(
                    counted_row(entry),
                ));
                assert(ranked_view(rows@) == counted(next.take(new_place)).push(summary) + counted(
                    next.skip(new_place),
                ));
            } else if value > other_sum {
                assert(new_place == m);
                assert(next.take(m) == seen);
                assert(next.skip(m) == seq![entry]);
                assert(counted(next.skip(m)) == seq![counted_row(entry)]);
                assert(ranked_view(rows@) == counted(next.take(new_place)).push(summary) + counted(
                    next.skip(new_place),
                ));
            } else {
                assert(new_place == m + 1);
                assert(counted(next) == counted(seen).push(counted_row(entry)));
            }
        }
        j += 1;
    }
    proof {
        assert(shown.take(len - lbound) == shown);
        lemma_summary_place(shown, other_sum as nat);
    }
    if !other_sum_written {
        rows.push(RankedEntry::Summary { count: other_sum, collapsed: lbound });
        proof {
            let place = summary_place(shown, other_sum as nat) as int;
            assert(place == shown.len());
            assert(shown.take(place) == shown);
            assert(counted(shown.skip(place)) == Seq::<RankedValue>::empty());
            assert(ranked_view(rows@) == counted(shown).push(summary));
            assert(ranked_view(rows@) == counted(shown.take(place)).push(summary) + counted(
                shown.skip(place),
            ));
        }
    }
    rows
}

/// The text row of a row: its count, and its key read as text or, for the
/// summary row, its label.
pub open spec fn rendered(row: RankedValue) -> (usize, Seq<char>) {
    match row {
        RankedValue::Counted { count, key } => (count, decode_utf8(key)),
        RankedValue::Summary { count, collapsed } => (count, label_text(collapsed as nat)),
    }
}

/// Whether a row can become text: a counted row needs a key that is valid
/// UTF-8.
pub open spec fn printable(row: RankedValue) -> bool {
    match row {
        RankedValue::Counted { count, key } => valid_utf8(key),
        RankedValue::Summary { count, collapsed } => true,
    }
}

/// Every row of `rows` can become text.
pub open spec fn all_printable(rows: Seq<RankedValue>) -> bool {
    forall|i: int| 0 <= i < rows.len() ==> printable(#[trigger] rows[i])
}

/// The text rows of `rows`.
pub open spec fn rendered_rows(rows: Seq<RankedValue>) -> Seq<(usize, Seq<char>)> {
    rows.map_values(|row: RankedValue| rendered(row))
}

/// What writing `rows` has to do: append the text row of each, in order, up
/// to the first whose key is not valid UTF-8, which fails the run with an
/// error that carries the key.
pub open spec fn written(
    rows: Seq<RankedValue>,
    before: Seq<(usize, Seq<char>)>,
    after: Seq<(usize, Seq<char>)>,
    r: Result<(), EncodingError>,
) -> bool {
    match r {
        Ok(()) => all_printable(rows) && after == before + rendered_rows(rows),
        Err(e) => exists|j: int|
            {
                &&& 0 <= j < rows.len()
                &&& all_printable(rows.take(j))
                &&& #[trigger] rows[j] matches RankedValue::Counted { count, key }
                &&& !valid_utf8(key)
                &&& e.bytes@ == key
                &&& after == before + rendered_rows(rows.take(j))
            },
    }
}

/// Appends `rows` to `out` as text rows. Nothing is dropped or replaced: a
/// key that is not valid UTF-8 ends the run with an error, and the rows
/// before it stay in `out`.
pub fn render<'a>(
    rows: &Vec<RankedEntry<'a>>,
    out: &mut Vec<Row<'a>>,
) -> (r: Result<(), EncodingError>)
    ensures
        written(ranked_view(rows@), rows_view(old(out)@), rows_view(final(out)@), r),
{
    let ghost plan = ranked_view(rows@);
    let ghost start = rows_view(out@);
    let mut i: usize = 0;
    proof {
        assert(rows_view(out@) == start + rendered_rows(plan.take(0)));
    }
    while i < rows.len()
        invariant
            0 <= i <= rows.len(),
            plan == ranked_view(rows@),
            start == rows_view(old(out)@),
            all_printable(plan.take(i as int)),
            rows_view(out@) == start + rendered_rows(plan.take(i as int)),
        decreases rows.len() - i,
    {
        let ghost before = rows_view(out@);
        proof {
            assert(plan.take(i as int + 1).drop_last() == plan.take(i as int));
            assert(plan.take(i as int + 1).last() == plan[i as int]);
            assert(rendered_rows(plan.take(i as int + 1)) == rendered_rows(
                plan.take(i as int),
            ).push(rendered(plan[i as int])));
        }
        match rows[i] {
            RankedEntry::Counted { count, key } => {
                match decode(key) {
                    Ok(text) => {
                        out.push((count, Cow::Borrowed(text)));
                    },
                    Err(e) => {
                        return Err(e);
                    },
                }
            },
            RankedEntry::Summary { count, collapsed } => {
                out.push((count, Cow::Owned(other_label(collapsed))));
            },
        }
        proof {
            assert(rows_view(out@) == before.push(rendered(plan[i as int])));
            assert forall|n: int| 0 <= n < i + 1 implies printable(
                #[trigger] plan.take(i as int + 1)[n],
            ) by {
                if n < i {
                    assert(plan.take(i as int + 1)[n] == plan.take(i as int)[n]);
                }
            }
        }
        i += 1;
    }
    proof {
        assert(plan.take(i as int) == plan);
    }
    Ok(())
}

/// Writes a bounded report: the entries whose count lies between `min` and
/// `max`, in the order of `collection`, each as a row of count and text.
pub fn write_flatcounts<'a>(
    out: &mut Vec<Row<'a>>,
    collection: FlatCounts<'a>,
    max: usize,
    min: usize,
) -> (r: Result<(), EncodingError>)
    ensures
        written(
            bounded(entries_view(collection@), min, max),
            rows_view(old(out)@),
            rows_view(final(out)@),
            r,
        ),
{
    let rows = bounded_rows(&collection, max, min);
    render(&rows, out)
}

/// Writes a top-k report: the last `k` entries of `collection` as rows of
/// count and text, and among them the summary row for the rest.
pub fn write_topk_flatcounts<'a>(
    out: &mut Vec<Row<'a>>,
    collection: FlatCounts<'a>,
    k: usize,
) -> (r: Result<(), EncodingError>)
    requires
        total(entries_view(collection@)) <= usize::MAX,
    ensures
        written(
            top_k(entries_view(collection@), k as nat),
            rows_view(old(out)@),
            rows_view(final(out)@),
            r,
        ),
{
    let rows = top_k_rows(&collection, k);
    render(&rows, out)
}

} // verus!
