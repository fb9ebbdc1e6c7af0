//! The counting report as the options ask for it: which rows are written
//! from the ranked entries, and the whole of counting, ranking and writing
//! as one function of the input.

use crate::accounting::lemma_counts_sum_to_stream;
use crate::arena::Interner;
use crate::cli::Args;
use crate::error::EncodingError;
use crate::pattern::pattern_of;
use crate::pattern::Matcher;
use crate::rank::ordered;
use crate::rank::FlatCounts;
use crate::rank::sort_collection;
use crate::report::bounded;
use crate::report::rows_view;
use crate::report::top_k;
use crate::report::total;
use crate::report::write_flatcounts;
use crate::report::write_topk_flatcounts;
use crate::report::written;
use crate::report::RankedValue;
use crate::report::Row;
use crate::rewrite::rules_of;
use crate::rewrite::Substitute;
use crate::stream::lemma_retained_length;
use crate::stream::records_view;
use crate::stream::retained_count;
use crate::stream::retained_stream;
use crate::table::build_map;
use crate::table::entries_view;
use crate::table::lists;
use crate::table::no_counts;
use crate::table::room_for;
use crate::table::tallied;
use crate::table::tally_of;
use crate::table::FrequencyTable;
use vstd::prelude::*;

verus! {

/// The least count that a bounded report shows: zero where none was asked
/// for.
pub open spec fn least_count(args: Args) -> usize {
    match args.min {
        Some(n) => n,
        None => 0,
    }
}

/// The greatest count that a bounded report shows: the greatest count
/// there is where none was asked for.
pub open spec fn greatest_count(args: Args) -> usize {
    match args.max {
        Some(n) => n,
        None => usize::MAX,
    }
}

/// The rows that the options ask for, given the ranked entries: a top-k
/// report where a k above zero was given, else a bounded report.
pub open spec fn planned(entries: Seq<(Seq<u8>, usize)>, args: Args) -> Seq<RankedValue> {
    match args.last_k {
        Some(k) if k > 0 => top_k(entries, k as nat),
        _ => bounded(entries, least_count(args), greatest_count(args)),
    }
}

/// Writes the report that `args` asks for from the ranked entries: a top-k
/// report where a k above zero was given, else a report bounded by the
/// least and the greatest count that were asked for.
pub fn write_report<'a>(
    out: &mut Vec<Row<'a>>,
    collection: FlatCounts<'a>,
    args: &Args,
) -> (r: Result<(), EncodingError>)
    requires
        args.last_k matches Some(k) && k > 0 ==> total(entries_view(collection@)) <= usize::MAX,
    ensures
        written(
            planned(entries_view(collection@), *args),
            rows_view(old(out)@),
            rows_view(final(out)@),
            r,
        ),
{
    let k = args.last_k();
    if k > 0 {
        write_topk_flatcounts(out, collection, k)
    } else {
        let max = match args.max {
            Some(n) => n,
            None => usize::MAX,
        };
        let min = match args.min {
            Some(n) => n,
            None => 0,
        };
        write_flatcounts(out, collection, max, min)
    }
}

/// Counts `records` and writes the report that `args` asks for.
///
/// The records that pass the filter are rewritten and counted, so that the
/// counts sum to the number of records that pass; the entries are put in
/// the order of the sort policy, in which entries that the policy does not
/// tell apart may come either way round; and the rows of a top-k or of a
/// bounded report are appended to `out` as text.
pub fn count_report<'a>(
    records: &[Vec<u8>],
    out: &mut Vec<Row<'a>>,
    arena: &'a Interner,
    args: &Args,
    including: Option<Matcher>,
    excluding: Option<Matcher>,
    substitutions: Option<&[Substitute<'_>]>,
) -> (r: Result<(), EncodingError>)
    ensures
        exists|entries: Seq<(Seq<u8>, usize)>|
            {
                &&& #[trigger] lists(
                    entries,
                    tallied(
                        no_counts(),
                        retained_stream(
                            records_view(records@),
                            pattern_of(including),
                            pattern_of(excluding),
                            rules_of(substitutions),
                        ),
                    ),
                )
                &&& total(entries) == retained_count(
                    records_view(records@),
                    pattern_of(including),
                    pattern_of(excluding),
                )
                &&& !args.skip_sorting ==> ordered(entries, args.sort_by_name, args.descending)
                &&& written(
                    planned(entries, *args),
                    rows_view(old(out)@),
                    rows_view(final(out)@),
                    r,
                )
            },
{
    let ghost stream = retained_stream(
        records_view(records@),
        pattern_of(including),
        pattern_of(excluding),
        rules_of(substitutions),
    );
    let mut map = FrequencyTable::new();
    let input_len = records.len();
    assert(records_view(records@).len() == input_len);
    assert(room_for(map@, records@.len())) by {
        assert forall|key: Seq<u8>| #[trigger] tally_of(map@, key) + records@.len()
            <= usize::MAX by {}
    }
    build_map(records, &mut map, arena, including, excluding, substitutions);
    let collection = sort_collection(map, args.descending, args.skip_sorting, args.sort_by_name);
    let ghost entries = entries_view(collection@);
    proof {
        lemma_retained_length(
            records_view(records@),
            pattern_of(including),
            pattern_of(excluding),
            rules_of(substitutions),
        );
        lemma_counts_sum_to_stream(entries, stream);
    }
    let r = write_report(out, collection, args);
    assert(lists(entries, tallied(no_counts(), stream)));
    r
}

} // verus!
