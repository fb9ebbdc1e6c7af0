use linefreq::error::EncodingError;
use linefreq::label::{decimal_text, digit_text, other_label};
use linefreq::rank::FlatCounts;
use linefreq::report::{
    bounded_rows, render, top_k_rows, write_flatcounts, write_topk_flatcounts, RankedEntry, Row,
};
use std::borrow::Cow;

fn shape(rows: &[RankedEntry<'_>]) -> Vec<(usize, Option<Vec<u8>>, usize)> {
    rows.iter()
        .map(|row| match row {
            RankedEntry::Counted { count, key } => (*count, Some(key.to_vec()), 0),
            RankedEntry::Summary { count, collapsed } => (*count, None, *collapsed),
        })
        .collect()
}

fn entry(count: usize, key: &[u8]) -> (usize, Option<Vec<u8>>, usize) {
    (count, Some(key.to_vec()), 0)
}

fn summary(count: usize, collapsed: usize) -> (usize, Option<Vec<u8>>, usize) {
    (count, None, collapsed)
}

fn text_rows(rows: &[Row<'_>]) -> Vec<(usize, String)> {
    rows.iter().map(|(count, text)| (*count, text.to_string())).collect()
}

fn text_row(count: usize, text: &str) -> (usize, String) {
    (count, text.to_string())
}

fn ascending() -> FlatCounts<'static> {
    vec![(b"a", 1), (b"b", 2), (b"c", 3), (b"d", 5), (b"e", 8)]
}

#[test]
fn digits_are_their_characters() {
    let all: Vec<&str> = (0..10).map(digit_text).collect();
    assert_eq!(all, vec!["0", "1", "2", "3", "4", "5", "6", "7", "8", "9"]);
}

#[test]
fn decimal_text_writes_numbers_without_leading_zeros() {
    assert_eq!(decimal_text(0), "0");
    assert_eq!(decimal_text(7), "7");
    assert_eq!(decimal_text(10), "10");
    assert_eq!(decimal_text(109), "109");
    assert_eq!(decimal_text(1234567890), "1234567890");
    assert_eq!(decimal_text(usize::MAX), usize::MAX.to_string());
}

#[test]
fn other_label_names_the_number_of_entries() {
    assert_eq!(other_label(0), "other lines (0 elements)");
    assert_eq!(other_label(2), "other lines (2 elements)");
    assert_eq!(other_label(1500), "other lines (1500 elements)");
}

#[test]
fn bounded_rows_without_bounds_keep_everything() {
    let rows = bounded_rows(&ascending(), usize::MAX, 0);
    assert_eq!(
        shape(&rows),
        vec![entry(1, b"a"), entry(2, b"b"), entry(3, b"c"), entry(5, b"d"), entry(8, b"e")]
    );
}

#[test]
fn bounded_rows_include_both_bounds() {
    let rows = bounded_rows(&ascending(), 5, 2);
    assert_eq!(shape(&rows), vec![entry(2, b"b"), entry(3, b"c"), entry(5, b"d")]);
}

#[test]
fn bounded_rows_keep_the_order_they_are_given() {
    let collection: FlatCounts<'_> = vec![(b"x", 9), (b"y", 1), (b"z", 4)];
    let rows = bounded_rows(&collection, 9, 2);
    assert_eq!(shape(&rows), vec![entry(9, b"x"), entry(4, b"z")]);
}

#[test]
fn bounded_rows_with_crossed_bounds_are_empty() {
    assert!(bounded_rows(&ascending(), 2, 3).is_empty());
}

#[test]
fn top_k_puts_the_summary_before_the_first_larger_count() {
    let rows = top_k_rows(&ascending(), 2);
    assert_eq!(shape(&rows), vec![entry(5, b"d"), summary(6, 3), entry(8, b"e")]);
}

#[test]
fn top_k_puts_the_summary_first_when_every_shown_count_is_larger() {
    let rows = top_k_rows(&ascending(), 4);
    assert_eq!(
        shape(&rows),
        vec![summary(1, 1), entry(2, b"b"), entry(3, b"c"), entry(5, b"d"), entry(8, b"e")]
    );
    let collection: FlatCounts<'_> = vec![(b"a", 1), (b"b", 1), (b"c", 3)];
    assert_eq!(shape(&top_k_rows(&collection, 1)), vec![summary(2, 2), entry(3, b"c")]);
}

#[test]
fn top_k_puts_the_summary_behind_a_count_equal_to_its_sum() {
    let rows = top_k_rows(&ascending(), 3);
    assert_eq!(
        shape(&rows),
        vec![entry(3, b"c"), summary(3, 2), entry(5, b"d"), entry(8, b"e")]
    );
}

#[test]
fn top_k_puts_the_summary_last_when_no_shown_count_is_larger() {
    let collection: FlatCounts<'_> = vec![(b"a", 1), (b"b", 2), (b"c", 3)];
    assert_eq!(shape(&top_k_rows(&collection, 1)), vec![entry(3, b"c"), summary(3, 2)]);
    let even: FlatCounts<'_> = vec![(b"a", 4), (b"b", 4), (b"c", 4), (b"d", 4)];
    assert_eq!(
        shape(&top_k_rows(&even, 2)),
        vec![entry(4, b"c"), entry(4, b"d"), summary(8, 2)]
    );
}

#[test]
fn top_k_of_fewer_entries_than_k_shows_all_and_an_empty_summary() {
    let collection: FlatCounts<'_> = vec![(b"a", 1), (b"b", 2)];
    assert_eq!(
        shape(&top_k_rows(&collection, 5)),
        vec![summary(0, 0), entry(1, b"a"), entry(2, b"b")]
    );
    assert_eq!(
        shape(&top_k_rows(&collection, 2)),
        vec![summary(0, 0), entry(1, b"a"), entry(2, b"b")]
    );
}

#[test]
fn top_k_of_no_entries_is_the_summary_alone() {
    let collection: FlatCounts<'_> = Vec::new();
    assert_eq!(shape(&top_k_rows(&collection, 3)), vec![summary(0, 0)]);
}

#[test]
fn top_zero_collapses_everything() {
    assert_eq!(shape(&top_k_rows(&ascending(), 0)), vec![summary(19, 5)]);
}

#[test]
fn top_k_applies_the_rule_to_any_order() {
    let descending: FlatCounts<'_> = vec![(b"e", 8), (b"d", 5), (b"c", 3), (b"b", 2), (b"a", 1)];
    assert_eq!(
        shape(&top_k_rows(&descending, 2)),
        vec![entry(2, b"b"), entry(1, b"a"), summary(16, 3)]
    );
    let by_name: FlatCounts<'_> = vec![(b"a", 1), (b"b", 9), (b"c", 1), (b"d", 7)];
    assert_eq!(
        shape(&top_k_rows(&by_name, 3)),
        vec![summary(1, 1), entry(9, b"b"), entry(1, b"c"), entry(7, b"d")]
    );
}

#[test]
fn top_k_has_one_row_for_each_shown_entry_and_one_summary() {
    for len in 0..6usize {
        let keys: Vec<Vec<u8>> = (0..len).map(|i| vec![b'a' + i as u8]).collect();
        let collection: FlatCounts<'_> =
            keys.iter().enumerate().map(|(i, key)| (&key[..], i + 1)).collect();
        for k in 1..8usize {
            let rows = top_k_rows(&collection, k);
            let summaries =
                rows.iter().filter(|row| matches!(row, RankedEntry::Summary { .. })).count();
            assert_eq!(summaries, 1);
            assert_eq!(rows.len(), len.min(k) + 1);
        }
    }
}

#[test]
fn render_writes_counts_and_texts() {
    let rows = vec![
        RankedEntry::Counted { count: 3, key: b"caf\xc3\xa9" },
        RankedEntry::Summary { count: 4, collapsed: 12 },
        RankedEntry::Counted { count: 7, key: b"" },
    ];
    let mut out = Vec::new();
    assert_eq!(render(&rows, &mut out), Ok(()));
    assert_eq!(
        text_rows(&out),
        vec![text_row(3, "café"), text_row(4, "other lines (12 elements)"), text_row(7, "")]
    );
    assert!(matches!(out[0].1, Cow::Borrowed(_)));
}

#[test]
fn render_appends_to_what_is_there() {
    let rows = vec![RankedEntry::Counted { count: 1, key: b"new" }];
    let mut out: Vec<Row<'_>> = vec![(9, Cow::Borrowed("old"))];
    assert_eq!(render(&rows, &mut out), Ok(()));
    assert_eq!(text_rows(&out), vec![text_row(9, "old"), text_row(1, "new")]);
}

#[test]
fn render_stops_at_the_first_key_that_is_not_text() {
    let rows = vec![
        RankedEntry::Counted { count: 1, key: b"fine" },
        RankedEntry::Summary { count: 0, collapsed: 0 },
        RankedEntry::Counted { count: 2, key: b"bad\xff" },
        RankedEntry::Counted { count: 3, key: b"\xfe" },
    ];
    let mut out = Vec::new();
    assert_eq!(render(&rows, &mut out), Err(EncodingError { bytes: b"bad\xff".to_vec() }));
    assert_eq!(
        text_rows(&out),
        vec![text_row(1, "fine"), text_row(0, "other lines (0 elements)")]
    );
}

#[test]
fn write_flatcounts_applies_the_bounds() {
    let mut out = Vec::new();
    assert_eq!(write_flatcounts(&mut out, ascending(), 3, 2), Ok(()));
    assert_eq!(text_rows(&out), vec![text_row(2, "b"), text_row(3, "c")]);
}

#[test]
fn write_flatcounts_ignores_invalid_keys_outside_the_bounds() {
    let collection: FlatCounts<'_> = vec![(b"\xff", 1), (b"ok", 2)];
    let mut out = Vec::new();
    assert_eq!(write_flatcounts(&mut out, collection, usize::MAX, 2), Ok(()));
    assert_eq!(text_rows(&out), vec![text_row(2, "ok")]);
}

#[test]
fn write_flatcounts_fails_on_an_invalid_key_within_the_bounds() {
    let collection: FlatCounts<'_> = vec![(b"ok", 1), (b"\xff", 2), (b"later", 3)];
    let mut out = Vec::new();
    assert_eq!(
        write_flatcounts(&mut out, collection, usize::MAX, 0),
        Err(EncodingError { bytes: b"\xff".to_vec() })
    );
    assert_eq!(text_rows(&out), vec![text_row(1, "ok")]);
}

#[test]
fn write_topk_flatcounts_writes_the_summary_as_a_row() {
    let mut out = Vec::new();
    assert_eq!(write_topk_flatcounts(&mut out, ascending(), 2), Ok(()));
    assert_eq!(
        text_rows(&out),
        vec![text_row(5, "d"), text_row(6, "other lines (3 elements)"), text_row(8, "e")]
    );
}

#[test]
fn write_topk_flatcounts_never_reads_collapsed_keys_as_text() {
    let collection: FlatCounts<'_> = vec![(b"\xff", 1), (b"\xfe", 1), (b"shown", 5)];
    let mut out = Vec::new();
    assert_eq!(write_topk_flatcounts(&mut out, collection, 1), Ok(()));
    assert_eq!(
        text_rows(&out),
        vec![text_row(2, "other lines (2 elements)"), text_row(5, "shown")]
    );
}

#[test]
fn write_topk_flatcounts_fails_on_a_shown_key_that_is_not_text() {
    let collection: FlatCounts<'_> = vec![(b"a", 1), (b"\xff", 5)];
    let mut out = Vec::new();
    assert_eq!(
        write_topk_flatcounts(&mut out, collection, 1),
        Err(EncodingError { bytes: b"\xff".to_vec() })
    );
    assert_eq!(text_rows(&out), vec![text_row(1, "other lines (1 elements)")]);
}
