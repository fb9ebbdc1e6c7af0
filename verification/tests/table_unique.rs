use linefreq::arena::Interner;
use linefreq::error::EncodingError;
use linefreq::pattern::Matcher;
use linefreq::rewrite::Substitute;
use linefreq::table::{build_map, count_line, count_up, first_entry, FrequencyTable};
use linefreq::text::decode;
use linefreq::unique::{stream_unique, unique_line, SeenSet};

fn pattern(text: &str) -> Matcher {
    match Matcher::new(text) {
        Ok(m) => m,
        Err(_) => panic!("pattern refused: {}", text),
    }
}

fn records(input: &[&[u8]]) -> Vec<Vec<u8>> {
    input.iter().map(|l| l.to_vec()).collect()
}

#[test]
fn intern_copies_the_bytes() {
    let arena = Interner::new();
    let mut buffer = b"first".to_vec();
    let key = arena.intern(&buffer);
    assert_ne!(key.as_ptr(), buffer.as_ptr());
    buffer.copy_from_slice(b"other");
    assert_eq!(key, b"first");
}

#[test]
fn intern_does_not_deduplicate() {
    let arena = Interner::new();
    let one = arena.intern(b"same");
    let two = arena.intern(b"same");
    assert_eq!(one, two);
    assert_ne!(one.as_ptr(), two.as_ptr());
}

#[test]
fn intern_takes_empty_and_large_slices() {
    let arena = Interner::new();
    assert_eq!(arena.intern(b""), b"");
    let large = vec![7u8; 1 << 20];
    assert_eq!(arena.intern(&large), &large[..]);
}

#[test]
fn interner_grows_as_keys_come_in() {
    let arena = Interner::new();
    let keys: Vec<&[u8]> = (0..64u8).map(|i| arena.intern(&vec![i; 256 * 1024])).collect();
    for (i, key) in keys.iter().enumerate() {
        assert_eq!(key.len(), 256 * 1024);
        assert!(key.iter().all(|byte| *byte as usize == i));
    }
}

#[test]
fn count_up_adds_one() {
    let mut count = 41usize;
    count_up(&mut count);
    assert_eq!(count, 42);
}

#[test]
fn first_entry_counts_once() {
    let arena = Interner::new();
    let entry = first_entry(&arena, b"key");
    assert_eq!(entry, (&b"key"[..], 1));
}

#[test]
fn new_table_is_empty() {
    let table = FrequencyTable::new();
    assert_eq!(table.count(b"a"), 0);
    assert!(table.into_entries().is_empty());
}

#[test]
fn observe_counts_each_key() {
    let arena = Interner::new();
    let mut table = FrequencyTable::new();
    table.observe(&arena, b"a");
    table.observe(&arena, b"b");
    table.observe(&arena, b"a");
    assert_eq!(table.count(b"a"), 2);
    assert_eq!(table.count(b"b"), 1);
    assert_eq!(table.count(b"c"), 0);
}

#[test]
fn observe_keeps_keys_after_the_record_buffer_changes() {
    let arena = Interner::new();
    let mut table = FrequencyTable::new();
    let mut buffer = b"one".to_vec();
    table.observe(&arena, &buffer);
    buffer.copy_from_slice(b"two");
    table.observe(&arena, &buffer);
    buffer.copy_from_slice(b"one");
    table.observe(&arena, &buffer);
    assert_eq!(table.count(b"one"), 2);
    assert_eq!(table.count(b"two"), 1);
}

#[test]
fn observe_compares_keys_byte_for_byte() {
    let arena = Interner::new();
    let mut table = FrequencyTable::new();
    table.observe(&arena, b"a");
    table.observe(&arena, b"A");
    table.observe(&arena, b"a ");
    table.observe(&arena, b"");
    assert_eq!(table.count(b"a"), 1);
    assert_eq!(table.count(b"A"), 1);
    assert_eq!(table.count(b"a "), 1);
    assert_eq!(table.count(b""), 1);
}

#[test]
fn into_entries_lists_each_key_once() {
    let arena = Interner::new();
    let mut table = FrequencyTable::new();
    for record in [&b"x"[..], b"y", b"x", b"z", b"x", b"y"] {
        table.observe(&arena, record);
    }
    let mut entries = table.into_entries();
    entries.sort();
    assert_eq!(entries, vec![(&b"x"[..], 3), (&b"y"[..], 2), (&b"z"[..], 1)]);
}

#[test]
fn count_line_drops_filtered_lines() {
    let arena = Interner::new();
    let mut map = FrequencyTable::new();
    let exc = pattern("^#");
    count_line(b"# skipped", &mut map, &arena, None, Some(&exc), None);
    count_line(b"counted", &mut map, &arena, None, Some(&exc), None);
    let entries = map.into_entries();
    assert_eq!(entries, vec![(&b"counted"[..], 1)]);
}

#[test]
fn count_line_counts_under_the_rewritten_record() {
    let arena = Interner::new();
    let mut map = FrequencyTable::new();
    let rules: Vec<Substitute<'_>> = vec![(pattern(r"\d+"), &b"N"[..])];
    count_line(b"id 17", &mut map, &arena, None, None, Some(&rules));
    count_line(b"id 4", &mut map, &arena, None, None, Some(&rules));
    assert_eq!(map.count(b"id N"), 2);
    assert_eq!(map.count(b"id 17"), 0);
}

#[test]
fn count_line_filters_on_the_record_as_read() {
    let arena = Interner::new();
    let mut map = FrequencyTable::new();
    let inc = pattern("b");
    let rules: Vec<Substitute<'_>> = vec![(pattern("b"), &b"a"[..])];
    count_line(b"b", &mut map, &arena, Some(&inc), None, Some(&rules));
    count_line(b"a", &mut map, &arena, Some(&inc), None, Some(&rules));
    assert_eq!(map.count(b"a"), 1);
}

#[test]
fn build_map_adds_to_what_the_table_holds() {
    let arena = Interner::new();
    let mut map = FrequencyTable::new();
    build_map(&records(&[b"a", b"b"]), &mut map, &arena, None, None, None);
    build_map(&records(&[b"b", b"c"]), &mut map, &arena, None, None, None);
    assert_eq!(map.count(b"a"), 1);
    assert_eq!(map.count(b"b"), 2);
    assert_eq!(map.count(b"c"), 1);
}

#[test]
fn build_map_of_no_records_changes_nothing() {
    let arena = Interner::new();
    let mut map = FrequencyTable::new();
    build_map(&records(&[]), &mut map, &arena, None, None, None);
    assert!(map.into_entries().is_empty());
}

#[test]
fn decode_reads_valid_text() {
    assert_eq!(decode(b"plain"), Ok("plain"));
    assert_eq!(decode("grüße €".as_bytes()), Ok("grüße €"));
    assert_eq!(decode(b""), Ok(""));
}

#[test]
fn decode_refuses_invalid_text() {
    assert_eq!(decode(b"a\xffb"), Err(EncodingError { bytes: b"a\xffb".to_vec() }));
    assert_eq!(decode(b"\xc3"), Err(EncodingError { bytes: b"\xc3".to_vec() }));
}

#[test]
fn new_set_has_seen_nothing() {
    let arena = Interner::new();
    let mut set = SeenSet::new();
    assert_eq!(set.observe(&arena, b""), Some(&b""[..]));
}

#[test]
fn set_observe_hands_back_new_keys_only() {
    let arena = Interner::new();
    let mut set = SeenSet::new();
    let mut buffer = b"k1".to_vec();
    let first = set.observe(&arena, &buffer);
    assert_eq!(first, Some(&b"k1"[..]));
    buffer.copy_from_slice(b"k2");
    assert_eq!(set.observe(&arena, &buffer), Some(&b"k2"[..]));
    assert_eq!(first, Some(&b"k1"[..]));
    assert_eq!(set.observe(&arena, b"k1"), None);
    assert_eq!(set.observe(&arena, b"k2"), None);
}

#[test]
fn unique_line_skips_filtered_and_repeated_lines() {
    let arena = Interner::new();
    let mut set = SeenSet::new();
    let inc = pattern("^k");
    assert_eq!(unique_line(b"drop", &mut set, &arena, Some(&inc), None, None), Ok(None));
    assert_eq!(unique_line(b"keep", &mut set, &arena, Some(&inc), None, None), Ok(Some("keep")));
    assert_eq!(unique_line(b"keep", &mut set, &arena, Some(&inc), None, None), Ok(None));
}

#[test]
fn unique_line_compares_rewritten_records() {
    let arena = Interner::new();
    let mut set = SeenSet::new();
    let rules: Vec<Substitute<'_>> = vec![(pattern(r"\d"), &b"#"[..])];
    assert_eq!(unique_line(b"a1", &mut set, &arena, None, None, Some(&rules)), Ok(Some("a#")));
    assert_eq!(unique_line(b"a2", &mut set, &arena, None, None, Some(&rules)), Ok(None));
}

#[test]
fn unique_line_fails_on_invalid_text() {
    let arena = Interner::new();
    let mut set = SeenSet::new();
    assert_eq!(
        unique_line(b"\xff", &mut set, &arena, None, None, None),
        Err(EncodingError { bytes: b"\xff".to_vec() })
    );
}

#[test]
fn stream_unique_appends_to_what_was_emitted() {
    let arena = Interner::new();
    let mut out = vec!["earlier"];
    let r = stream_unique(&records(&[b"b", b"a", b"b"]), &mut out, &arena, None, None, None);
    assert_eq!(r, Ok(()));
    assert_eq!(out, vec!["earlier", "b", "a"]);
}

#[test]
fn stream_unique_of_no_records_emits_nothing() {
    let arena = Interner::new();
    let mut out: Vec<&str> = Vec::new();
    assert_eq!(stream_unique(&records(&[]), &mut out, &arena, None, None, None), Ok(()));
    assert!(out.is_empty());
}

#[test]
fn stream_unique_stops_at_the_first_invalid_record() {
    let arena = Interner::new();
    let mut out = Vec::new();
    let input = records(&[b"x", b"y", b"x", b"\xfe", b"z", b"\xff"]);
    let r = stream_unique(&input, &mut out, &arena, None, None, None);
    assert_eq!(r, Err(EncodingError { bytes: b"\xfe".to_vec() }));
    assert_eq!(out, vec!["x", "y"]);
}

#[test]
fn stream_unique_ignores_invalid_records_that_the_filter_drops() {
    let arena = Interner::new();
    let mut out = Vec::new();
    let exc = pattern(r"(?-u)\xff");
    let input = records(&[b"x", b"\xff", b"y"]);
    let r = stream_unique(&input, &mut out, &arena, None, Some(exc), None);
    assert_eq!(r, Ok(()));
    assert_eq!(out, vec!["x", "y"]);
}
