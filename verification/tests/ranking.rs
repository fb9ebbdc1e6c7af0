use linefreq::arena::Interner;
use linefreq::bytes::first_difference;
use linefreq::rank::{entry_order, key_order, sort_collection, sort_func, FlatCounts};
use linefreq::table::FrequencyTable;
use std::cmp::Ordering;

fn table_of<'a>(arena: &'a Interner, input: &[&[u8]]) -> FrequencyTable<'a> {
    let mut table = FrequencyTable::new();
    for record in input {
        table.observe(arena, record);
    }
    table
}

fn sample<'a>(arena: &'a Interner) -> FrequencyTable<'a> {
    table_of(
        arena,
        &[b"pear", b"apple", b"fig", b"pear", b"fig", b"pear", b"apple", b"pear", b"kiwi", b"fig"],
    )
}

#[test]
fn sort_func_compares_in_the_order_of_the_type() {
    assert_eq!(sort_func(&1usize, &2usize), Ordering::Less);
    assert_eq!(sort_func(&2usize, &2usize), Ordering::Equal);
    assert_eq!(sort_func(&3usize, &2usize), Ordering::Greater);
    assert_eq!(sort_func(&b'a', &b'b'), Ordering::Less);
    assert_eq!(sort_func(&"b", &"a"), Ordering::Greater);
}

#[test]
fn first_difference_is_the_shared_opening() {
    assert_eq!(first_difference(b"", b""), 0);
    assert_eq!(first_difference(b"abc", b"abd"), 2);
    assert_eq!(first_difference(b"abc", b"abc"), 3);
    assert_eq!(first_difference(b"ab", b"abc"), 2);
    assert_eq!(first_difference(b"abc", b""), 0);
    assert_eq!(first_difference(b"x", b"y"), 0);
}

#[test]
fn key_order_is_byte_lexicographic() {
    assert_eq!(key_order(b"", b""), Ordering::Equal);
    assert_eq!(key_order(b"", b"a"), Ordering::Less);
    assert_eq!(key_order(b"a", b""), Ordering::Greater);
    assert_eq!(key_order(b"abc", b"abd"), Ordering::Less);
    assert_eq!(key_order(b"abd", b"abc"), Ordering::Greater);
    assert_eq!(key_order(b"ab", b"abc"), Ordering::Less);
    assert_eq!(key_order(b"abc", b"ab"), Ordering::Greater);
    assert_eq!(key_order(b"abc", b"abc"), Ordering::Equal);
    assert_eq!(key_order(b"Z", b"a"), Ordering::Less);
    assert_eq!(key_order(b"\xff", b"a"), Ordering::Greater);
    assert_eq!(key_order(b"b", b"abc"), Ordering::Greater);
}

#[test]
fn key_order_agrees_with_the_order_of_slices() {
    let keys: [&[u8]; 7] = [b"", b"a", b"ab", b"abc", b"b", b"\x00", b"\xff\x00"];
    for a in keys {
        for b in keys {
            assert_eq!(key_order(a, b), a.cmp(b));
        }
    }
}

#[test]
fn entry_order_follows_the_policy() {
    let small: (&[u8], usize) = (b"z", 1);
    let large: (&[u8], usize) = (b"a", 9);
    assert_eq!(entry_order(&small, &large, false, false), Ordering::Less);
    assert_eq!(entry_order(&small, &large, false, true), Ordering::Greater);
    assert_eq!(entry_order(&small, &large, true, false), Ordering::Greater);
    assert_eq!(entry_order(&small, &large, true, true), Ordering::Less);
    assert_eq!(entry_order(&small, &small, false, false), Ordering::Equal);
    assert_eq!(entry_order(&small, &small, true, true), Ordering::Equal);
}

#[test]
fn entry_order_ignores_what_the_policy_does_not_sort_by() {
    let one: (&[u8], usize) = (b"a", 3);
    let two: (&[u8], usize) = (b"b", 3);
    let three: (&[u8], usize) = (b"a", 4);
    assert_eq!(entry_order(&one, &two, false, false), Ordering::Equal);
    assert_eq!(entry_order(&one, &three, true, false), Ordering::Equal);
}

#[test]
fn sorts_by_count_ascending() {
    let arena = Interner::new();
    let sorted = sort_collection(sample(&arena), false, false, false);
    let expected: FlatCounts<'_> = vec![(b"kiwi", 1), (b"apple", 2), (b"fig", 3), (b"pear", 4)];
    assert_eq!(sorted, expected);
}

#[test]
fn sorts_by_count_descending() {
    let arena = Interner::new();
    let sorted = sort_collection(sample(&arena), true, false, false);
    let expected: FlatCounts<'_> = vec![(b"pear", 4), (b"fig", 3), (b"apple", 2), (b"kiwi", 1)];
    assert_eq!(sorted, expected);
}

#[test]
fn sorts_by_key_ascending() {
    let arena = Interner::new();
    let sorted = sort_collection(sample(&arena), false, false, true);
    let expected: FlatCounts<'_> = vec![(b"apple", 2), (b"fig", 3), (b"kiwi", 1), (b"pear", 4)];
    assert_eq!(sorted, expected);
}

#[test]
fn sorts_by_key_descending() {
    let arena = Interner::new();
    let sorted = sort_collection(sample(&arena), true, false, true);
    let expected: FlatCounts<'_> = vec![(b"pear", 4), (b"kiwi", 1), (b"fig", 3), (b"apple", 2)];
    assert_eq!(sorted, expected);
}

#[test]
fn skip_sorting_still_lists_every_entry_once() {
    let arena = Interner::new();
    let mut listed = sort_collection(sample(&arena), false, true, false);
    listed.sort();
    let expected: FlatCounts<'_> = vec![(b"apple", 2), (b"fig", 3), (b"kiwi", 1), (b"pear", 4)];
    assert_eq!(listed, expected);
}

#[test]
fn sorting_an_empty_table_gives_nothing() {
    let arena = Interner::new();
    assert!(sort_collection(table_of(&arena, &[]), false, false, false).is_empty());
}

#[test]
fn adjacent_entries_stand_as_the_policy_says() {
    let input: [&[u8]; 12] =
        [b"d", b"a", b"c", b"a", b"b", b"d", b"e", b"a", b"c", b"f", b"d", b"g"];
    let arena = Interner::new();
    let by_count = sort_collection(table_of(&arena, &input), false, false, false);
    assert_eq!(by_count.len(), 7);
    for pair in by_count.windows(2) {
        assert!(pair[0].1 <= pair[1].1);
    }
    let by_count_down = sort_collection(table_of(&arena, &input), true, false, false);
    for pair in by_count_down.windows(2) {
        assert!(pair[0].1 >= pair[1].1);
    }
    let by_key = sort_collection(table_of(&arena, &input), false, false, true);
    for pair in by_key.windows(2) {
        assert!(pair[0].0 < pair[1].0);
    }
    let by_key_down = sort_collection(table_of(&arena, &input), true, false, true);
    for pair in by_key_down.windows(2) {
        assert!(pair[0].0 > pair[1].0);
    }
}

#[test]
fn ties_may_come_either_way_round() {
    let arena = Interner::new();
    let sorted = sort_collection(table_of(&arena, &[b"a", b"b", b"c", b"c"]), false, false, false);
    assert_eq!(sorted.len(), 3);
    assert_eq!(sorted[2], (&b"c"[..], 2));
    let mut tied = vec![sorted[0], sorted[1]];
    tied.sort();
    assert_eq!(tied, vec![(&b"a"[..], 1), (&b"b"[..], 1)]);
}
