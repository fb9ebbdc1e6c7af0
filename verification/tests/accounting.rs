use linefreq::arena::Interner;
use linefreq::filter::should_keep;
use linefreq::pattern::Matcher;
use linefreq::rank::sort_collection;
use linefreq::rewrite::Substitute;
use linefreq::table::{build_map, FrequencyTable};
use linefreq::unique::stream_unique;

fn engine(text: &str) -> Matcher {
    match Matcher::new(text) {
        Ok(m) => m,
        Err(_) => panic!("pattern refused: {}", text),
    }
}

fn corpus() -> Vec<Vec<u8>> {
    let words: [&[u8]; 16] = [
        b"GET /a", b"GET /b", b"POST /a", b"GET /a", b"HEAD /c", b"GET /b", b"GET /a", b"PUT /d",
        b"POST /a", b"GET /e", b"", b"GET /a", b"DELETE /a", b"", b"GET /f", b"POST /b",
    ];
    words.iter().map(|w| w.to_vec()).collect()
}

#[test]
fn counts_sum_to_the_number_of_records_without_a_filter() {
    let arena = Interner::new();
    let mut map = FrequencyTable::new();
    let input = corpus();
    build_map(&input, &mut map, &arena, None, None, None);
    let total: usize = map.into_entries().iter().map(|(_, count)| *count).sum();
    assert_eq!(total, input.len());
}

#[test]
fn counts_sum_to_the_number_of_records_that_pass_the_filter() {
    let arena = Interner::new();
    let mut map = FrequencyTable::new();
    let input = corpus();
    let rules: Vec<Substitute<'_>> = vec![(engine("^[A-Z]+ "), &b""[..])];
    build_map(
        &input,
        &mut map,
        &arena,
        Some(engine("^(GET|POST)")),
        Some(engine("/b$")),
        Some(&rules),
    );
    let inc = engine("^(GET|POST)");
    let exc = engine("/b$");
    let passing = input.iter().filter(|r| should_keep(r, Some(&inc), Some(&exc))).count();
    assert_eq!(passing, 8);
    let sorted = sort_collection(map, false, false, false);
    let total: usize = sorted.iter().map(|(_, count)| *count).sum();
    assert_eq!(total, passing);
    assert_eq!(sorted.len(), 3);
    assert_eq!(sorted[2], (&b"/a"[..], 6));
    let mut tied = vec![sorted[0], sorted[1]];
    tied.sort();
    assert_eq!(tied, vec![(&b"/e"[..], 1), (&b"/f"[..], 1)]);
}

#[test]
fn unique_mode_emits_one_text_for_each_table_entry() {
    let arena = Interner::new();
    let input = corpus();
    let rules: Vec<Substitute<'_>> = vec![(engine("^[A-Z]+ "), &b""[..])];
    let mut map = FrequencyTable::new();
    build_map(&input, &mut map, &arena, None, Some(engine("^$")), Some(&rules));
    let entries = map.into_entries();

    let mut out = Vec::new();
    let r = stream_unique(&input, &mut out, &arena, None, Some(engine("^$")), Some(&rules));
    assert_eq!(r, Ok(()));
    assert_eq!(out, vec!["/a", "/b", "/c", "/d", "/e", "/f"]);
    let mut distinct = out.clone();
    distinct.sort();
    distinct.dedup();
    assert_eq!(distinct.len(), out.len());
    assert_eq!(out.len(), entries.len());
}
