use dabqlite::layout::VALUE_LEN;
use dabqlite::trigram::{TrigramIndex, TRIGRAMS_PER_ROW};

fn value(pattern: &[u8]) -> [u8; VALUE_LEN] {
    let mut v = [0u8; VALUE_LEN];
    v[..pattern.len().min(VALUE_LEN)].copy_from_slice(&pattern[..pattern.len().min(VALUE_LEN)]);
    v
}

fn contains(hay: &[u8; VALUE_LEN], needle: &[u8]) -> bool {
    needle.is_empty() || hay.windows(needle.len().max(1)).any(|w| w == needle)
}

/// Every match, in ascending row order: pages arrive newest-first, so the
/// oracle comparison reverses them at the end.
fn find_all(t: &TrigramIndex, values: &[[u8; VALUE_LEN]], needle: &[u8]) -> Vec<u64> {
    let mut out = Vec::new();
    let mut cursor = None;
    let mut pages = 0;
    loop {
        pages += 1;
        assert!(pages <= 1 + values.len(), "paging did not terminate");
        let mut page = [0u64; 4];
        let (n, next) = t.find_page(
            needle,
            cursor,
            &mut page,
            |row: u64| contains(&values[row as usize], needle),
            // One row per value here, so a posting row is its head.
            Some,
        );
        // Pages descend, and never repeat a row.
        for w in page[..n].windows(2) {
            assert!(w[0] > w[1], "a page was not descending: {page:?}");
        }
        out.extend_from_slice(&page[..n]);
        match next {
            Some(c) => cursor = Some(c),
            None => {
                out.reverse();
                return out;
            }
        }
    }
}

#[test]
fn the_chain_peek_counts_the_chain_it_names() {
    let mut t = TrigramIndex::new(64);
    // "rare" appears once; "abc" appears in every row.
    for row in 0..30u64 {
        t.insert(row, &value(b"abcabcabc"));
    }
    t.insert(30, &value(b"rare-abc"));

    // Every row holds "abc"; only one holds "rar".
    assert_eq!(t.chain_len_capped(b"rar", u32::MAX), 1);
    assert_eq!(t.chain_len_capped(b"rare-abc", u32::MAX), 1, "only the first trigram keys it");
    assert_eq!(t.chain_len_capped(b"abc", u32::MAX), 31);
    // A trigram nothing holds has an empty chain.
    assert_eq!(t.chain_len_capped(b"zzz", u32::MAX), 0);

    // The cap truncates rather than lying about the direction.
    assert_eq!(t.chain_len_capped(b"abc", 4), 4);
    assert_eq!(t.chain_len_capped(b"rar", 4), 1);
    assert_eq!(t.chain_len_capped(b"abc", 0), 0);

    // A needle with no trigram has no chain: it reports the worst possible
    // cost, because searching it means scanning every row.
    assert_eq!(t.chain_len_capped(b"ab", u32::MAX), u32::MAX);
    assert_eq!(t.chain_len_capped(b"", u32::MAX), u32::MAX);
    assert_eq!(t.chain_len_capped(b"ab", 4), u32::MAX);
}

#[test]
fn a_longer_needle_is_not_a_rarer_chain() {
    let mut t = TrigramIndex::new(64);
    for row in 0..20u64 {
        t.insert(row, &value(b"the quick brown"));
    }
    t.insert(20, &value(b"zqx"));
    assert_eq!(
        t.chain_len_capped(b"the quick brown", u32::MAX),
        t.chain_len_capped(b"the", u32::MAX),
        "the same first trigram is the same chain, whatever the length"
    );
    assert!(
        t.chain_len_capped(b"zqx", u32::MAX) < t.chain_len_capped(b"the quick brown", u32::MAX),
        "the short needle is the cheap one here"
    );
}

#[test]
fn matches_the_naive_oracle_on_crafted_values() {
    let values = [
        value(b"hello, world!!"),
        value(b"hello again"),
        value(b"worldly matters"),
        value(b"aaaaaaaaaaaaaaaa"),
        value(b"abcabcabcabcabca"),
        value(&[0xFF; 16]),
        value(b""),
    ];
    let mut t = TrigramIndex::new(values.len() as u64);
    for (row, v) in values.iter().enumerate() {
        t.insert(row as u64, v);
    }
    let needles: &[&[u8]] = &[
        b"hello",
        b"world",
        b"aaa",
        b"abc",
        b"cab",
        b"zzz",
        b"o, w",
        b"\xFF\xFF\xFF",
        b"\x00\x00\x00",
        b"lo", // shorter than a trigram: scan path
        b"a",  // scan path
        b"",   // matches everything
    ];
    for needle in needles {
        let expected: Vec<u64> = values
            .iter()
            .enumerate()
            .filter(|(_, v)| contains(v, needle))
            .map(|(i, _)| i as u64)
            .collect();
        assert_eq!(find_all(&t, &values, needle), expected, "needle {needle:?}");
    }
}

#[test]
fn duplicate_windows_do_not_duplicate_results() {
    // The first value holds the same trigram many times over; the row must
    // appear in results exactly once.
    let values = [value(b"aaaaaaaaaaaaaaaa"), value(b"baaab")];
    let mut t = TrigramIndex::new(2);
    for (row, v) in values.iter().enumerate() {
        t.insert(row as u64, v);
    }
    assert_eq!(find_all(&t, &values, b"aaa"), vec![0, 1]);
}

#[test]
fn pool_is_exactly_rows_times_trigrams() {
    // One slot per byte of a row, not per trigram window: a value may span
    // rows, and a window starting in a row's last two bytes runs into the next
    // one.
    assert_eq!(TRIGRAMS_PER_ROW, VALUE_LEN);
    let t = TrigramIndex::new(8);
    assert_eq!(t.pool_len(), 8 * VALUE_LEN);
    // Load <= 0.5 over worst-case distinct trigrams.
    assert!(t.table_len() >= 2 * 8 * VALUE_LEN);
    assert!(t.table_len().is_power_of_two());
}

#[test]
fn a_value_spanning_rows_is_searchable_across_its_seams() {
    // 48 bytes: three rows. "needle" crosses the first seam; "deeper" sits
    // entirely inside the third row.
    let mut long = vec![b'.'; 48];
    long[14..20].copy_from_slice(b"needle");
    long[34..40].copy_from_slice(b"deeper");
    let mut t = TrigramIndex::new(8);
    t.insert_value(0, 3, &long);

    // Every row of the run resolves to the head; nothing else exists.
    let head_of = |row: u64| (row < 3).then_some(0u64);
    for needle in [&b"needle"[..], b"deeper", b"..needle", b"deeper.."] {
        let mut page = [0u64; 4];
        let (n, _) = t.find_page(needle, None, &mut page, |row: u64| row == 0, head_of);
        assert_eq!(
            &page[..n],
            &[0],
            "{:?} was not found in the value that contains it",
            core::str::from_utf8(needle)
        );
    }

    // A posting whose head cannot be resolved is not a candidate: the walk
    // drops it rather than returning a continuation row.
    let mut page = [0u64; 4];
    let (n, _) = t.find_page(b"deeper", None, &mut page, |row: u64| row == 0, |_row: u64| None);
    assert_eq!(n, 0);
}

#[test]
fn slot_hash_matches_reference_mix() {
    let t = TrigramIndex::new(8);
    for tri in [0u32, 1, 0x616263, 0xFF_FFFF] {
        let expected =
            ((tri as u64).wrapping_mul(0x9E37_79B9_7F4A_7C15) as usize) & (t.table_len() - 1);
        assert_eq!(t.slot_of(tri), expected, "tri={tri:#08x}");
    }
}

#[test]
fn a_skipped_row_is_found_by_no_needle() {
    let mut t = TrigramIndex::new(4);
    t.insert(0, &value(b"alpha"));
    t.skip_row(1);
    t.insert(2, &value(b"alphabet"));
    assert_eq!(t.len(), 3);
    assert!(!t.is_empty());
    let mut page = [9u64; 4];
    let (n, next) = t.find_page(b"alp", None, &mut page, |_row: u64| true, Some);
    assert_eq!(&page[..n], &[2, 0]);
    assert_eq!(next, None);
}

#[test]
fn a_chain_grows_by_one_per_value_that_holds_the_trigram() {
    let mut t = TrigramIndex::new(16);
    let mut len = 0;
    // However often it occurs in a value; across the seams of a long one too.
    let mut seam = [b'.'; 40];
    seam[15..18].copy_from_slice(b"abc");
    for (v, rows, holds) in [
        (&b"abcabcabc"[..], 1, true),
        (b"xyz", 1, false),
        (b"ab", 1, false),
        (&seam[..], 3, true),
        (b"", 1, false),
        (b"zzabc", 2, true),
    ] {
        t.insert_value(t.len(), rows, v);
        len += holds as u32;
        assert_eq!(t.chain_len_capped(b"abc", u32::MAX), len);
    }
    assert_eq!(t.len(), 9);
}

#[test]
fn pages_of_any_size_add_up_to_one() {
    let mut t = TrigramIndex::new(32);
    for i in 0..32u64 {
        let v: &[u8] = if i % 3 == 0 { b"needle in hay" } else { b"hay only" };
        t.insert_value(i, 1, v);
    }
    let all = |needle: &[u8], room: usize, odd: bool| {
        let mut rows = Vec::new();
        let mut cursor = None;
        loop {
            let mut page = vec![0u64; room];
            let (n, next) = t.find_page(
                needle,
                cursor,
                &mut page,
                |row: u64| !odd || row % 2 == 1,
                |row: u64| if row == 9 { None } else { Some(row) },
            );
            rows.extend_from_slice(&page[..n]);
            match next {
                Some(c) => {
                    assert_eq!(n, room);
                    cursor = Some(c);
                }
                None => return rows,
            }
        }
    };
    for needle in [&b"needle"[..], b"hay", b"ne", b""] {
        for odd in [false, true] {
            let whole = all(needle, 64, odd);
            assert!(!whole.is_empty());
            for room in 1..12 {
                assert_eq!(all(needle, room, odd), whole);
            }
        }
    }
    assert_eq!(all(b"needle", 64, true), vec![27, 21, 15, 3]);
}
