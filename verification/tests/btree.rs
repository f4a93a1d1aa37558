use dabqlite::btree::{pool_nodes_for, BTreeIndex};

fn keys_from(t: &BTreeIndex, start: u64) -> Vec<u64> {
    t.for_each_from(start, Vec::new(), |mut seen: Vec<u64>, k: u64, _row: u64| {
        seen.push(k);
        (seen, true)
    })
}

#[test]
fn small_inserts_and_lookups() {
    let mut t = BTreeIndex::new(64);
    for (row, key) in [5u64, 1, 9, 3, 7, 2, 8, 4, 6, 0].iter().enumerate() {
        t.insert(*key, row as u64);
        assert!(t.check_invariants());
    }
    assert_eq!(t.len(), 10);
    assert_eq!(t.get(7), Some(4));
    assert_eq!(t.get(10), None);
}

fn permutations(items: &mut Vec<u64>, k: usize, out: &mut Vec<Vec<u64>>) {
    if k == items.len() {
        out.push(items.clone());
        return;
    }
    for i in k..items.len() {
        items.swap(k, i);
        permutations(items, k + 1, out);
        items.swap(k, i);
    }
}

#[test]
fn every_insertion_order_of_small_sets_is_identical() {
    let mut orders = Vec::new();
    permutations(&mut (0..7u64).collect(), 0, &mut orders);
    assert_eq!(orders.len(), 5040);
    for order in orders {
        let mut t = BTreeIndex::new(16);
        for (row, &k) in order.iter().enumerate() {
            t.insert(k, row as u64);
        }
        assert!(t.check_invariants());
        let seen = keys_from(&t, 0);
        assert_eq!(seen, (0..7u64).collect::<Vec<_>>(), "order {order:?}");
    }
}

#[test]
fn ascending_descending_and_boundary_keys() {
    for keys in [
        (0..200u64).collect::<Vec<_>>(),
        (0..200u64).rev().collect(),
        vec![0, u64::MAX, 1, u64::MAX - 1, u64::MAX / 2],
    ] {
        let mut t = BTreeIndex::new(256);
        for (row, &k) in keys.iter().enumerate() {
            t.insert(k, row as u64);
            assert!(t.check_invariants());
        }
        let mut sorted = keys.clone();
        sorted.sort_unstable();
        let seen = keys_from(&t, 0);
        assert_eq!(seen, sorted);
    }
}

#[test]
fn range_start_positions_are_exact() {
    let mut t = BTreeIndex::new(128);
    for k in (0..100u64).map(|i| i * 3) {
        t.insert(k, k);
    }
    // Start exactly on a key, between keys, past the end.
    for start in [0u64, 1, 3, 148, 149, 150, 297, 298, 1000] {
        let first = t.for_each_from(start, None, |_none: Option<u64>, k: u64, _row: u64| {
            (Some(k), false)
        });
        let expected = (0..100u64).map(|i| i * 3).find(|&k| k >= start);
        assert_eq!(first, expected, "start={start}");
    }
}

#[test]
fn pool_bound_holds_at_capacity() {
    let rows = 4096u64;
    let mut t = BTreeIndex::new(rows);
    // Interleave ends to force splits everywhere.
    for i in 0..rows {
        let k = if i % 2 == 0 { i } else { rows * 2 - i };
        t.insert(k, i);
    }
    assert!(t.check_invariants());
    assert_eq!(t.len(), rows);
    assert!(
        (t.nodes_used() as u64) < pool_nodes_for(rows),
        "pool usage {} not below bound {}",
        t.nodes_used(),
        pool_nodes_for(rows)
    );
}

#[test]
fn repointing_moves_a_key_and_no_other() {
    let mut t = BTreeIndex::new(64);
    assert!(t.is_empty());
    for k in 0..40u64 {
        t.insert(k * 2, k);
    }
    assert!(t.repoint(20, 777));
    assert!(!t.repoint(21, 888));
    assert_eq!(t.get(20), Some(777));
    assert_eq!(t.get(22), Some(11));
    assert_eq!(t.get(21), None);
    assert_eq!(t.len(), 40);
}
