use dabqlite::layout::{ROW_SIZE, VALUE_LEN};
use dabqlite::slot::{encode_slot, RowKind};
use dabqlite::vorder::{cmp_run_bytes, cmp_runs, order};
use std::cmp::Ordering;

/// Build an arena from `(id, value)` pairs, each stored as a run of slots the
/// way the engine writes them. Returns the arena and the head row of each
/// value.
fn arena_of(values: &[(u64, &[u8])]) -> (Vec<u8>, Vec<u64>) {
    let mut arena = Vec::new();
    let mut heads = Vec::new();
    for &(id, v) in values {
        let slots = v.len().div_ceil(VALUE_LEN).max(1);
        heads.push((arena.len() / ROW_SIZE) as u64);
        for i in 0..slots {
            let from = i * VALUE_LEN;
            let to = (from + VALUE_LEN).min(v.len());
            let chunk = &v[from..to];
            let mut padded = [0u8; VALUE_LEN];
            padded[..chunk.len()].copy_from_slice(chunk);
            let mut out = [0u8; ROW_SIZE];
            let kind = if i == 0 { RowKind::Record } else { RowKind::Chunk };
            encode_slot(kind, 0, chunk.len() as u8, i + 1 < slots, id, &padded, &mut out);
            arena.extend_from_slice(&out);
        }
    }
    (arena, heads)
}

fn id_in(arena: &[u8], row: u64) -> u64 {
    let at = row as usize * ROW_SIZE;
    let mut id = [0u8; 8];
    id.copy_from_slice(&arena[at..at + 8]);
    u64::from_le_bytes(id)
}

#[test]
fn comparing_runs_agrees_with_comparing_the_bytes() {
    let mut cases: Vec<Vec<u8>> = vec![
        vec![],
        vec![0],
        vec![0, 0],
        b"a".to_vec(),
        b"ab".to_vec(),
        b"abc".to_vec(),
        b"session/".to_vec(),
        b"session/0".to_vec(),
        b"session/z".to_vec(),
        b"sessions".to_vec(),
        vec![0xff; 1],
        vec![0xff; VALUE_LEN],
    ];
    // Lengths either side of every slot boundary up to four slots.
    for slots in 1..=4usize {
        for d in [-1i32, 0, 1] {
            let len = (slots * VALUE_LEN) as i32 + d;
            if len <= 0 {
                continue;
            }
            let mut v = vec![b'k'; len as usize];
            // Differ in the last byte so the seam cases are real.
            *v.last_mut().unwrap() = b'a' + (slots as u8);
            cases.push(v);
        }
    }
    let pairs: Vec<(u64, &[u8])> =
        cases.iter().enumerate().map(|(i, v)| (i as u64, v.as_slice())).collect();
    let (arena, heads) = arena_of(&pairs);
    let n = (arena.len() / ROW_SIZE) as u64;
    for (i, a) in cases.iter().enumerate() {
        for (j, b) in cases.iter().enumerate() {
            assert_eq!(cmp_runs(&arena, n, heads[i], heads[j]), a.cmp(b), "run {i} vs run {j}");
            assert_eq!(
                cmp_run_bytes(&arena, n, heads[i], b),
                a.as_slice().cmp(b.as_slice()),
                "run {i} vs needle {j}"
            );
        }
    }
}

#[test]
fn equal_values_are_still_distinct_keys() {
    let (arena, heads) = arena_of(&[(2, b"same"), (1, b"same"), (3, b"other")]);
    let n = (arena.len() / ROW_SIZE) as u64;
    assert_eq!(cmp_runs(&arena, n, heads[0], heads[1]), Ordering::Equal);
    // Equal bytes: the id decides, not the row.
    assert_eq!(order(&arena, n, heads[0], heads[1]), Ordering::Greater);
    assert_eq!(order(&arena, n, heads[1], heads[0]), Ordering::Less);
    assert_eq!(order(&arena, n, heads[0], heads[0]), Ordering::Equal);
    // And the tie-break never overrides the bytes.
    assert_eq!(order(&arena, n, heads[2], heads[0]), Ordering::Less);
    assert_eq!(order(&arena, n, heads[0], heads[2]), Ordering::Greater);
}

#[test]
fn the_same_value_written_twice_to_one_id_stays_two_keys() {
    let (arena, heads) = arena_of(&[(7, b"v"), (7, b"v")]);
    let n = (arena.len() / ROW_SIZE) as u64;
    assert_eq!(cmp_runs(&arena, n, heads[0], heads[1]), Ordering::Equal);
    assert_eq!(id_in(&arena, heads[0]), id_in(&arena, heads[1]));
    assert_eq!(order(&arena, n, heads[0], heads[1]), Ordering::Less);
    assert_eq!(order(&arena, n, heads[1], heads[0]), Ordering::Greater);
}

#[test]
fn a_run_never_reads_into_its_neighbour() {
    let (arena, heads) = arena_of(&[(1, b"aaaaaaaaaaaaaaaaBBBB"), (2, b"zzzz")]);
    let n = (arena.len() / ROW_SIZE) as u64;
    assert_eq!(
        cmp_run_bytes(&arena, n, heads[0], b"aaaaaaaaaaaaaaaaBBBB"),
        Ordering::Equal
    );
    assert_eq!(
        cmp_run_bytes(&arena, n, heads[0], b"aaaaaaaaaaaaaaaaBBBBzzzz"),
        Ordering::Less,
        "the neighbour's bytes must not extend this value"
    );
    assert_eq!(cmp_run_bytes(&arena, n, heads[1], b"zzzz"), Ordering::Equal);
}

#[test]
fn the_committed_bound_stops_the_walk() {
    let (arena, heads) = arena_of(&[(1, b"aaaaaaaaaaaaaaaaBBBB")]);
    assert_eq!(heads, vec![0]);
    // Told there is only one committed row, the second slot of the value is out
    // of bounds and the value reads as its first slot.
    assert_eq!(cmp_run_bytes(&arena, 1, 0, b"aaaaaaaaaaaaaaaa"), Ordering::Equal);
    assert_eq!(cmp_run_bytes(&arena, 2, 0, b"aaaaaaaaaaaaaaaa"), Ordering::Greater);
}

#[test]
fn a_tombstone_compares_as_the_empty_value() {
    let mut arena = vec![0u8; ROW_SIZE];
    let mut out = [0u8; ROW_SIZE];
    encode_slot(RowKind::Tombstone, 0, 0, false, 7, &[0u8; VALUE_LEN], &mut out);
    arena.copy_from_slice(&out);
    assert_eq!(cmp_run_bytes(&arena, 1, 0, b""), Ordering::Equal);
    assert_eq!(cmp_run_bytes(&arena, 1, 0, b"a"), Ordering::Less);
}
