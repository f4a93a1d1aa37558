use dabqlite::engine::types::{
    BatchOp, BatchReject, Capacities, DbError, FileId, Input, Output, RangePage, ValueWindow,
};
use dabqlite::engine::Engine;
use dabqlite::layout::{encode_sb, SB_COPY_SIZE, SCHEMA_HASH};
use dabqlite::{FindCursor, MAX_COMMIT_ROWS, MAX_VALUE_LEN, ROW_SIZE, VALUE_LEN};

/// A minimal in-memory host: no fault injection, no crash model.
struct MiniHost {
    engine: Engine,
    superblock: Vec<u8>,
    rows: Vec<u8>,
}

impl MiniHost {
    fn new(caps: Capacities) -> Self {
        MiniHost { engine: Engine::new(caps), superblock: Vec::new(), rows: Vec::new() }
    }

    fn on(rows: u64, superblock: &[u8], bytes: &[u8]) -> Self {
        let mut h = MiniHost::new(Capacities { rows });
        h.superblock = superblock.to_vec();
        h.rows = bytes.to_vec();
        h
    }

    fn file(&mut self, id: FileId) -> &mut Vec<u8> {
        match id {
            FileId::Superblock => &mut self.superblock,
            FileId::Rows => &mut self.rows,
            FileId::RowsOld => unreachable!("the row engine never touches the legacy file"),
        }
    }

    /// Perform one request; `None` once the engine has answered.
    fn perform(&mut self, out: Output) -> Option<Output> {
        match out {
            Output::Read { file, offset, len } => {
                let f = self.file(file);
                let end = ((offset + len) as usize).min(f.len());
                let data = f[(offset as usize).min(f.len())..end].to_vec();
                Some(self.engine.tick(Input::ReadDone { file, data: &data }))
            }
            Output::Write { file, offset, data } => {
                let f = self.file(file);
                let end = offset as usize + data.as_slice().len();
                if f.len() < end {
                    f.resize(end, 0);
                }
                f[offset as usize..end].copy_from_slice(data.as_slice());
                Some(self.engine.tick(Input::WriteDone { file }))
            }
            Output::Fsync { file } => Some(self.engine.tick(Input::FsyncDone { file })),
            Output::Truncate { file, len } => {
                self.file(file).truncate(len as usize);
                Some(self.engine.tick(Input::TruncateDone { file }))
            }
            _ => None,
        }
    }

    fn drive(&mut self, first: Input<'_>) -> Output {
        let mut out = self.engine.tick(first);
        while let Some(next) = self.perform(out) {
            out = next;
        }
        out
    }

    fn open(&mut self) -> Output {
        let input = Input::Open {
            superblock_len: self.superblock.len() as u64,
            rows_len: self.rows.len() as u64,
        };
        self.drive(input)
    }

    fn open_salvage(&mut self) -> Output {
        let input = Input::OpenSalvage {
            superblock_len: self.superblock.len() as u64,
            rows_len: self.rows.len() as u64,
        };
        self.drive(input)
    }

    fn batch(&mut self, ops: &[BatchOp<'_>]) -> Output {
        self.drive(Input::Batch { ops })
    }

    /// A whole value, window by window.
    fn value(&mut self, id: u64) -> Option<Vec<u8>> {
        let mut bytes = Vec::new();
        let mut offset = 0u32;
        loop {
            match self.drive(Input::GetFrom { id, offset }) {
                Output::GetDone { result: Ok(None), .. } => return None,
                Output::GetDone { result: Ok(Some(w)), .. } => {
                    bytes.extend_from_slice(w.payload());
                    match w.next_offset() {
                        Some(n) => offset = n,
                        None => return Some(bytes),
                    }
                }
                other => panic!("get: {other:?}"),
            }
        }
    }

    fn range(&mut self, lo: u64, hi: u64) -> RangePage {
        match self.drive(Input::Range { lo, hi }) {
            Output::RangeDone { result: Ok(p) } => p,
            other => panic!("range: {other:?}"),
        }
    }

    /// Every row that a search finds, newest first.
    fn find(&mut self, text: &[u8]) -> Vec<u64> {
        let mut ids = Vec::new();
        let mut after: Option<FindCursor> = None;
        let mut needle = [0u8; VALUE_LEN];
        needle[..text.len()].copy_from_slice(text);
        loop {
            match self.drive(Input::Find { needle, needle_len: text.len() as u8, after }) {
                Output::FindDone { result: Ok(p) } => {
                    for item in &p.items[..p.count as usize] {
                        ids.push(item.id);
                    }
                    match p.next {
                        Some(c) => after = Some(c),
                        None => return ids,
                    }
                }
                other => panic!("find: {other:?}"),
            }
        }
    }
}

fn val(b: u8) -> [u8; VALUE_LEN] {
    [b; VALUE_LEN]
}

/// The window a full-width value comes back in.
fn win(b: u8) -> ValueWindow {
    ValueWindow { total: VALUE_LEN as u32, offset: 0, len: VALUE_LEN as u8, bytes: val(b) }
}

#[test]
fn fresh_open_insert_get() {
    let mut h = MiniHost::new(Capacities { rows: 8 });
    assert_eq!(h.open(), Output::OpenDone { result: Ok(0) });
    assert_eq!(
        h.drive(Input::Insert { id: 1, value: val(7) }),
        Output::InsertDone { id: 1, result: Ok(()) }
    );
    assert_eq!(
        h.drive(Input::Get { id: 1 }),
        Output::GetDone { id: 1, result: Ok(Some(win(7))) }
    );
    // An id never inserted must be absent.
    assert_eq!(h.drive(Input::Get { id: 2 }), Output::GetDone { id: 2, result: Ok(None) });
    assert_eq!(h.engine.usage(), (1, 8));
}

#[test]
fn duplicate_id_rejected() {
    let mut h = MiniHost::new(Capacities { rows: 8 });
    h.open();
    h.drive(Input::Insert { id: 5, value: val(1) });
    assert_eq!(
        h.drive(Input::Insert { id: 5, value: val(2) }),
        Output::InsertDone { id: 5, result: Err(DbError::DuplicateId { id: 5 }) }
    );
    // The original value must be untouched.
    assert_eq!(
        h.drive(Input::Get { id: 5 }),
        Output::GetDone { id: 5, result: Ok(Some(win(1))) }
    );
}

#[test]
fn capacity_exhaustion_is_first_class() {
    let mut h = MiniHost::new(Capacities { rows: 2 });
    h.open();
    h.drive(Input::Insert { id: 1, value: val(1) });
    h.drive(Input::Insert { id: 2, value: val(2) });
    assert_eq!(
        h.drive(Input::Insert { id: 3, value: val(3) }),
        Output::InsertDone {
            id: 3,
            result: Err(DbError::Full { entity: "records", capacity: 2, dead: 0 })
        }
    );
    assert_eq!(h.engine.usage(), (2, 2));
}

#[test]
fn reopen_recovers_committed_rows() {
    let mut h = MiniHost::new(Capacities { rows: 8 });
    h.open();
    for i in 0..5u64 {
        h.drive(Input::Insert { id: i * 10, value: val(i as u8) });
    }
    let gen_before = h.engine.generation();
    // "Restart the process": new engine, same files.
    let (sb, rows) = (h.superblock.clone(), h.rows.clone());
    let mut h2 = MiniHost::new(Capacities { rows: 8 });
    h2.superblock = sb;
    h2.rows = rows;
    assert_eq!(h2.open(), Output::OpenDone { result: Ok(5) });
    assert_eq!(h2.engine.generation(), gen_before);
    for i in 0..5u64 {
        assert_eq!(
            h2.drive(Input::Get { id: i * 10 }),
            Output::GetDone { id: i * 10, result: Ok(Some(win(i as u8))) }
        );
    }
}

#[test]
fn reopen_with_smaller_capacity_fails_loudly() {
    let mut h = MiniHost::new(Capacities { rows: 8 });
    h.open();
    for i in 0..5u64 {
        h.drive(Input::Insert { id: i, value: val(0) });
    }
    let mut h2 = MiniHost::new(Capacities { rows: 3 });
    h2.superblock = h.superblock.clone();
    h2.rows = h.rows.clone();
    assert_eq!(
        h2.open(),
        Output::OpenDone {
            result: Err(DbError::CapacityBelowData { required: 5, configured: 3 })
        }
    );
}

#[test]
fn ops_before_open_fail() {
    let mut e = Engine::new(Capacities { rows: 2 });
    assert_eq!(
        e.tick(Input::Get { id: 1 }),
        Output::GetDone { id: 1, result: Err(DbError::NotOpen) }
    );
    assert_eq!(
        e.tick(Input::Insert { id: 1, value: val(0) }),
        Output::InsertDone { id: 1, result: Err(DbError::NotOpen) }
    );
}

/// An engine in the middle of an insert: its row write is in flight.
fn engine_mid_insert() -> Engine {
    let mut h = MiniHost::new(Capacities { rows: 8 });
    h.open();
    let out = h.engine.tick(Input::Insert { id: 1, value: val(1) });
    assert!(matches!(out, Output::Write { file: FileId::Rows, .. }));
    h.engine
}

#[test]
fn v1_serializes_everything_mid_insert() {
    let mut e = engine_mid_insert();
    assert_eq!(
        e.tick(Input::Insert { id: 2, value: val(2) }),
        Output::InsertDone { id: 2, result: Err(DbError::Busy) }
    );
    assert_eq!(
        e.tick(Input::Get { id: 1 }),
        Output::GetDone { id: 1, result: Err(DbError::Busy) }
    );
}

#[test]
fn io_failure_is_fail_stop() {
    let mut e = engine_mid_insert();
    // The row write fails: the insert errors, and the engine refuses everything
    // from then on.
    let err = DbError::IoFailed { file: FileId::Rows };
    assert_eq!(
        e.tick(Input::IoFailed { file: FileId::Rows }),
        Output::InsertDone { id: 1, result: Err(err) }
    );
    assert_eq!(
        e.tick(Input::Insert { id: 2, value: val(2) }),
        Output::InsertDone { id: 2, result: Err(err) }
    );
    assert_eq!(e.tick(Input::Get { id: 1 }), Output::GetDone { id: 1, result: Err(err) });
}

#[test]
fn hash_slot_matches_reference_mix() {
    let e = Engine::new(Capacities { rows: 8 });
    assert_eq!(e.index_len(), 16);
    for id in [0u64, 1, 7, 0xDEAD_BEEF_1234_5678, 0x0123_4567_89AB_CDEF, u64::MAX] {
        let mixed = (id ^ (id >> 32)).wrapping_mul(0x9E37_79B9_7F4A_7C15);
        let expected = (mixed as usize) & (e.index_len() - 1);
        assert_eq!(e.hash_slot(id), expected, "id={id:#x}");
    }
}

#[test]
fn colliding_keys_probe_correctly() {
    let mut h = MiniHost::new(Capacities { rows: 8 });
    h.open();
    // Find three ids sharing one hash slot in the 16-slot table.
    let target = h.engine.hash_slot(0);
    let ids: Vec<u64> =
        (0..2000u64).filter(|&id| h.engine.hash_slot(id) == target).take(3).collect();
    assert_eq!(ids.len(), 3, "collision search must find a full chain");
    for (i, &id) in ids.iter().enumerate() {
        assert_eq!(
            h.drive(Input::Insert { id, value: val(i as u8 + 1) }),
            Output::InsertDone { id, result: Ok(()) }
        );
    }
    for (i, &id) in ids.iter().enumerate() {
        assert_eq!(
            h.drive(Input::Get { id }),
            Output::GetDone { id, result: Ok(Some(win(i as u8 + 1))) }
        );
    }
    // A missing id hashing to the same slot walks the chain to an empty slot.
    let absent = (0..5000u64)
        .filter(|&id| h.engine.hash_slot(id) == target)
        .find(|id| !ids.contains(id))
        .expect("a fourth colliding id exists");
    assert_eq!(
        h.drive(Input::Get { id: absent }),
        Output::GetDone { id: absent, result: Ok(None) }
    );
}

#[test]
fn updates_and_deletes_show_and_survive() {
    let mut h = MiniHost::new(Capacities { rows: 16 });
    h.open();
    for id in 0..4u64 {
        h.drive(Input::Insert { id, value: val(id as u8) });
    }
    assert_eq!(
        h.drive(Input::Update { id: 2, value: val(99) }),
        Output::UpdateDone { id: 2, result: Ok(()) }
    );
    assert_eq!(h.drive(Input::Delete { id: 3 }), Output::DeleteDone { id: 3, result: Ok(()) });
    assert_eq!(
        h.drive(Input::Update { id: 3, value: val(1) }),
        Output::UpdateDone { id: 3, result: Err(DbError::NotFound { id: 3 }) }
    );
    assert_eq!(
        h.drive(Input::Delete { id: 77 }),
        Output::DeleteDone { id: 77, result: Err(DbError::NotFound { id: 77 }) }
    );
    let expect = |h: &mut MiniHost| {
        assert_eq!(h.value(0), Some(vec![0; 16]));
        assert_eq!(h.value(2), Some(vec![99; 16]));
        assert_eq!(h.value(3), None);
        assert_eq!(h.engine.live_count(), 3);
        assert_eq!(h.engine.dead_slots(), 3);
        let live = h.engine.live_rows();
        let ids: Vec<u64> = live.iter().map(|r| r.0).collect();
        assert_eq!(ids.len(), 3);
        assert!(live.contains(&(2, vec![99u8; 16])));
    };
    expect(&mut h);
    let mut again = MiniHost::on(16, &h.superblock, &h.rows);
    // Six rows were committed: four records, an update and a deletion.
    assert_eq!(again.open(), Output::OpenDone { result: Ok(6) });
    expect(&mut again);
}

#[test]
fn long_values_come_back_whole() {
    let mut h = MiniHost::new(Capacities { rows: 400 });
    h.open();
    let mut id = 0u64;
    for len in [0usize, 1, 15, 16, 17, 31, 32, 33, 100, 2047, MAX_VALUE_LEN] {
        let bytes: Vec<u8> = (0..len).map(|i| (i * 7 + len) as u8).collect();
        let rows = len.div_ceil(16).max(1) as u64;
        assert_eq!(
            h.batch(&[BatchOp::Put { id, value: &bytes }]),
            Output::BatchDone { rows, result: Ok(()) }
        );
        assert_eq!(h.value(id), Some(bytes));
        id += 1;
    }
    let mut again = MiniHost::on(400, &h.superblock, &h.rows);
    again.open();
    for i in 0..id {
        assert_eq!(again.value(i), h.value(i));
    }
}

#[test]
fn a_batch_is_all_or_nothing_and_names_what_it_refuses() {
    let mut h = MiniHost::new(Capacities { rows: 200 });
    h.open();
    h.drive(Input::Insert { id: 1, value: val(1) });
    let refused = |h: &mut MiniHost, ops: &[BatchOp<'_>], at: u16, error: DbError| {
        let before = (h.superblock.clone(), h.rows.clone());
        assert_eq!(
            h.batch(ops),
            Output::BatchDone { rows: 0, result: Err(BatchReject { at, error }) }
        );
        assert_eq!((h.superblock.clone(), h.rows.clone()), before);
    };
    refused(
        &mut h,
        &[BatchOp::Insert { id: 2, value: b"two" }, BatchOp::Insert { id: 1, value: b"x" }],
        1,
        DbError::DuplicateId { id: 1 },
    );
    refused(
        &mut h,
        &[BatchOp::Delete { id: 1 }, BatchOp::Update { id: 1, value: b"x" }],
        1,
        DbError::NotFound { id: 1 },
    );
    refused(&mut h, &[BatchOp::Delete { id: 9 }], 0, DbError::NotFound { id: 9 });
    let long = vec![0u8; MAX_VALUE_LEN + 1];
    refused(
        &mut h,
        &[BatchOp::Put { id: 5, value: &long }],
        0,
        DbError::ValueTooLong { len: 2049, max: 2048 },
    );
    let big = vec![0u8; 16 * 100];
    refused(
        &mut h,
        &[BatchOp::Put { id: 5, value: &big }, BatchOp::Put { id: 6, value: &big[..16 * 29] }],
        1,
        DbError::BatchTooLong { rows: 129, max: MAX_COMMIT_ROWS as u64 },
    );
    let many: Vec<BatchOp<'_>> = (0..129u64).map(|id| BatchOp::Remove { id }).collect();
    refused(&mut h, &many, 128, DbError::BatchTooLong { rows: 129, max: 128 });
    assert_eq!(h.value(2), None);

    // Nothing to do is no commit.
    let generation = h.engine.generation();
    assert_eq!(h.batch(&[]), Output::BatchDone { rows: 0, result: Ok(()) });
    assert_eq!(
        h.batch(&[BatchOp::Remove { id: 9 }]),
        Output::BatchDone { rows: 0, result: Ok(()) }
    );
    assert_eq!(h.engine.generation(), generation);

    // Each operation sees what the ones in front of it did.
    assert_eq!(
        h.batch(&[
            BatchOp::Delete { id: 1 },
            BatchOp::Insert { id: 1, value: b"again" },
            BatchOp::Put { id: 2, value: b"a value of two rows" },
            BatchOp::Update { id: 2, value: b"short" },
            BatchOp::Remove { id: 3 },
        ]),
        Output::BatchDone { rows: 5, result: Ok(()) }
    );
    assert_eq!(h.engine.generation(), generation + 1);
    assert_eq!(h.value(1), Some(b"again".to_vec()));
    assert_eq!(h.value(2), Some(b"short".to_vec()));
}

#[test]
fn a_crash_after_any_request_is_all_or_nothing() {
    let mut base = MiniHost::new(Capacities { rows: 32 });
    base.open();
    for id in 0..3u64 {
        base.drive(Input::Insert { id, value: val(id as u8) });
    }
    let ops = [
        BatchOp::Update { id: 0, value: b"a value that needs three rows to hold" },
        BatchOp::Delete { id: 1 },
        BatchOp::Insert { id: 9, value: b"nine" },
    ];
    let mut cut = 0usize;
    loop {
        let mut h = MiniHost::on(32, &base.superblock, &base.rows);
        h.open();
        let mut out = h.engine.tick(Input::Batch { ops: &ops });
        let mut done = true;
        for _ in 0..cut {
            match h.perform(out) {
                Some(next) => out = next,
                None => break,
            }
        }
        if matches!(
            out,
            Output::Write { .. } | Output::Fsync { .. } | Output::Read { .. }
        ) {
            done = false;
        }
        let mut again = MiniHost::on(32, &h.superblock, &h.rows);
        assert!(matches!(again.open(), Output::OpenDone { result: Ok(_) }), "cut {cut}");
        let state = (again.value(0), again.value(1), again.value(9));
        let old = (Some(vec![0u8; 16]), Some(vec![1u8; 16]), None);
        let new = (
            Some(b"a value that needs three rows to hold".to_vec()),
            None,
            Some(b"nine".to_vec()),
        );
        assert!(state == old || state == new, "cut {cut}: {state:?}");
        assert_eq!(again.value(2), Some(vec![2u8; 16]));
        if done {
            assert_eq!(state, new);
            break;
        }
        cut += 1;
        assert!(cut < 40);
    }
}

#[test]
fn ranges_are_exact_ordered_and_paged() {
    let mut h = MiniHost::new(Capacities { rows: 64 });
    h.open();
    let ids: Vec<u64> = (0..20u64).map(|i| (i * 7919) % 1000).collect();
    for &id in &ids {
        h.drive(Input::Insert { id, value: val(id as u8) });
    }
    h.drive(Input::Delete { id: ids[3] });
    let mut expected: Vec<u64> = ids.iter().copied().filter(|&i| i != ids[3]).collect();
    expected.sort_unstable();
    let mut seen = Vec::new();
    let mut lo = 0u64;
    loop {
        let page = h.range(lo, u64::MAX);
        for item in &page.items[..page.count as usize] {
            assert_eq!(item.value(), Some(&val(item.id as u8)[..]));
            seen.push(item.id);
        }
        match page.next {
            Some(n) => {
                assert_eq!(page.count, 8);
                lo = n;
            }
            None => break,
        }
    }
    assert_eq!(seen, expected);
    assert_eq!(h.range(expected[2], expected[4]).count, 3);
    assert_eq!(h.range(5, 4).count, 0);
}

#[test]
fn searches_find_every_live_value_newest_first() {
    let mut h = MiniHost::new(Capacities { rows: 128 });
    h.open();
    for id in 0..12u64 {
        h.batch(&[BatchOp::Insert { id, value: b"a needle in the middle of a haystack" }]);
    }
    h.batch(&[BatchOp::Insert { id: 50, value: b"nothing" }]);
    h.batch(&[BatchOp::Update { id: 4, value: b"gone" }]);
    h.batch(&[BatchOp::Delete { id: 7 }]);
    let expected: Vec<u64> = (0..12u64).rev().filter(|&i| i != 4 && i != 7).collect();
    assert_eq!(h.find(b"needle"), expected);
    // Across a row's seam, and shorter than three bytes.
    assert_eq!(h.find(b"the middle"), expected);
    assert_eq!(h.find(b"yst"), expected);
    assert_eq!(h.find(b"hi"), vec![50]);
    assert_eq!(h.find(b"absent"), Vec::<u64>::new());
    assert_eq!(h.find(b"").len(), 12);
    assert!(h.engine.find_verifications() > 0);
}

#[test]
fn salvage_serves_what_verifies_and_refuses_writes() {
    let mut h = MiniHost::new(Capacities { rows: 16 });
    h.open();
    for id in 0..5u64 {
        h.drive(Input::Insert { id, value: val(id as u8) });
    }
    let mut rows = h.rows.clone();
    rows[2 * ROW_SIZE + 9] ^= 1;
    let mut strict = MiniHost::on(16, &h.superblock, &rows);
    assert!(matches!(
        strict.open(),
        Output::OpenDone { result: Err(DbError::Corrupt { .. }) }
    ));
    let mut s = MiniHost::on(16, &h.superblock, &rows);
    assert_eq!(s.open_salvage(), Output::OpenDone { result: Ok(5) });
    assert!(s.engine.is_degraded());
    assert_eq!(s.engine.quarantined(), 1);
    assert_eq!(s.engine.recovery_report().quarantined_rows, 1);
    assert_eq!(s.value(3), Some(vec![3; 16]));
    assert_eq!(
        s.drive(Input::Get { id: 2 }),
        Output::GetDone { id: 2, result: Err(DbError::Degraded { quarantined: 1 }) }
    );
    assert_eq!(
        s.drive(Input::Insert { id: 9, value: val(9) }),
        Output::InsertDone { id: 9, result: Err(DbError::Degraded { quarantined: 1 }) }
    );
    assert!(s.range(0, 100).incomplete);
    assert_eq!(s.rows, rows);
    assert_eq!(s.superblock, h.superblock);
    // On a sound database it is an ordinary open.
    let mut fine = MiniHost::on(16, &h.superblock, &h.rows);
    assert_eq!(fine.open_salvage(), Output::OpenDone { result: Ok(5) });
    assert!(!fine.engine.is_degraded());
}

#[test]
fn a_damaged_copy_of_the_superblock_is_repaired() {
    let mut h = MiniHost::new(Capacities { rows: 16 });
    h.open();
    for id in 0..3u64 {
        h.drive(Input::Insert { id, value: val(id as u8) });
    }
    let slots = Engine::sb_slots_for(h.engine.generation());
    for slot in slots {
        let mut zone = h.superblock.clone();
        zone[slot as usize * SB_COPY_SIZE + 5] ^= 0xFF;
        let mut again = MiniHost::on(16, &zone, &h.rows);
        assert_eq!(again.open(), Output::OpenDone { result: Ok(3) });
        assert_eq!(again.superblock, h.superblock);
    }
}

#[test]
fn every_refusal_to_open_is_specific() {
    let mut h = MiniHost::new(Capacities { rows: 16 });
    h.open();
    for id in 0..3u64 {
        h.drive(Input::Insert { id, value: val(id as u8) });
    }
    // Rows without a superblock.
    let mut x = MiniHost::on(16, &[], &h.rows);
    assert!(matches!(x.open(), Output::OpenDone { result: Err(DbError::Corrupt { .. }) }));
    // No valid copy.
    let mut x = MiniHost::on(16, &[0u8; 256], &h.rows);
    assert!(matches!(x.open(), Output::OpenDone { result: Err(DbError::Corrupt { .. }) }));
    // Rows that the superblock promises are missing.
    let mut x = MiniHost::on(16, &h.superblock, &h.rows[..64]);
    assert!(matches!(x.open(), Output::OpenDone { result: Err(DbError::Corrupt { .. }) }));
    // Another schema.
    let mut zone = vec![0u8; 256];
    let mut copy = [0u8; SB_COPY_SIZE];
    encode_sb(1, 0, &mut copy);
    copy[24..32].copy_from_slice(&5u64.to_le_bytes());
    let sum = dabqlite::crc32::crc32(&copy[0..32]);
    copy[32..36].copy_from_slice(&sum.to_le_bytes());
    zone[128..192].copy_from_slice(&copy);
    let mut x = MiniHost::on(16, &zone, &[]);
    assert_eq!(
        x.open(),
        Output::OpenDone {
            result: Err(DbError::SchemaMismatch { file_schema: 5, binary_schema: SCHEMA_HASH })
        }
    );
    // An empty zone and no rows: a fresh start.
    let mut x = MiniHost::on(16, &[0u8; 100], &[]);
    assert_eq!(x.open(), Output::OpenDone { result: Ok(0) });
}

#[test]
fn orphans_behind_the_manifest_are_counted_and_cut_off() {
    let mut h = MiniHost::new(Capacities { rows: 16 });
    h.open();
    let mut zones = Vec::new();
    for id in 0..4u64 {
        h.drive(Input::Insert { id, value: val(id as u8) });
        zones.push(h.superblock.clone());
    }
    // The superblock of two commits ago: two whole commits were rolled back.
    let mut x = MiniHost::on(16, &zones[1], &h.rows);
    assert_eq!(x.open(), Output::OpenDone { result: Ok(2) });
    let report = x.engine.recovery_report();
    assert_eq!(report.row_count, 2);
    assert_eq!(report.orphan_valid_rows, 2);
    assert!(report.rollback_evidence);
    assert_eq!(report.declared_capacity, 16);
    assert_eq!(x.rows.len(), 2 * ROW_SIZE);
    // One orphan may be an interrupted commit.
    let mut x = MiniHost::on(16, &zones[2], &h.rows);
    assert_eq!(x.open(), Output::OpenDone { result: Ok(3) });
    assert!(!x.engine.recovery_report().rollback_evidence);
    assert_eq!(x.engine.recovery_report().orphan_valid_rows, 1);
}

#[test]
fn generations_alternate_between_the_slot_pairs() {
    assert_eq!(Engine::sb_slots_for(1), [2, 3]);
    assert_eq!(Engine::sb_slots_for(2), [0, 1]);
    for copy in 0..2u8 {
        match Engine::sb_copy_write(7, 3, 16, copy) {
            Output::Write { file: FileId::Superblock, offset, data } => {
                assert_eq!(offset, 64 * (2 + copy as u64));
                assert_eq!(data.as_slice().len(), SB_COPY_SIZE);
            }
            other => panic!("{other:?}"),
        }
    }
}

#[test]
fn reads_change_nothing_on_disk_or_in_memory() {
    let mut h = MiniHost::new(Capacities { rows: 16 });
    h.open();
    for id in 0..5u64 {
        h.drive(Input::Insert { id, value: val(id as u8) });
    }
    let before = (h.superblock.clone(), h.rows.clone(), h.engine.generation());
    h.range(0, 100);
    h.find(b"\x03\x03\x03");
    h.value(2);
    assert_eq!((h.superblock.clone(), h.rows.clone(), h.engine.generation()), before);
    assert_eq!(h.engine.usage(), (5, 16));
    assert_eq!(h.engine.caps(), Capacities { rows: 16 });
}

#[test]
fn a_deleted_value_leaves_all_its_rows_dead() {
    let mut h = MiniHost::new(Capacities { rows: 8 });
    h.open();
    let value = [7u8; 40];
    assert_eq!(
        h.batch(&[BatchOp::Insert { id: 1, value: &value }]),
        Output::BatchDone { rows: 3, result: Ok(()) }
    );
    assert_eq!((h.engine.usage(), h.engine.live_count(), h.engine.dead_slots()), ((3, 8), 1, 0));
    assert_eq!(
        h.batch(&[BatchOp::Delete { id: 1 }]),
        Output::BatchDone { rows: 1, result: Ok(()) }
    );
    assert_eq!((h.engine.usage(), h.engine.live_count(), h.engine.dead_slots()), ((4, 8), 0, 4));
    // A full store says how much of it is dead.
    for id in 2..6 {
        h.batch(&[BatchOp::Insert { id, value: b"x" }]);
    }
    assert_eq!(
        h.batch(&[BatchOp::Insert { id: 9, value: b"x" }]),
        Output::BatchDone {
            rows: 0,
            result: Err(BatchReject {
                at: 0,
                error: DbError::Full { entity: "records", capacity: 8, dead: 4 }
            })
        }
    );
    // And again after a reopen.
    let mut again = MiniHost::on(8, &h.superblock, &h.rows);
    again.open();
    assert_eq!((again.engine.live_count(), again.engine.dead_slots()), (4, 4));
}

#[test]
fn an_overwritten_value_leaves_all_its_rows_dead() {
    let mut h = MiniHost::new(Capacities { rows: 16 });
    h.open();
    h.batch(&[BatchOp::Insert { id: 1, value: &[1u8; 40] }]);
    h.batch(&[BatchOp::Update { id: 1, value: &[2u8; 20] }]);
    assert_eq!((h.engine.usage().0, h.engine.live_count(), h.engine.dead_slots()), (5, 1, 3));
    h.batch(&[BatchOp::Put { id: 1, value: b"short" }]);
    assert_eq!((h.engine.usage().0, h.engine.live_count(), h.engine.dead_slots()), (6, 1, 5));
}

#[test]
fn a_full_store_refuses_for_the_id_first() {
    let mut h = MiniHost::new(Capacities { rows: 1 });
    h.open();
    h.batch(&[BatchOp::Insert { id: 1, value: b"a" }]);
    assert_eq!(h.engine.usage(), (1, 1));
    let refused = |at: u64, error: DbError| Output::BatchDone {
        rows: 0,
        result: Err(BatchReject { at: at as _, error }),
    };
    assert_eq!(
        h.batch(&[BatchOp::Insert { id: 1, value: b"b" }]),
        refused(0, DbError::DuplicateId { id: 1 })
    );
    assert_eq!(
        h.batch(&[BatchOp::Update { id: 2, value: b"b" }]),
        refused(0, DbError::NotFound { id: 2 })
    );
    assert_eq!(
        h.batch(&[BatchOp::Delete { id: 2 }]),
        refused(0, DbError::NotFound { id: 2 })
    );
    // Removing what is not there takes no room.
    assert_eq!(
        h.batch(&[BatchOp::Remove { id: 2 }]),
        Output::BatchDone { rows: 0, result: Ok(()) }
    );
    assert!(matches!(
        h.batch(&[BatchOp::Put { id: 1, value: b"b" }]),
        Output::BatchDone { rows: 0, result: Err(BatchReject { at: 0, error: DbError::Full { .. } }) }
    ));
    // A refused batch does nothing, whatever stood in front of the refusal.
    assert_eq!(
        h.batch(&[BatchOp::Remove { id: 2 }, BatchOp::Delete { id: 3 }]),
        refused(1, DbError::NotFound { id: 3 })
    );
    assert_eq!(h.value(1), Some(b"a".to_vec()));
}

#[test]
fn a_commit_asks_in_one_order_whatever_its_length() {
    let long = [5u8; 100];
    for (ops, rows) in [
        (&[BatchOp::Insert { id: 1, value: b"x" }][..], 1usize),
        (&[BatchOp::Insert { id: 1, value: &long }, BatchOp::Delete { id: 1 }][..], 8),
    ] {
        let mut h = MiniHost::new(Capacities { rows: 32 });
        h.open();
        let mut asked = Vec::new();
        let mut out = h.engine.tick(Input::Batch { ops });
        loop {
            asked.push(match out {
                Output::Write { file: FileId::Rows, offset, .. } => (0, offset / ROW_SIZE as u64),
                Output::Fsync { file: FileId::Rows } => (1, 0),
                Output::Write { file: FileId::Superblock, .. } => (2, 0),
                Output::Fsync { file: FileId::Superblock } => (3, 0),
                _ => (4, 0),
            });
            match h.perform(out) {
                Some(next) => out = next,
                None => break,
            }
        }
        let mut expect: Vec<(u8, u64)> = (0..rows as u64).map(|r| (0, r)).collect();
        expect.extend([(1, 0), (2, 0), (2, 0), (3, 0), (4, 0)]);
        assert_eq!(asked, expect);
        assert_eq!(out, Output::BatchDone { rows: rows as _, result: Ok(()) });
    }
}
