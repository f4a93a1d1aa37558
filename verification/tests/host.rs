use dabqlite::crc32::crc32;
use dabqlite::engine::types::{BatchOp, Capacities, DbError, FileId, Input, Output};
use dabqlite::generated::records_v1;
use dabqlite::host::disk::Call;
use dabqlite::host::medium::Medium;
use dabqlite::host::rebuild::rebuild;
use dabqlite::host::{rows_file_name, Host, MemoryStorage, Storage, LOCK_FILE, SUPERBLOCK_FILE};
use dabqlite::layout::{encode_sb, SB_COPY_SIZE};
use dabqlite::migration::{V1_ROW_SIZE, V1_SCHEMA_HASH};
use dabqlite::{ROW_SIZE, SCHEMA_HASH, VALUE_LEN};

const CAPS: Capacities = Capacities { rows: 32 };
const INSERTS: usize = 12;

/// A deterministic workload: distinct ids, pseudo-random values.
fn workload(seed: u64, n: usize) -> Vec<(u64, [u8; VALUE_LEN])> {
    let mut state = seed.wrapping_mul(0x9E37_79B9_7F4A_7C15) | 1;
    let mut next = move || {
        state = state.wrapping_mul(6364136223846793005).wrapping_add(1442695040888963407);
        state >> 16
    };
    (0..n as u64)
        .map(|i| {
            let mut value = [0u8; VALUE_LEN];
            for b in value.iter_mut() {
                *b = next() as u8;
            }
            (next() << 8 | i, value)
        })
        .collect()
}

fn open_ok<S: Storage>(host: &mut Host<S>) -> Result<u64, DbError>
where
    S::Error: std::fmt::Debug,
{
    match host.open().expect("size probe") {
        Output::OpenDone { result } => result,
        other => panic!("open: {other:?}"),
    }
}

fn get_ok<S: Storage>(host: &mut Host<S>, id: u64) -> Option<[u8; VALUE_LEN]> {
    match host.get(id) {
        Output::GetDone { result: Ok(v), .. } => v.map(|w| w.bytes),
        other => panic!("get: {other:?}"),
    }
}

fn run<S: Storage>(host: &mut Host<S>, ops: &[(u64, [u8; VALUE_LEN])])
where
    S::Error: std::fmt::Debug,
{
    assert_eq!(open_ok(host), Ok(0));
    for &(id, value) in ops {
        match host.insert(id, value) {
            Output::InsertDone { result: Ok(()), .. } => {}
            other => panic!("insert: {other:?}"),
        }
    }
}

#[test]
fn snapshot_and_restore_round_trip_at_every_commit_boundary() {
    let ops = workload(4, INSERTS);
    let mut host = Host::new(CAPS, MemoryStorage::new());
    assert_eq!(open_ok(&mut host), Ok(0));

    for (n, &(id, value)) in ops.iter().enumerate() {
        assert!(matches!(host.insert(id, value), Output::InsertDone { result: Ok(()), .. }));

        // Snapshot the live database after every commit and reload it.
        let (sb, rows, rows_old) = host.storage.snapshot();
        let restored = MemoryStorage::from_images(sb.clone(), rows.clone(), rows_old.clone());
        let mut reloaded = Host::new(CAPS, restored);
        assert_eq!(open_ok(&mut reloaded), Ok(n as u64 + 1), "restore after {} commits", n + 1);
        for &(rid, rvalue) in &ops[..=n] {
            assert_eq!(
                get_ok(&mut reloaded, rid),
                Some(rvalue),
                "restored id={rid} after {} commits",
                n + 1
            );
        }
        // The reload is byte-identical, and writable from there.
        assert_eq!(reloaded.storage.image(FileId::Superblock), &sb[..]);
        assert_eq!(reloaded.storage.image(FileId::Rows), &rows[..]);
        assert!(
            !reloaded.engine.recovery_report().rollback_evidence,
            "clean restore flagged rollback"
        );
    }
}

#[test]
fn corruption_containment_works_in_memory_too() {
    let n = 8usize;
    let ops = workload(13, n);
    let mut pristine = Host::new(CAPS, MemoryStorage::new());
    run(&mut pristine, &ops);
    let (sb, rows, _) = pristine.storage.snapshot();

    for victim in 0..n {
        let mut damaged = rows.clone();
        damaged[victim * ROW_SIZE + 4] ^= 0x40;
        let store = MemoryStorage::from_images(sb.clone(), damaged, Vec::new());

        let mut strict = Host::new(CAPS, store.clone());
        assert!(
            matches!(
                strict.open().expect("probe"),
                Output::OpenDone { result: Err(DbError::Corrupt { .. }) }
            ),
            "victim={victim}: strict open must refuse"
        );

        let mut rescue = Host::new(CAPS, store);
        match rescue.open_salvage().expect("probe") {
            Output::OpenDone { result: Ok(count) } => assert_eq!(count, n as u64),
            other => panic!("victim={victim}: salvage: {other:?}"),
        }
        assert_eq!(rescue.engine.quarantined(), 1, "victim={victim}");
        for (row, &(id, value)) in ops.iter().enumerate() {
            if row == victim {
                continue;
            }
            assert_eq!(
                get_ok(&mut rescue, id),
                Some(value),
                "victim={victim} survivor row {row}"
            );
        }
        // Salvage left the images untouched.
        assert_eq!(rescue.storage.image(FileId::Superblock), &sb[..]);
    }
}

#[test]
fn memory_keeps_consistency_and_makes_no_durability_claim() {
    let ops = workload(2, 6);
    let mut host = Host::new(CAPS, MemoryStorage::new());
    run(&mut host, &ops);

    // The commit protocol really ran: a full superblock zone and one row slot
    // per commit.
    assert_eq!(host.storage.image(FileId::Rows).len(), ops.len() * ROW_SIZE);
    assert!(host.storage.image(FileId::Superblock).len() >= 64);
    assert_eq!(
        host.storage.byte_len(),
        host.storage.image(FileId::Superblock).len() + ops.len() * ROW_SIZE
    );

    // Dropping the store is the "crash": there is nothing to recover from.
    drop(host);
    let mut fresh = Host::new(CAPS, MemoryStorage::new());
    assert_eq!(
        open_ok(&mut fresh),
        Ok(0),
        "an in-memory store must not resurrect a dropped database"
    );
}

#[test]
fn memory_storage_meets_the_seam() {
    let mut s = MemoryStorage::new();
    assert_eq!(s.len(FileId::Rows), Ok(0));
    assert_eq!(s.read(FileId::Rows, 5, 10), Ok(Vec::new()));
    // A write past the end fills the gap with zeros.
    assert_eq!(s.write(FileId::Rows, 4, b"abcd"), Ok(()));
    assert_eq!(s.image(FileId::Rows), b"\0\0\0\0abcd");
    // A write inside leaves the rest alone.
    assert_eq!(s.write(FileId::Rows, 1, b"xy"), Ok(()));
    assert_eq!(s.image(FileId::Rows), b"\0xy\0abcd");
    // Reads are clamped.
    assert_eq!(s.read(FileId::Rows, 6, 100), Ok(b"cd".to_vec()));
    assert_eq!(s.read(FileId::Rows, 1, u64::MAX), Ok(b"xy\0abcd".to_vec()));
    assert_eq!(s.sync(FileId::Rows), Ok(()));
    // Truncation only ever shortens.
    assert_eq!(s.truncate(FileId::Rows, 100), Ok(()));
    assert_eq!(s.len(FileId::Rows), Ok(8));
    assert_eq!(s.truncate(FileId::Rows, 3), Ok(()));
    assert_eq!(s.image(FileId::Rows), b"\0xy");
    // The files do not share their bytes.
    assert_eq!(s.len(FileId::Superblock), Ok(0));
    assert_eq!(s.write(FileId::RowsOld, 0, b"z"), Ok(()));
    assert_eq!(s.byte_len(), 4);
    assert_eq!(MemoryStorage::default(), MemoryStorage::new());
}

#[test]
fn file_names_are_stable() {
    assert_eq!(SUPERBLOCK_FILE, "superblock.dabq");
    assert_eq!(LOCK_FILE, "lock.dabq");
    assert_eq!(rows_file_name(SCHEMA_HASH), "rows-181F56C6632BC4E3.dabq");
    assert_eq!(rows_file_name(0x2A), "rows-000000000000002A.dabq");
}

/// A backend that fails from its `left`th operation on.
struct Flaky {
    inner: MemoryStorage,
    left: u32,
}

#[derive(Debug, PartialEq)]
struct Broken;

impl Flaky {
    fn step(&mut self) -> Result<(), Broken> {
        if self.left == 0 {
            return Err(Broken);
        }
        self.left -= 1;
        Ok(())
    }
}

impl Storage for Flaky {
    type Error = Broken;

    fn medium(&self) -> Medium {
        unreachable!("only named in contracts")
    }

    fn turned(&self, _call: Call, _error: Option<Broken>, _into: &Self) -> bool {
        unreachable!("only named in contracts")
    }

    fn never_fails() -> bool {
        false
    }

    fn len(&mut self, file: FileId) -> Result<u64, Broken> {
        self.step()?;
        Ok(self.inner.image(file).len() as u64)
    }

    fn read(&mut self, file: FileId, offset: u64, len: u64) -> Result<Vec<u8>, Broken> {
        self.step()?;
        Ok(self.inner.read(file, offset, len).unwrap())
    }

    fn write(&mut self, file: FileId, offset: u64, data: &[u8]) -> Result<(), Broken> {
        self.step()?;
        self.inner.write(file, offset, data).unwrap();
        Ok(())
    }

    fn sync(&mut self, file: FileId) -> Result<(), Broken> {
        self.step()?;
        self.inner.sync(file).unwrap();
        Ok(())
    }

    fn truncate(&mut self, file: FileId, len: u64) -> Result<(), Broken> {
        self.step()?;
        self.inner.truncate(file, len).unwrap();
        Ok(())
    }
}

#[test]
fn a_storage_error_fail_stops_and_is_kept() {
    let mut base = Host::new(CAPS, MemoryStorage::new());
    run(&mut base, &workload(7, 3));
    let (sb, rows, old) = base.storage.snapshot();
    let mut committed = false;
    for left in 0..40u32 {
        let inner = MemoryStorage::from_images(sb.clone(), rows.clone(), old.clone());
        let mut host = Host::new(CAPS, Flaky { inner, left });
        match host.open() {
            Err(Broken) => {
                assert!(left < 2, "only the two size probes fail an open outright");
                continue;
            }
            Ok(Output::OpenDone { result: Err(DbError::IoFailed { .. }) }) => {
                assert_eq!(host.last_error, Some(Broken));
                continue;
            }
            Ok(Output::OpenDone { result: Ok(3) }) => assert_eq!(host.last_error, None),
            Ok(other) => panic!("{other:?}"),
        }
        match host.insert(1, [5; VALUE_LEN]) {
            Output::InsertDone { result: Ok(()), .. } => {
                assert_eq!(host.last_error, None);
                committed = true;
            }
            Output::InsertDone { result: Err(DbError::IoFailed { file }), .. } => {
                assert_eq!(host.last_error, Some(Broken));
                // Everything from here on fails the same way.
                assert!(matches!(
                    host.get(1),
                    Output::GetDone { result: Err(DbError::IoFailed { file: f }), .. } if f == file
                ));
                // What is on the files is the database before or after.
                let (sb, rows, old) = host.storage.inner.snapshot();
                let mut again = Host::new(CAPS, MemoryStorage::from_images(sb, rows, old));
                assert!(matches!(open_ok(&mut again), Ok(3) | Ok(4)));
            }
            other => panic!("{other:?}"),
        }
    }
    assert!(committed);
}

/// A backend that notes each call and fails one of them, with that call's
/// number as its error.
struct Recorder {
    inner: MemoryStorage,
    calls: Vec<String>,
    fails: Option<usize>,
}

impl Recorder {
    fn on(inner: MemoryStorage) -> Recorder {
        Recorder { inner, calls: Vec::new(), fails: None }
    }

    fn note(&mut self, call: &str, file: FileId) -> Result<(), usize> {
        let n = self.calls.len();
        self.calls.push(format!("{call} {file:?}"));
        if self.fails == Some(n) {
            return Err(n);
        }
        Ok(())
    }
}

impl Storage for Recorder {
    type Error = usize;

    fn medium(&self) -> Medium {
        unreachable!("only named in contracts")
    }

    fn turned(&self, _call: Call, _error: Option<usize>, _into: &Self) -> bool {
        unreachable!("only named in contracts")
    }

    fn never_fails() -> bool {
        false
    }

    fn len(&mut self, file: FileId) -> Result<u64, usize> {
        self.note("len", file)?;
        Ok(self.inner.image(file).len() as u64)
    }

    fn read(&mut self, file: FileId, offset: u64, len: u64) -> Result<Vec<u8>, usize> {
        self.note("read", file)?;
        Ok(self.inner.read(file, offset, len).unwrap())
    }

    fn write(&mut self, file: FileId, offset: u64, data: &[u8]) -> Result<(), usize> {
        self.note("write", file)?;
        self.inner.write(file, offset, data).unwrap();
        Ok(())
    }

    fn sync(&mut self, file: FileId) -> Result<(), usize> {
        self.note("sync", file)
    }

    fn truncate(&mut self, file: FileId, len: u64) -> Result<(), usize> {
        self.note("truncate", file)?;
        self.inner.truncate(file, len).unwrap();
        Ok(())
    }
}

/// Every file was synced after it was last written to, and the rows were synced
/// before the superblock was written to.
fn synced_in_order(calls: &[String]) -> bool {
    let last = |name: &str| calls.iter().rposition(|c| c == name);
    last("write Superblock") < last("sync Superblock")
        && last("write Rows") < last("sync Rows")
        && last("sync Rows") < calls.iter().position(|c| c == "write Superblock")
}

#[test]
fn what_is_acknowledged_has_been_synced() {
    let mut host = Host::new(CAPS, Recorder::on(MemoryStorage::new()));
    assert_eq!(open_ok(&mut host), Ok(0));
    let calls = std::mem::take(&mut host.storage.calls);
    assert_eq!(calls.last().map(String::as_str), Some("sync Superblock"));
    for id in 0..4u64 {
        let out = host.insert(id, [3; VALUE_LEN]);
        assert!(matches!(out, Output::InsertDone { result: Ok(()), .. }));
        let calls = std::mem::take(&mut host.storage.calls);
        assert!(synced_in_order(&calls), "insert: {calls:?}");
        assert_eq!(calls.last().map(String::as_str), Some("sync Superblock"));
    }
    let mut again = Host::new(CAPS, Recorder::on(host.storage.inner));
    assert_eq!(open_ok(&mut again), Ok(4));
    assert!(again.storage.calls.contains(&"sync Rows".to_string()));
    assert!(again.storage.calls.contains(&"sync Superblock".to_string()));

    let (zone, rows_old) = legacy_files(3);
    let store = MemoryStorage::from_images(zone, Vec::new(), rows_old);
    let mut host = Host::new(CAPS, Recorder::on(store));
    assert_eq!(host.migrate(), Ok(Output::MigrateDone { result: Ok(3) }));
    assert!(synced_in_order(&host.storage.calls), "migrate: {:?}", host.storage.calls);
}

#[test]
fn the_error_of_the_call_that_failed_is_kept_and_no_call_follows() {
    let mut base = Host::new(CAPS, Recorder::on(MemoryStorage::new()));
    assert_eq!(open_ok(&mut base), Ok(0));
    let opened = base.storage.calls.len();
    assert!(matches!(base.insert(8, [1; VALUE_LEN]), Output::InsertDone { result: Ok(()), .. }));
    let total = base.storage.calls.len();

    for fails in 0..total {
        let mut host = Host::new(CAPS, Recorder::on(MemoryStorage::new()));
        host.storage.fails = Some(fails);
        // An older error gives way to the new one.
        host.last_error = Some(1000);
        match host.open() {
            Err(n) => {
                assert!(fails < 2);
                assert_eq!(n, fails);
                assert_eq!(host.last_error, Some(1000));
            }
            Ok(Output::OpenDone { result: Ok(0) }) => {
                assert!(fails >= opened);
                assert_eq!(host.last_error, Some(1000));
                let out = host.insert(8, [1; VALUE_LEN]);
                assert!(matches!(
                    out,
                    Output::InsertDone { result: Err(DbError::IoFailed { .. }), .. }
                ));
                assert_eq!(host.last_error, Some(fails));
            }
            Ok(Output::OpenDone { result: Err(DbError::IoFailed { .. }) }) => {
                assert_eq!(host.last_error, Some(fails));
            }
            Ok(other) => panic!("{other:?}"),
        }
        assert_eq!(host.storage.calls.len(), fails + 1);
    }
}

#[test]
fn a_legacy_superblock_file_may_hold_a_single_copy() {
    // An odd count: the newest copies are the first two of the file.
    let n = 5u64;
    for len in [SB_COPY_SIZE, SB_COPY_SIZE + 36, 2 * SB_COPY_SIZE, 3 * SB_COPY_SIZE] {
        let (mut zone, rows_old) = legacy_files(n);
        zone.truncate(len);
        let store = MemoryStorage::from_images(zone, Vec::new(), rows_old);
        let mut host = Host::new(CAPS, store);
        assert_eq!(host.migrate(), Ok(Output::MigrateDone { result: Ok(n) }));
        assert_eq!(host.storage.image(FileId::Superblock).len(), 4 * SB_COPY_SIZE);
        assert_eq!(open_ok(&mut host), Ok(n));
        for i in 0..n {
            let mut expect = [0u8; VALUE_LEN];
            expect[..8].copy_from_slice(&(i * 1000 + 7).to_le_bytes());
            assert_eq!(get_ok(&mut host, i * 3), Some(expect));
        }
    }
}

fn legacy_files(n: u64) -> (Vec<u8>, Vec<u8>) {
    let mut copy = [0u8; SB_COPY_SIZE];
    encode_sb(n + 1, n, &mut copy);
    copy[24..32].copy_from_slice(&V1_SCHEMA_HASH.to_le_bytes());
    let sum = crc32(&copy[0..32]);
    copy[32..36].copy_from_slice(&sum.to_le_bytes());
    let mut zone = vec![0u8; 4 * SB_COPY_SIZE];
    let pair = 2 * ((n + 1) % 2) as usize;
    for slot in [pair, pair + 1] {
        zone[slot * SB_COPY_SIZE..(slot + 1) * SB_COPY_SIZE].copy_from_slice(&copy);
    }
    let mut rows = Vec::new();
    for i in 0..n {
        let mut slot = [0u8; V1_ROW_SIZE];
        let row = records_v1::RecordsRow { id: i * 3, value: (i * 1000 + 7).to_le_bytes() };
        records_v1::encode_records_row(&row, &mut slot);
        rows.extend_from_slice(&slot);
    }
    (zone, rows)
}

#[test]
fn a_legacy_database_is_carried_over_whole() {
    for n in [0u64, 1, 5, 16] {
        let (zone, rows_old) = legacy_files(n);
        let store = MemoryStorage::from_images(zone, Vec::new(), rows_old.clone());
        // The engine refuses it and says why.
        let mut host = Host::new(CAPS, store.clone());
        assert_eq!(
            open_ok(&mut host),
            Err(DbError::SchemaMismatch {
                file_schema: V1_SCHEMA_HASH,
                binary_schema: SCHEMA_HASH
            })
        );
        let mut host = Host::new(CAPS, store);
        assert_eq!(host.migrate(), Ok(Output::MigrateDone { result: Ok(n) }));
        assert_eq!(host.storage.image(FileId::RowsOld), &rows_old[..]);
        // A second time there is nothing to do.
        let before = host.storage.snapshot();
        assert_eq!(host.migrate(), Ok(Output::MigrateDone { result: Ok(n) }));
        assert_eq!(host.storage.snapshot(), before);
        assert_eq!(open_ok(&mut host), Ok(n));
        for i in 0..n {
            let mut expect = [0u8; VALUE_LEN];
            expect[..8].copy_from_slice(&(i * 1000 + 7).to_le_bytes());
            assert_eq!(get_ok(&mut host, i * 3), Some(expect));
        }
        assert_eq!(get_ok(&mut host, 1), None);
    }
}

#[test]
fn a_migration_cut_off_anywhere_can_be_run_again() {
    let n = 5u64;
    let (zone, rows_old) = legacy_files(n);
    for left in 0..40u32 {
        let inner = MemoryStorage::from_images(zone.clone(), Vec::new(), rows_old.clone());
        let mut host = Host::new(CAPS, Flaky { inner, left });
        let done = host.migrate() == Ok(Output::MigrateDone { result: Ok(n) });
        let (sb, rows, old) = host.storage.inner.snapshot();
        assert_eq!(old, rows_old);
        let mut again = Host::new(CAPS, MemoryStorage::from_images(sb, rows, old));
        assert_eq!(again.migrate(), Ok(Output::MigrateDone { result: Ok(n) }));
        assert_eq!(open_ok(&mut again), Ok(n));
        assert_eq!(get_ok(&mut again, 12).map(|v| v[0]), Some((4007u64 % 256) as u8));
        if done {
            return;
        }
    }
    panic!("the migration never finished");
}

#[test]
fn a_damaged_database_is_rebuilt_with_what_verifies() {
    let n = 6usize;
    let ops = workload(21, n);
    let mut pristine = Host::new(CAPS, MemoryStorage::new());
    run(&mut pristine, &ops);
    let long = b"a value that is longer than a single row can hold";
    assert!(matches!(
        pristine.submit(Input::Batch { ops: &[BatchOp::Insert { id: 5, value: long }] }),
        Output::BatchDone { rows: 4, result: Ok(()) }
    ));
    let (sb, mut rows, _) = pristine.storage.snapshot();
    rows[2 * ROW_SIZE + 4] ^= 0x40;

    let mut source = Host::new(CAPS, MemoryStorage::from_images(sb, rows, Vec::new()));
    source.open_salvage().expect("salvage");
    let mut dest = Host::new(CAPS, MemoryStorage::new());
    assert_eq!(open_ok(&mut dest), Ok(0));
    assert_eq!(rebuild(&source, &mut dest), Ok((n as u64, 1)));

    // The rebuilt database is whole, clean, and on its files.
    let (sb, rows, old) = dest.storage.snapshot();
    let mut again = Host::new(CAPS, MemoryStorage::from_images(sb, rows, old));
    assert_eq!(open_ok(&mut again), Ok(n as u64 - 1 + 4));
    assert!(!again.engine.is_degraded());
    for (row, &(id, value)) in ops.iter().enumerate() {
        let expect = if row == 2 { None } else { Some(value) };
        assert_eq!(get_ok(&mut again, id), expect);
    }
    assert!(again.engine.live_rows().contains(&(5, long.to_vec())));
}

#[test]
fn a_rebuild_that_cannot_write_says_which_row() {
    let ops = workload(22, 3);
    let mut source = Host::new(CAPS, MemoryStorage::new());
    run(&mut source, &ops);
    let mut dest = Host::new(CAPS, Flaky { inner: MemoryStorage::new(), left: 7 });
    assert_eq!(open_ok(&mut dest), Ok(0));
    let e = rebuild(&source, &mut dest).expect_err("the storage fails");
    assert_eq!(e.id, ops[0].0);
    assert!(matches!(e.error, DbError::IoFailed { .. }));
    assert_eq!(dest.last_error, Some(Broken));
}

#[test]
fn a_rebuild_reclaims_what_is_dead() {
    let mut source = Host::new(CAPS, MemoryStorage::new());
    assert_eq!(open_ok(&mut source), Ok(0));
    for op in [
        BatchOp::Insert { id: 1, value: &[1u8; 40] },
        BatchOp::Insert { id: 2, value: &[2u8; 17] },
        BatchOp::Update { id: 1, value: &[3u8; 33] },
        BatchOp::Delete { id: 2 },
        BatchOp::Insert { id: 3, value: b"" },
    ] {
        assert!(matches!(
            source.submit(Input::Batch { ops: &[op] }),
            Output::BatchDone { result: Ok(()), .. }
        ));
    }
    let dead = source.engine.dead_slots();
    assert_eq!((source.engine.usage().0, dead), (10, 6));
    let mut dest = Host::new(CAPS, MemoryStorage::new());
    assert_eq!(open_ok(&mut dest), Ok(0));
    assert_eq!(rebuild(&source, &mut dest), Ok((2, 0)));
    assert_eq!((dest.engine.usage().0, dest.engine.dead_slots()), (10 - dead, 0));
    assert_eq!(dest.engine.live_rows(), source.engine.live_rows());
}

#[test]
fn salvaging_sound_files_is_opening_them() {
    let mut base = Host::new(CAPS, MemoryStorage::new());
    run(&mut base, &workload(31, 5));
    let (sb, rows, old) = base.storage.snapshot();
    // As it stands, with a torn copy, with residue past the rows, and empty.
    let mut torn = sb.clone();
    torn[5] ^= 1;
    let mut residue = rows.clone();
    residue.extend_from_slice(&[3u8; 70]);
    for (sb, rows) in [
        (sb.clone(), rows.clone()),
        (torn, rows.clone()),
        (sb.clone(), residue),
        (sb, rows[..2 * ROW_SIZE].to_vec()),
        (Vec::new(), Vec::new()),
    ] {
        let mut strict =
            Host::new(CAPS, MemoryStorage::from_images(sb.clone(), rows.clone(), old.clone()));
        let mut salvage = Host::new(CAPS, MemoryStorage::from_images(sb, rows, old.clone()));
        assert_eq!(strict.open(), salvage.open_salvage());
        assert_eq!(strict.storage.snapshot(), salvage.storage.snapshot());
        assert_eq!(strict.engine.live_rows(), salvage.engine.live_rows());
        assert_eq!(strict.engine.recovery_report(), salvage.engine.recovery_report());
        assert!(!salvage.engine.is_degraded());
    }
}

#[test]
fn salvaging_damage_touches_no_byte() {
    let ops = workload(32, 6);
    let mut base = Host::new(CAPS, MemoryStorage::new());
    run(&mut base, &ops);
    let (mut sb, mut rows, old) = base.storage.snapshot();
    sb[5] ^= 1;
    rows[3 * ROW_SIZE + 9] ^= 1;
    rows.extend_from_slice(&[3u8; 70]);
    let store = MemoryStorage::from_images(sb, rows, old);
    let before = store.snapshot();
    let mut host = Host::new(CAPS, store);
    assert_eq!(host.open_salvage(), Ok(Output::OpenDone { result: Ok(6) }));
    assert_eq!(host.storage.snapshot(), before);
    assert!(host.engine.is_degraded());
    assert_eq!((host.engine.quarantined(), host.engine.live_count()), (1, 5));
    assert_eq!(get_ok(&mut host, ops[2].0), Some(ops[2].1));
    assert_eq!(
        host.get(ops[3].0),
        Output::GetDone { id: ops[3].0, result: Err(DbError::Degraded { quarantined: 1 }) }
    );
    assert_eq!(host.storage.snapshot(), before);
}
