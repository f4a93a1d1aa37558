use dabqlite::crc32::crc32;
use dabqlite::engine::types::{BatchOp, Capacities, DbError, FileId, Input, Output};
use dabqlite::generated::records_v1;
use dabqlite::host::disk::Call;
use dabqlite::host::medium::Medium;
use dabqlite::host::{Host, MemoryStorage, Storage};
use dabqlite::layout::{encode_sb, SB_COPY_SIZE};
use dabqlite::migration::{V1_ROW_SIZE, V1_SCHEMA_HASH};
use dabqlite::{ROW_SIZE, VALUE_LEN};

const CAPS: Capacities = Capacities { rows: 32 };

#[derive(Debug, PartialEq)]
struct PowerLoss;

#[derive(Clone)]
enum Pending {
    Write { file: FileId, offset: u64, data: Vec<u8> },
    Truncate { file: FileId, len: u64 },
}

/// A device that forgets what was not synced. The `left`th operation is the one
/// that the power fails in.
struct Device {
    durable: MemoryStorage,
    now: MemoryStorage,
    pending: Vec<Pending>,
    left: u32,
    /// The file whose syncs do nothing, though they are reported done.
    liar: Option<FileId>,
}

/// What becomes of an unsynced request.
#[derive(Clone, Copy, Debug)]
enum Fate {
    Vanishes,
    Survives,
    FirstHalf,
    SecondHalf,
    Garbage,
}

const FATES: [Fate; 5] =
    [Fate::Vanishes, Fate::Survives, Fate::FirstHalf, Fate::SecondHalf, Fate::Garbage];

impl Device {
    fn new(image: MemoryStorage, left: u32) -> Self {
        Device { durable: image.clone(), now: image, pending: Vec::new(), left, liar: None }
    }

    fn step(&mut self) -> Result<(), PowerLoss> {
        if self.left == 0 {
            return Err(PowerLoss);
        }
        self.left -= 1;
        Ok(())
    }

    /// What is on the medium when the power is back.
    fn remains(&self, fate: impl Fn(usize) -> Fate) -> MemoryStorage {
        let mut image = self.durable.clone();
        for (i, p) in self.pending.iter().enumerate() {
            match p {
                Pending::Write { file, offset, data } => {
                    let half = data.len() / 2;
                    match fate(i) {
                        Fate::Vanishes => {}
                        Fate::Survives => image.write(*file, *offset, data).unwrap(),
                        Fate::FirstHalf => image.write(*file, *offset, &data[..half]).unwrap(),
                        Fate::SecondHalf => {
                            image.write(*file, *offset + half as u64, &data[half..]).unwrap()
                        }
                        Fate::Garbage => {
                            let noise: Vec<u8> =
                                (0..data.len()).map(|b| (b * 37 + i * 11 + 5) as u8).collect();
                            image.write(*file, *offset, &noise).unwrap()
                        }
                    }
                }
                Pending::Truncate { file, len } => {
                    if let Fate::Survives = fate(i) {
                        image.truncate(*file, *len).unwrap()
                    }
                }
            }
        }
        image
    }
}

impl Storage for Device {
    type Error = PowerLoss;

    fn medium(&self) -> Medium {
        unreachable!("only named in contracts")
    }

    fn turned(&self, _call: Call, _error: Option<PowerLoss>, _into: &Self) -> bool {
        unreachable!("only named in contracts")
    }

    fn never_fails() -> bool {
        false
    }

    fn len(&mut self, file: FileId) -> Result<u64, PowerLoss> {
        Ok(self.now.image(file).len() as u64)
    }

    fn read(&mut self, file: FileId, offset: u64, len: u64) -> Result<Vec<u8>, PowerLoss> {
        self.step()?;
        Ok(self.now.read(file, offset, len).unwrap())
    }

    fn write(&mut self, file: FileId, offset: u64, data: &[u8]) -> Result<(), PowerLoss> {
        // A write in flight may have landed too.
        self.pending.push(Pending::Write { file, offset, data: data.to_vec() });
        self.step()?;
        self.now.write(file, offset, data).unwrap();
        Ok(())
    }

    fn sync(&mut self, file: FileId) -> Result<(), PowerLoss> {
        self.step()?;
        if self.liar == Some(file) {
            return Ok(());
        }
        let kept: Vec<Pending> = self
            .pending
            .iter()
            .filter(|p| match p {
                Pending::Write { file: f, .. } | Pending::Truncate { file: f, .. } => *f != file,
            })
            .cloned()
            .collect();
        for p in &self.pending {
            match p {
                Pending::Write { file: f, offset, data } if *f == file => {
                    self.durable.write(*f, *offset, data).unwrap()
                }
                Pending::Truncate { file: f, len } if *f == file => {
                    self.durable.truncate(*f, *len).unwrap()
                }
                _ => {}
            }
        }
        self.pending = kept;
        Ok(())
    }

    fn truncate(&mut self, file: FileId, len: u64) -> Result<(), PowerLoss> {
        self.pending.push(Pending::Truncate { file, len });
        self.step()?;
        self.now.truncate(file, len).unwrap();
        Ok(())
    }
}

fn open_ok<S: Storage>(host: &mut Host<S>) -> Result<u64, DbError>
where
    S::Error: std::fmt::Debug,
{
    match host.open().expect("size probe") {
        Output::OpenDone { result } => result,
        other => panic!("open: {other:?}"),
    }
}

fn value(id: u64) -> [u8; VALUE_LEN] {
    let mut v = [0xA5; VALUE_LEN];
    v[..8].copy_from_slice(&(id * 77 + 3).to_le_bytes());
    v
}

fn database(n: u64) -> MemoryStorage {
    let mut host = Host::new(CAPS, MemoryStorage::new());
    assert_eq!(open_ok(&mut host), Ok(0));
    for id in 0..n {
        assert!(matches!(host.insert(id, value(id)), Output::InsertDone { result: Ok(()), .. }));
    }
    host.storage
}

/// The ids that are found, each with its value.
fn found(image: MemoryStorage) -> Vec<u64> {
    let mut host = Host::new(CAPS, image);
    open_ok(&mut host).expect("recovers");
    let rows = host.engine.live_rows();
    for (id, bytes) in &rows {
        assert_eq!(bytes[..], value(*id)[..]);
    }
    rows.iter().map(|(id, _)| *id).collect()
}

/// Every fate of every pending request, for as many as there are.
fn every_fate(pending: usize, mut check: impl FnMut(&[Fate])) {
    let total = FATES.len().pow(pending.min(4) as u32);
    for code in 0..total {
        let mut c = code;
        let mut fates = Vec::new();
        for _ in 0..pending {
            fates.push(FATES[c % FATES.len()]);
            c /= FATES.len();
        }
        check(&fates);
    }
}

#[test]
fn a_crash_in_a_write_leaves_it_whole_or_not_at_all() {
    let base = database(3);
    let before = found(base.clone());
    let (mut lost, mut kept) = (0, 0);
    for left in 0..64u32 {
        let mut host = Host::new(CAPS, Device::new(base.clone(), 1000));
        assert_eq!(open_ok(&mut host), Ok(3));
        host.storage.left = left;
        let put = |id: u64| BatchOp::Insert { id, value: Box::leak(Box::new(value(id))) };
        let ops = [put(10), put(11), put(12)];
        let out = host.submit(Input::Batch { ops: &ops });
        let acknowledged = matches!(out, Output::BatchDone { result: Ok(()), .. });
        let mut after = before.clone();
        after.extend([10, 11, 12]);
        every_fate(host.storage.pending.len(), |fates| {
            let ids = found(host.storage.remains(|i| fates[i]));
            assert!(ids == before || ids == after, "left {left}, {fates:?}: {ids:?}");
            if acknowledged {
                assert_eq!(ids, after);
            }
            if ids == after {
                kept += 1;
            } else {
                lost += 1;
            }
        });
        if acknowledged {
            assert!(host.storage.pending.is_empty(), "acknowledged before it was synced");
            assert!(lost > 0 && kept > 0);
            return;
        }
    }
    panic!("the batch was never acknowledged");
}

#[test]
fn a_crash_while_opening_changes_nothing() {
    let mut base = database(4);
    // A damaged copy to repair, and rows that no superblock references.
    let live = 2 * (5 % 2) as u64 * SB_COPY_SIZE as u64;
    base.write(FileId::Superblock, live + 3, &[0xFF]).unwrap();
    base.write(FileId::Rows, 4 * ROW_SIZE as u64, &[9; 40]).unwrap();
    let ids = found(base.clone());
    assert_eq!(ids, [0, 1, 2, 3]);
    for left in 0..64u32 {
        let mut host = Host::new(CAPS, Device::new(base.clone(), left));
        let served = open_ok(&mut host) == Ok(4);
        every_fate(host.storage.pending.len(), |fates| {
            assert_eq!(found(host.storage.remains(|i| fates[i])), ids);
        });
        if served {
            assert!(host.storage.pending.is_empty(), "served before it was synced");
            return;
        }
    }
    panic!("never opened");
}

#[test]
fn a_crash_while_creating_is_made_up_for() {
    for left in 0..16u32 {
        let mut host = Host::new(CAPS, Device::new(MemoryStorage::new(), left));
        let created = open_ok(&mut host) == Ok(0);
        every_fate(host.storage.pending.len(), |fates| {
            assert_eq!(found(host.storage.remains(|i| fates[i])), Vec::<u64>::new());
        });
        if created {
            return;
        }
    }
    panic!("never created");
}

#[test]
fn a_crash_while_migrating_loses_no_row() {
    let n = 3u64;
    let mut copy = [0u8; SB_COPY_SIZE];
    encode_sb(n + 1, n, &mut copy);
    copy[24..32].copy_from_slice(&V1_SCHEMA_HASH.to_le_bytes());
    let sum = crc32(&copy[0..32]);
    copy[32..36].copy_from_slice(&sum.to_le_bytes());
    let mut zone = vec![0u8; 4 * SB_COPY_SIZE];
    zone[..SB_COPY_SIZE].copy_from_slice(&copy);
    zone[SB_COPY_SIZE..2 * SB_COPY_SIZE].copy_from_slice(&copy);
    let mut old = Vec::new();
    for id in 0..n {
        let mut slot = [0u8; V1_ROW_SIZE];
        let row = records_v1::RecordsRow { id, value: (id + 40).to_le_bytes() };
        records_v1::encode_records_row(&row, &mut slot);
        old.extend_from_slice(&slot);
    }
    let base = MemoryStorage::from_images(zone, Vec::new(), old.clone());
    for left in 0..64u32 {
        let mut host = Host::new(CAPS, Device::new(base.clone(), left));
        let done = host.migrate() == Ok(Output::MigrateDone { result: Ok(n) });
        every_fate(host.storage.pending.len(), |fates| {
            let image = host.storage.remains(|i| fates[i]);
            assert_eq!(image.image(FileId::RowsOld), &old[..]);
            let mut again = Host::new(CAPS, image);
            assert_eq!(again.migrate(), Ok(Output::MigrateDone { result: Ok(n) }));
            assert_eq!(open_ok(&mut again), Ok(n));
            for (id, bytes) in again.engine.live_rows() {
                assert_eq!(bytes[..8], (id + 40).to_le_bytes());
                assert_eq!(bytes[8..], [0; 8]);
            }
        });
        if done {
            return;
        }
    }
    panic!("never migrated");
}

#[test]
fn any_one_rotten_superblock_byte_is_survived() {
    let base = database(3);
    for at in 0..base.image(FileId::Superblock).len() {
        for flip in [0x01u8, 0x80, 0xFF] {
            let (mut sb, rows, old) = base.snapshot();
            sb[at] ^= flip;
            assert_eq!(found(MemoryStorage::from_images(sb, rows, old)), [0, 1, 2], "byte {at}");
        }
    }
}

#[test]
fn any_one_rotten_row_byte_is_refused() {
    let base = database(3);
    for at in 0..base.image(FileId::Rows).len() {
        for flip in [0x01u8, 0x80, 0xFF] {
            let (sb, mut rows, old) = base.snapshot();
            rows[at] ^= flip;
            let before = (sb.clone(), rows.clone(), old.clone());
            let mut host = Host::new(CAPS, MemoryStorage::from_images(sb, rows, old));
            assert!(
                matches!(open_ok(&mut host), Err(DbError::Corrupt { .. })),
                "byte {at} went unnoticed"
            );
            assert_eq!(host.storage.snapshot(), before);
        }
    }
}

#[test]
fn rows_that_were_cut_off_are_missed() {
    let base = database(3);
    for len in 0..base.image(FileId::Rows).len() {
        let (sb, mut rows, old) = base.snapshot();
        rows.truncate(len);
        let mut host = Host::new(CAPS, MemoryStorage::from_images(sb, rows, old));
        assert!(matches!(open_ok(&mut host), Err(DbError::Corrupt { .. })), "{len} bytes");
    }
}

#[test]
fn a_lying_sync_is_never_silent() {
    let base = database(3);
    let before = found(base.clone());
    let (mut lost, mut refused) = (0, 0);
    for liar in [FileId::Rows, FileId::Superblock] {
        let mut host = Host::new(CAPS, Device::new(base.clone(), 1000));
        assert_eq!(open_ok(&mut host), Ok(3));
        host.storage.liar = Some(liar);
        assert!(matches!(host.insert(10, value(10)), Output::InsertDone { result: Ok(()), .. }));
        let mut after = before.clone();
        after.push(10);
        every_fate(host.storage.pending.len(), |fates| {
            let image = host.storage.remains(|i| fates[i]);
            let mut again = Host::new(CAPS, image.clone());
            match open_ok(&mut again) {
                Ok(_) => {
                    let ids = found(image);
                    assert!(ids == before || ids == after);
                    lost += (ids == before) as u32;
                }
                Err(DbError::Corrupt { .. }) => refused += 1,
                Err(other) => panic!("{other:?}"),
            }
        });
    }
    assert!(lost > 0 && refused > 0);
}

#[test]
fn a_misplaced_superblock_is_not_trusted() {
    let (mut sb, rows, old) = database(3).snapshot();
    // A newer copy, misdirected into the live pair's slots.
    let mut copy = [0u8; SB_COPY_SIZE];
    encode_sb(9, 0, &mut copy);
    sb[..SB_COPY_SIZE].copy_from_slice(&copy);
    assert_eq!(found(MemoryStorage::from_images(sb, rows, old)), [0, 1, 2]);
}

#[test]
fn commits_that_were_taken_back_are_flagged() {
    let (sb, _, _) = database(2).snapshot();
    let opened = |rows: u64| {
        let (_, all, _) = database(rows).snapshot();
        let mut host = Host::new(CAPS, MemoryStorage::from_images(sb.clone(), all, Vec::new()));
        assert_eq!(open_ok(&mut host), Ok(2));
        host.engine.recovery_report()
    };
    // Nothing past the superblock, then one commit: it may have been
    // interrupted. Two cannot both have been.
    assert!(!opened(2).rollback_evidence);
    assert!(!opened(3).rollback_evidence);
    assert_eq!(opened(3).orphan_valid_rows, 1);
    assert!(opened(4).rollback_evidence);
    assert_eq!(opened(4).orphan_valid_rows, 2);
    assert!(opened(7).rollback_evidence);
}
