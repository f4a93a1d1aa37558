use dabqlite::engine::types::{Capacities, DbError, FileId, Output};
use dabqlite::host::{Host, MemoryStorage};
use dabqlite::inspect::report::{healthy, may_reclaim, report_text, Keep};
use dabqlite::inspect::{inspect, SlotState, Verdict};
use dabqlite::layout::{encode_sb, SB_COPY_SIZE};
use dabqlite::migration::V1_SCHEMA_HASH;
use dabqlite::{ROW_SIZE, SCHEMA_HASH};

fn database(n: u64) -> (Vec<u8>, Vec<u8>) {
    let mut host = Host::new(Capacities { rows: 32 }, MemoryStorage::new());
    host.open().expect("open");
    for id in 0..n {
        assert!(matches!(
            host.insert(id, [id as u8; 16]),
            Output::InsertDone { result: Ok(()), .. }
        ));
    }
    let (sb, rows, _) = host.storage.snapshot();
    (sb, rows)
}

/// What a strict open makes of the same bytes.
fn opened(sb: &[u8], rows: &[u8]) -> Result<u64, DbError> {
    let store = MemoryStorage::from_images(sb.to_vec(), rows.to_vec(), Vec::new());
    let mut host = Host::new(Capacities { rows: 32 }, store);
    match host.open().expect("open") {
        Output::OpenDone { result } => result,
        other => panic!("{other:?}"),
    }
}

#[test]
fn a_sound_database_is_reported_as_such() {
    let (sb, rows) = database(5);
    let r = inspect(&sb, &rows);
    assert_eq!(r.verdict, Verdict::Recovers { rows: 5 });
    assert!(!r.rollback_evidence);
    assert_eq!(r.rows.committed_valid, 5);
    assert_eq!(r.rows.committed_corrupt, 0);
    assert_eq!(r.rows.live_records, 5);
    let live = r.live.expect("a live copy");
    assert_eq!((live.generation, live.row_count, live.schema), (6, 5, SCHEMA_HASH));
    assert!(matches!(
        r.slots[live.slot as usize],
        SlotState::Valid { generation: 6, row_count: 5, in_home_pair: true, .. }
    ));
}

#[test]
fn nothing_at_all_is_a_fresh_start() {
    let r = inspect(&[], &[]);
    assert_eq!(r.verdict, Verdict::FreshInit);
    assert!(r.slots.iter().all(|s| matches!(s, SlotState::Missing)));
    assert_eq!(r.live, None);
    let r = inspect(&[0u8; 256], &[]);
    assert_eq!(r.verdict, Verdict::FreshInit);
    assert!(r.slots.iter().all(|s| matches!(s, SlotState::Empty)));
}

#[test]
fn the_verdict_is_what_an_open_does_whatever_is_damaged() {
    let (sb, rows) = database(6);
    let mut cases: Vec<(Vec<u8>, Vec<u8>)> = Vec::new();
    for at in (0..sb.len()).step_by(5) {
        let mut bad = sb.clone();
        bad[at] ^= 0x20;
        cases.push((bad, rows.clone()));
    }
    for at in (0..rows.len()).step_by(3) {
        let mut bad = rows.clone();
        bad[at] ^= 0x20;
        cases.push((sb.clone(), bad));
    }
    for cut in [0usize, 1, 8, 64, 120, 192, 255] {
        cases.push((sb[..cut].to_vec(), rows.clone()));
        cases.push((sb[..cut].to_vec(), Vec::new()));
    }
    // A zone that was never written, and one whose copies were never committed.
    let mut uncommitted = vec![0u8; 4 * SB_COPY_SIZE];
    for slot in 0..4usize {
        let mut copy = [0u8; SB_COPY_SIZE];
        encode_sb(0, 0, &mut copy);
        uncommitted[slot * SB_COPY_SIZE..][..SB_COPY_SIZE].copy_from_slice(&copy);
    }
    for zone in [vec![0u8; 4 * SB_COPY_SIZE], uncommitted] {
        cases.push((zone.clone(), rows.clone()));
        cases.push((zone, Vec::new()));
    }
    for cut in [0usize, 32, 100, 191] {
        cases.push((sb.clone(), rows[..cut].to_vec()));
    }
    for (sb, rows) in cases {
        match (inspect(&sb, &rows).verdict, opened(&sb, &rows)) {
            (Verdict::Recovers { rows: n }, Ok(m)) => assert_eq!(n, m),
            (Verdict::FreshInit, Ok(m)) => assert_eq!(m, 0),
            (Verdict::Corrupt { what }, Err(DbError::Corrupt { what: w })) => assert_eq!(what, w),
            (
                Verdict::SchemaMismatch { file_schema, .. },
                Err(DbError::SchemaMismatch { file_schema: f, binary_schema }),
            ) => assert_eq!((file_schema, binary_schema), (f, SCHEMA_HASH)),
            (v, o) => panic!("inspector says {v:?}, open says {o:?}"),
        }
    }
}

#[test]
fn damage_is_located_and_counted() {
    let (sb, mut rows) = database(6);
    rows[2 * ROW_SIZE + 1] ^= 1;
    rows[4 * ROW_SIZE + 1] ^= 1;
    let r = inspect(&sb, &rows);
    assert_eq!(r.rows.committed_corrupt, 2);
    assert_eq!(r.rows.committed_valid, 4);
    assert_eq!(r.rows.corrupt_offsets, vec![64, 128]);
    assert!(matches!(r.verdict, Verdict::Corrupt { .. }));
}

#[test]
fn orphans_and_rollbacks_are_told_apart() {
    let (_, rows) = database(6);
    let (four, _) = database(4);
    let r = inspect(&four, &rows);
    assert_eq!(r.verdict, Verdict::Recovers { rows: 4 });
    assert_eq!(r.rows.orphan_valid, 2);
    assert!(r.rollback_evidence);
    let (five, _) = database(5);
    let r = inspect(&five, &rows);
    assert_eq!(r.rows.orphan_valid, 1);
    assert!(!r.rollback_evidence);
    let mut junk = rows.clone();
    junk[5 * ROW_SIZE] ^= 1;
    let r = inspect(&five, &junk);
    assert_eq!((r.rows.orphan_valid, r.rows.orphan_invalid), (0, 1));
}

#[test]
fn a_legacy_file_is_recognized() {
    for (schema, migratable) in [(V1_SCHEMA_HASH, true), (42, false)] {
        let mut copy = [0u8; SB_COPY_SIZE];
        encode_sb(2, 3, &mut copy);
        copy[24..32].copy_from_slice(&schema.to_le_bytes());
        let sum = dabqlite::crc32::crc32(&copy[0..32]);
        copy[32..36].copy_from_slice(&sum.to_le_bytes());
        let mut sb = vec![0u8; 256];
        sb[0..64].copy_from_slice(&copy);
        assert_eq!(
            inspect(&sb, &[]).verdict,
            Verdict::SchemaMismatch { file_schema: schema, migratable }
        );
    }
}

#[test]
fn inspecting_writes_nothing() {
    let (sb, rows) = database(3);
    let store = MemoryStorage::from_images(sb.clone(), rows.clone(), Vec::new());
    inspect(store.image(FileId::Superblock), store.image(FileId::Rows));
    assert_eq!(store.snapshot(), (sb, rows, Vec::new()));
}

#[test]
fn the_report_reads_the_same_every_time() {
    let (sb, rows) = database(3);
    let report = inspect(&sb, &rows);
    let files = vec![
        ("superblock.dabq".to_string(), 256u64),
        ("notes.txt".to_string(), 9),
        ("rows-181F56C6632BC4E3.dabq".to_string(), 96),
        ("lock.dabq".to_string(), 0),
        ("zz.dabq".to_string(), 123456789),
    ];
    let expected = "dabqlite inspector\n\
        binary schema   0x181F56C6632BC4E3\n\
        legacy schema   0xC4345B300A440058 (migratable)\n\
        \n\
        files:\n\
        \x20 lock.dabq                           0 B  single-writer lock (flock; empty by design)\n\
        \x20 rows-181F56C6632BC4E3.dabq         96 B  rows (current schema)\n\
        \x20 superblock.dabq                   256 B  superblock\n\
        \x20 zz.dabq                      123456789 B  UNRECOGNIZED (orphan? not part of the declared file set)\n\
        \n\
        superblock slots:\n\
        \x20 slot 0: gen 4, rows 3, schema 0x181F56C6632BC4E3  <- LIVE\n\
        \x20 slot 1: gen 4, rows 3, schema 0x181F56C6632BC4E3\n\
        \x20 slot 2: gen 3, rows 2, schema 0x181F56C6632BC4E3\n\
        \x20 slot 3: gen 3, rows 2, schema 0x181F56C6632BC4E3\n\
        \n\
        row zone:\n\
        \x20 committed valid    3\n\
        \x20 committed corrupt  0\n\
        \x20 duplicate ids      0\n\
        \x20 orphans (valid)    0\n\
        \x20 orphans (garbage)  0\n\
        \x20 rollback evidence  none\n\
        \n\
        conclusion: healthy - open recovers 3 rows\n";
    assert_eq!(report_text(&files, &report), expected);
    assert!(healthy(&report));
    assert_eq!(may_reclaim(&report), Ok(()));
}

#[test]
fn damage_reads_as_damage() {
    let (sb, mut rows) = database(3);
    rows[ROW_SIZE + 1] ^= 1;
    let report = inspect(&sb, &rows);
    let text = report_text(&Vec::new(), &report);
    assert!(text.contains("  committed corrupt  1\n    corrupt slot at byte offset 32\n"), "{text}");
    assert!(text.contains("conclusion: CORRUPT - committed row failed checksum"), "{text}");
    assert!(!healthy(&report));
    assert!(matches!(may_reclaim(&report), Err(Keep::Unrecoverable { .. })));

    let (_, rows) = database(5);
    let report = inspect(&sb, &rows);
    let text = report_text(&Vec::new(), &report);
    assert!(text.contains("rollback evidence  YES - 2+ valid rows"), "{text}");
    assert!(!healthy(&report));
    assert_eq!(may_reclaim(&report), Ok(()));

    let report = inspect(&[0u8; 70], &[]);
    let text = report_text(&Vec::new(), &report);
    assert!(text.contains("  slot 0: empty (never written)\n  slot 1: missing (file too short)\n"));
    assert!(text.contains("conclusion: empty - open would initialize fresh\n"));
    assert!(healthy(&report));
    assert_eq!(
        may_reclaim(&report),
        Err(Keep::Unrecoverable { verdict: Verdict::FreshInit })
    );
}

#[test]
fn rows_without_a_superblock_are_reported_as_an_open_refuses_them() {
    let (_, rows) = database(2);
    let what = match inspect(&[], &rows).verdict {
        Verdict::Corrupt { what } => what,
        other => panic!("{other:?}"),
    };
    assert_eq!(opened(&[], &rows), Err(DbError::Corrupt { what }));
}
