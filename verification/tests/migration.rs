use dabqlite::engine::types::{Capacities, DbError, FileId, Input, Output};
use dabqlite::generated::{records, records_v1};
use dabqlite::layout::{SB_COPY_SIZE, SCHEMA_HASH};
use dabqlite::migration::{
    migrate_row, MigrationEngine, V1_ROW_SIZE, V1_SCHEMA_HASH, V1_VALUE_LEN,
};

#[test]
fn migration_is_total_and_shape_preserving() {
    let ids = [0u64, 1, u64::MAX, u64::MAX - 1, 0x8000_0000_0000_0000];
    for &id in &ids {
        for pattern in 0..=255u8 {
            for hot in 0..V1_VALUE_LEN {
                let mut value = [pattern; V1_VALUE_LEN];
                value[hot] = !pattern;
                let new = migrate_row(records_v1::RecordsRow { id, value });
                assert_eq!(new.id, id);
                assert_eq!(&new.value[..V1_VALUE_LEN], &value);
                assert_eq!(new.value[V1_VALUE_LEN..], [0u8; 8]);
            }
        }
    }
}

#[test]
fn valid_v1_slots_migrate_to_valid_v2_slots() {
    let mut state = 0x1234_5678_9ABC_DEF0u64;
    let mut next = move || {
        state = state.wrapping_mul(6364136223846793005).wrapping_add(1442695040888963407);
        state
    };
    for _ in 0..10_000 {
        let id = next();
        let value = next().to_le_bytes();
        let old = records_v1::RecordsRow { id, value };
        let mut v1_slot = [0u8; V1_ROW_SIZE];
        records_v1::encode_records_row(&old, &mut v1_slot);
        let decoded = records_v1::decode_records_row(&v1_slot).expect("valid v1 slot");
        let new = migrate_row(decoded);
        let mut v2_slot = [0u8; records::RECORDS_ROW_SIZE];
        records::encode_records_row(&new, &mut v2_slot);
        let back = records::decode_records_row(&v2_slot).expect("valid v2 slot");
        assert_eq!(back.id, id);
        assert_eq!(&back.value[..V1_VALUE_LEN], &value);
    }
}

#[test]
fn migration_preserves_key_order() {
    let keys = [0u64, 1, 2, 100, u64::MAX / 2, u64::MAX - 1, u64::MAX];
    let migrated: Vec<u64> = keys
        .iter()
        .map(|&id| migrate_row(records_v1::RecordsRow { id, value: id.to_le_bytes() }).id)
        .collect();
    assert_eq!(&migrated[..], &keys[..]);
}

/// A legacy superblock copy in its home slot of an otherwise empty zone.
fn legacy_zone(generation: u64, rows: u64) -> Vec<u8> {
    let mut copy = [0u8; SB_COPY_SIZE];
    dabqlite::layout::encode_sb(generation, rows, &mut copy);
    copy[24..32].copy_from_slice(&V1_SCHEMA_HASH.to_le_bytes());
    let sum = dabqlite::crc32::crc32(&copy[0..32]);
    copy[32..36].copy_from_slice(&sum.to_le_bytes());
    let mut zone = vec![0u8; 4 * SB_COPY_SIZE];
    let at = 2 * (generation % 2) as usize * SB_COPY_SIZE;
    zone[at..at + SB_COPY_SIZE].copy_from_slice(&copy);
    zone[at + SB_COPY_SIZE..at + 2 * SB_COPY_SIZE].copy_from_slice(&copy);
    zone
}

fn begun(caps: u64, rows_old_len: u64) -> MigrationEngine {
    let mut m = MigrationEngine::new(Capacities { rows: caps });
    assert_eq!(
        m.start(256, rows_old_len),
        Output::Read { file: FileId::Superblock, offset: 0, len: 256 }
    );
    m
}

#[test]
fn every_refusal_of_a_migration_is_specific() {
    // Nothing there: nothing to do.
    let mut m = MigrationEngine::new(Capacities { rows: 4 });
    assert_eq!(m.start(0, 0), Output::MigrateDone { result: Ok(0) });
    // Rows without a superblock.
    let mut m = MigrationEngine::new(Capacities { rows: 4 });
    assert!(matches!(
        m.start(0, 24),
        Output::MigrateDone { result: Err(DbError::Corrupt { .. }) }
    ));
    // A superblock without a valid copy.
    let mut m = begun(4, 24);
    let zone = vec![0u8; 256];
    assert!(matches!(
        m.tick(Input::ReadDone { file: FileId::Superblock, data: &zone }),
        Output::MigrateDone { result: Err(DbError::Corrupt { .. }) }
    ));
    // Too many rows for the capacity.
    let mut m = begun(4, 24 * 9);
    let zone = legacy_zone(3, 9);
    assert_eq!(
        m.tick(Input::ReadDone { file: FileId::Superblock, data: &zone }),
        Output::MigrateDone {
            result: Err(DbError::CapacityBelowData { required: 9, configured: 4 })
        }
    );
    // Fewer rows on disk than promised.
    let mut m = begun(4, 24);
    let zone = legacy_zone(3, 2);
    assert!(matches!(
        m.tick(Input::ReadDone { file: FileId::Superblock, data: &zone }),
        Output::MigrateDone { result: Err(DbError::Corrupt { .. }) }
    ));
    // A foreign schema.
    let mut zone = legacy_zone(3, 2);
    for slot in 2..4 {
        let at = slot * SB_COPY_SIZE;
        zone[at + 24..at + 32].copy_from_slice(&77u64.to_le_bytes());
        let sum = dabqlite::crc32::crc32(&zone[at..at + 32]);
        zone[at + 32..at + 36].copy_from_slice(&sum.to_le_bytes());
    }
    let mut m = begun(4, 48);
    assert_eq!(
        m.tick(Input::ReadDone { file: FileId::Superblock, data: &zone }),
        Output::MigrateDone {
            result: Err(DbError::SchemaMismatch { file_schema: 77, binary_schema: SCHEMA_HASH })
        }
    );
    // A row that fails its checksum: nothing is written.
    let mut m = begun(4, 24);
    let zone = legacy_zone(3, 1);
    assert_eq!(
        m.tick(Input::ReadDone { file: FileId::Superblock, data: &zone }),
        Output::Read { file: FileId::RowsOld, offset: 0, len: 24 }
    );
    let junk = [9u8; 24];
    assert!(matches!(
        m.tick(Input::ReadDone { file: FileId::RowsOld, data: &junk }),
        Output::MigrateDone { result: Err(DbError::Corrupt { .. }) }
    ));
    // A failed request.
    let mut m = begun(4, 24);
    assert_eq!(
        m.tick(Input::IoFailed { file: FileId::Superblock }),
        Output::MigrateDone {
            result: Err(DbError::IoFailed { file: FileId::Superblock })
        }
    );
}
