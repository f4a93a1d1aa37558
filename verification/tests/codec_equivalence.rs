use dabqlite::generated::records::{
    decode_records_row, encode_records_row, RecordsRow, RECORDS_ROW_SIZE,
};
use dabqlite::layout::reference;
use dabqlite::slot::{decode_slot, encode_slot, RowKind, MAX_COMMIT_ROWS};
use dabqlite::{ROW_SIZE, VALUE_LEN};

/// Where a slot keeps its span, and the largest one it can hold.
const SPAN_OFFSET: usize = 25;
const SPAN_MAX: u8 = (MAX_COMMIT_ROWS - 1) as u8;

const KINDS: [RowKind; 4] =
    [RowKind::Record, RowKind::Update, RowKind::Chunk, RowKind::Tombstone];

/// Deterministic pseudo-random stream: splitmix64.
struct Splitmix(u64);

impl Splitmix {
    fn next(&mut self) -> u64 {
        self.0 = self.0.wrapping_add(0x9E37_79B9_7F4A_7C15);
        let mut z = self.0;
        z = (z ^ (z >> 30)).wrapping_mul(0xBF58_476D_1CE4_E5B9);
        z = (z ^ (z >> 27)).wrapping_mul(0x94D0_49BB_1331_11EB);
        z ^ (z >> 31)
    }

    fn fill(&mut self, buf: &mut [u8]) {
        for chunk in buf.chunks_mut(8) {
            let bytes = self.next().to_le_bytes();
            chunk.copy_from_slice(&bytes[..chunk.len()]);
        }
    }
}

/// CRC-32/IEEE, spelled out here rather than imported.
fn crc32_ieee(data: &[u8]) -> u32 {
    let mut crc = !0u32;
    for &byte in data {
        crc ^= byte as u32;
        for _ in 0..8 {
            crc = if crc & 1 != 0 { (crc >> 1) ^ 0xEDB8_8320 } else { crc >> 1 };
        }
    }
    !crc
}

#[test]
fn generated_encode_is_byte_identical_to_hand_written() {
    assert_eq!(RECORDS_ROW_SIZE, ROW_SIZE);
    let mut rng = Splitmix(1);
    for _ in 0..10_000 {
        let id = rng.next();
        let mut value = [0u8; VALUE_LEN];
        rng.fill(&mut value);
        let mut hand_bytes = [0u8; ROW_SIZE];
        reference::encode_row(id, &value, &mut hand_bytes);
        let mut gen_bytes = [0u8; RECORDS_ROW_SIZE];
        encode_records_row(&RecordsRow { id, value }, &mut gen_bytes);
        assert_eq!(hand_bytes, gen_bytes, "codec divergence for id={id}");
    }
}

#[test]
fn generated_decode_agrees_on_valid_and_corrupt_slots() {
    let mut rng = Splitmix(2);
    for round in 0..10_000 {
        // Alternate between genuine rows (possibly corrupted) and pure noise.
        let mut slot = [0u8; ROW_SIZE];
        if round % 2 == 0 {
            let id = rng.next();
            let mut value = [0u8; VALUE_LEN];
            rng.fill(&mut value);
            reference::encode_row(id, &value, &mut slot);
            if round % 4 == 0 {
                // A random byte with a random mask, sometimes zero.
                let at = (rng.next() as usize) % ROW_SIZE;
                slot[at] ^= rng.next() as u8;
            }
        } else {
            rng.fill(&mut slot);
        }
        match (reference::decode_row(&slot), decode_records_row(&slot)) {
            (None, None) => {}
            (Some((id, value)), Some(row)) => {
                assert_eq!((id, value), (row.id, row.value), "round {round}: values diverged");
            }
            (h, g) => panic!(
                "round {round}: verdicts diverged (hand={:?}, generated={:?})",
                h.is_some(),
                g.is_some()
            ),
        }
    }
}

#[test]
fn generated_codec_has_no_dead_bytes_either() {
    let mut slot = [0u8; RECORDS_ROW_SIZE];
    let row = RecordsRow { id: 0xDAB0_0001, value: *b"0123456789abcdef" };
    encode_records_row(&row, &mut slot);
    for byte in 0..RECORDS_ROW_SIZE {
        for bit in 0..8 {
            let mut damaged = slot;
            damaged[byte] ^= 1 << bit;
            assert_eq!(
                decode_records_row(&damaged),
                None,
                "generated codec missed a flip at byte {byte} bit {bit}"
            );
        }
    }
    // Short input is rejected, not sliced.
    assert_eq!(decode_records_row(&slot[..RECORDS_ROW_SIZE - 1]), None);

    // Every kind of slot: a tombstone's bytes must be as fully covered as a
    // record's, or a flip could turn a deletion back into data.
    for kind in KINDS {
        let mut slot = [0u8; ROW_SIZE];
        encode_slot(kind, 0b0010_1010, 16, false, 0xDAB0_0001, b"0123456789abcdef", &mut slot);
        for byte in 0..ROW_SIZE {
            for bit in 0..8 {
                let mut damaged = slot;
                damaged[byte] ^= 1 << bit;
                assert_eq!(
                    decode_slot(&damaged),
                    None,
                    "slot codec missed a flip at byte {byte} bit {bit} (kind {kind:?})"
                );
            }
        }
        assert_eq!(decode_slot(&slot[..ROW_SIZE - 1]), None);
    }
}

/// A slot's bytes, spelled out here rather than taken from the library.
fn slot_by_hand(tag: u8, span: u8, len: u8, id: u64, value: &[u8; VALUE_LEN]) -> [u8; ROW_SIZE] {
    let mut slot = [0u8; ROW_SIZE];
    slot[0..8].copy_from_slice(&id.to_le_bytes());
    slot[8..24].copy_from_slice(value);
    slot[24] = tag;
    slot[SPAN_OFFSET] = span;
    slot[26] = len;
    let crc = crc32_ieee(&slot[0..27]);
    slot[27..31].copy_from_slice(&crc.to_le_bytes());
    slot
}

/// The span of a slot, read by hand, if its checksum and the span are sound.
fn span_by_hand(slot: &[u8; ROW_SIZE]) -> Option<u8> {
    let sound = crc32_ieee(&slot[0..27]).to_le_bytes() == slot[27..31] && slot[31] == 0;
    if sound && slot[SPAN_OFFSET] <= SPAN_MAX {
        Some(slot[SPAN_OFFSET])
    } else {
        None
    }
}

#[test]
fn both_codecs_refuse_a_span_the_format_does_not_define() {
    for span in (SPAN_MAX as u16 + 1)..=255 {
        // Impeccable but for the span: the checksum is right.
        let slot = slot_by_hand(1, span as u8, 16, 7, b"................");
        assert_eq!(crc32_ieee(&slot[0..27]).to_le_bytes(), slot[27..31]);
        assert_eq!(
            decode_slot(&slot),
            None,
            "the slot codec accepted span {span}, which no commit can produce"
        );
        assert_eq!(
            span_by_hand(&slot),
            None,
            "the reading by hand accepted span {span}, which no commit can produce"
        );
    }
}

#[test]
fn both_codecs_round_trip_every_legal_span() {
    for span in 0..=SPAN_MAX {
        let mut slot = [0u8; ROW_SIZE];
        encode_slot(RowKind::Update, span, 16, false, 99, b"abcdefghijklmnop", &mut slot);
        assert_eq!(slot, slot_by_hand(2, span, 16, 99, b"abcdefghijklmnop"));
        let decoded = decode_slot(&slot).expect("legal span must decode");
        assert_eq!(decoded.span, span);
        assert_eq!(decoded.id, 99);
        assert_eq!(decoded.kind, RowKind::Update);
        assert_eq!(&decoded.value, b"abcdefghijklmnop");
        assert_eq!(span_by_hand(&slot).expect("legal span"), span);
    }
}

#[test]
fn every_legal_slot_reads_back_field_by_field() {
    for kind in KINDS {
        for len in 0..=16u8 {
            for more in [false, true] {
                let mut slot = [0xEEu8; ROW_SIZE];
                encode_slot(kind, 3, len, more, u64::MAX - 1, &[len; VALUE_LEN], &mut slot);
                let back = decode_slot(&slot).expect("legal slot");
                assert_eq!((back.kind, back.span, back.len, back.more), (kind, 3, len, more));
                assert_eq!((back.id, back.value), (u64::MAX - 1, [len; VALUE_LEN]));
            }
        }
    }
    // Bytes beyond the defined kinds are damage even under a good checksum.
    let mut slot = [0u8; ROW_SIZE];
    encode_slot(RowKind::Record, 0, 16, false, 7, b"................", &mut slot);
    for tag in [0u8, 5, 200] {
        let mut bad = slot;
        bad[24] = tag;
        let crc = crc32_ieee(&bad[0..27]);
        bad[27..31].copy_from_slice(&crc.to_le_bytes());
        assert_eq!(decode_slot(&bad), None);
    }
}
