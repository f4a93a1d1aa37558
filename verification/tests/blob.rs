use dabqlite::blob::{
    block_size, class_for, BlobAllocator, BlobError, BlobHandle, BLOB_HARD_MAX, NUM_CLASSES,
};

#[test]
fn class_selection() {
    assert_eq!(class_for(0), 0);
    assert_eq!(class_for(1), 0);
    assert_eq!(class_for(64), 0);
    assert_eq!(class_for(65), 1);
    assert_eq!(class_for(128), 1);
    assert_eq!(class_for(BLOB_HARD_MAX), (NUM_CLASSES - 1) as u8);
    assert_eq!(block_size((NUM_CLASSES - 1) as u8), BLOB_HARD_MAX);
}

#[test]
fn too_large_is_first_class() {
    let mut a = BlobAllocator::new(1 << 20);
    assert_eq!(
        a.allocate(BLOB_HARD_MAX + 1),
        Err(BlobError::TooLarge { len: BLOB_HARD_MAX + 1, hard_max: BLOB_HARD_MAX })
    );
}

#[test]
fn lifo_reuse_is_exact() {
    let mut a = BlobAllocator::new(1 << 20);
    let h1 = a.allocate(100).unwrap();
    let h2 = a.allocate(100).unwrap();
    assert_ne!(h1.offset, h2.offset);
    a.free(h1);
    // The freed block is the next one handed out for its class.
    let h3 = a.allocate(90).unwrap();
    assert_eq!(h3.offset, h1.offset);
    assert_eq!(h3.class, h1.class);
}

#[test]
fn full_names_the_block_size() {
    let mut a = BlobAllocator::new(256);
    let _ = a.allocate(64).unwrap();
    let _ = a.allocate(64).unwrap();
    let _ = a.allocate(64).unwrap();
    let _ = a.allocate(30).unwrap();
    assert_eq!(a.allocate(64), Err(BlobError::Full { block_bytes: 64, capacity: 256 }));
}

#[test]
fn full_cycle_returns_to_initial_state() {
    let mut a = BlobAllocator::new(1 << 20);
    let mut handles = Vec::new();
    for i in 0..64u32 {
        handles.push(a.allocate((i * 37) % 4096).unwrap());
    }
    let s = a.stats();
    assert_eq!(s.live_count, 64);
    for h in handles {
        a.free(h);
    }
    let s = a.stats();
    assert_eq!(s.live_count, 0);
    assert_eq!(s.live_block_bytes, 0);
    assert_eq!(s.live_payload_bytes, 0);
    assert_eq!(s.free_list_bytes, s.high_water, "leak: bytes unaccounted");
}

#[test]
fn payload_roundtrip() {
    let mut a = BlobAllocator::new(1 << 16);
    let h = a.allocate(11).unwrap();
    a.data_mut(h).copy_from_slice(b"hello world");
    assert_eq!(a.data(h), b"hello world");
    assert_eq!(a.data(h).len(), 11);
}

#[test]
fn live_payloads_do_not_overlap() {
    let mut a = BlobAllocator::new(1 << 16);
    let h1 = a.allocate(100).unwrap();
    let h2 = a.allocate(100).unwrap();
    for b in a.data_mut(h1).iter_mut() {
        *b = 1;
    }
    for b in a.data_mut(h2).iter_mut() {
        *b = 2;
    }
    assert!(a.data(h1).iter().all(|&b| b == 1));
    assert!(a.data(h2).iter().all(|&b| b == 2));
}

#[test]
fn allocating_and_freeing_is_neutral() {
    let mut a = BlobAllocator::new(1 << 16);
    let keep = a.allocate(10).unwrap();
    let warm = a.allocate(500).unwrap();
    a.free(warm);
    let before = a.stats();
    let h = a.allocate(400).unwrap();
    a.free(h);
    assert_eq!(a.stats(), before);
    assert_eq!(a.data(keep).len(), 10);
}

#[test]
fn free_blocks_are_visited_newest_first_per_class() {
    let mut a = BlobAllocator::new(1 << 16);
    let hs: Vec<BlobHandle> = [64u32, 64, 200, 64].iter().map(|&n| a.allocate(n).unwrap()).collect();
    a.free(hs[0]);
    a.free(hs[2]);
    a.free(hs[3]);
    let seen = a.for_each_free_block(Vec::new(), |mut acc: Vec<(u32, u8)>, offset, class| {
        acc.push((offset, class));
        acc
    });
    assert_eq!(seen, vec![(hs[3].offset, 0), (hs[0].offset, 0), (hs[2].offset, 2)]);
}

#[test]
fn every_length_gets_the_smallest_class_that_holds_it() {
    for len in [0u32, 1, 63, 64, 65, 127, 128, 129, 1000, 4096, 4097, BLOB_HARD_MAX] {
        let c = class_for(len);
        assert!(block_size(c) >= len);
        if c > 0 {
            assert!(block_size(c - 1) < len);
        }
    }
    assert_eq!(block_size(0), 64);
    assert_eq!(block_size(5), 2048);
}

#[test]
fn the_accounts_are_sums_over_the_live_blobs() {
    let mut a = BlobAllocator::new(1 << 16);
    let hs: Vec<BlobHandle> = [0u32, 10, 64, 65, 300].iter().map(|&n| a.allocate(n).unwrap()).collect();
    let s = a.stats();
    assert_eq!(s.live_payload_bytes, 439);
    assert_eq!(s.live_block_bytes, 64 + 64 + 64 + 128 + 512);
    assert!(s.live_payload_bytes <= s.live_block_bytes);
    a.free(hs[3]);
    let s = a.stats();
    assert_eq!((s.live_count, s.live_payload_bytes), (4, 374));
    assert_eq!((s.live_block_bytes, s.free_list_bytes), (704, 128));
}

#[test]
fn free_blocks_are_disjoint_and_spare_the_live() {
    let mut a = BlobAllocator::new(1 << 16);
    let hs: Vec<BlobHandle> =
        (0..24u32).map(|i| a.allocate((i * 53) % 700).unwrap()).collect();
    for h in hs.iter().step_by(2) {
        a.free(*h);
    }
    let mut blocks: Vec<(u32, u32)> = hs
        .iter()
        .skip(1)
        .step_by(2)
        .map(|h| (h.offset, h.offset + block_size(h.class)))
        .collect();
    let free = a.for_each_free_block(Vec::new(), |mut acc: Vec<(u32, u32)>, offset, class| {
        acc.push((offset, offset + block_size(class)));
        acc
    });
    assert_eq!(free.len(), 12);
    let bytes: u32 = free.iter().map(|&(from, to)| to - from).sum();
    assert_eq!(bytes as u64, a.stats().free_list_bytes as u64);
    blocks.extend(free);
    blocks.sort();
    assert!(blocks.windows(2).all(|w| w[0].1 <= w[1].0), "{blocks:?}");
}

#[test]
fn a_cycle_leaves_the_accounts_and_the_lists_as_they_were() {
    let listed = |a: &BlobAllocator| {
        a.for_each_free_block(Vec::new(), |mut acc: Vec<(u32, u8)>, offset, class| {
            acc.push((offset, class));
            acc
        })
    };
    let mut a = BlobAllocator::new(1 << 16);
    let keep = a.allocate(100).unwrap();
    a.data_mut(keep).fill(7);
    let (x, y) = (a.allocate(100).unwrap(), a.allocate(100).unwrap());
    a.free(x);
    a.free(y);
    let (stats, lists) = (a.stats(), listed(&a));
    let h = a.allocate(90).unwrap();
    assert_eq!(h.offset, y.offset);
    a.data_mut(h).fill(9);
    assert!(a.data(keep).iter().all(|&b| b == 7));
    a.free(h);
    assert_eq!(a.stats(), stats);
    assert_eq!(listed(&a), lists);
}
