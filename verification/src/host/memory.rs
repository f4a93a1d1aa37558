//! An in-memory backend: the whole declared file set held in RAM.
//!
//! Everything above the storage seam is unchanged: the same commit protocol,
//! the same checksums, the same recovery. What is gone is durability: the
//! medium is memory, so `sync` has nothing to flush and process death takes
//! everything. [`MemoryStorage::snapshot`] and [`MemoryStorage::from_images`]
//! move a database in and out of RAM as plain bytes, the same bytes that any
//! other backend holds.

use crate::engine::types::FileId;
use crate::host::disk::{clamp, clamped, effect, written, Call, Disk};
use crate::host::medium::Medium;
use crate::host::Storage;
use vstd::prelude::*;
use vstd::slice::slice_subrange;

verus! {

/// The declared file set in RAM.
#[derive(Debug, Clone, PartialEq, Eq)]
pub struct MemoryStorage {
    superblock: Vec<u8>,
    rows: Vec<u8>,
    rows_old: Vec<u8>,
}

impl View for MemoryStorage {
    type V = Disk;

    closed spec fn view(&self) -> Disk {
        Disk { superblock: self.superblock@, rows: self.rows@, rows_old: self.rows_old@ }
    }
}

impl Default for MemoryStorage {
    fn default() -> (s: Self)
        ensures
            s@ == Disk::empty(),
    {
        let s = MemoryStorage { superblock: Vec::new(), rows: Vec::new(), rows_old: Vec::new() };
        assert(s@ =~= Disk::empty());
        s
    }
}

impl MemoryStorage {
    /// An empty store: a fresh database, once opened.
    pub fn new() -> (s: Self)
        ensures
            s@ == Disk::empty(),
    {
        Self::default()
    }

    /// Adopt an existing database from its bytes.
    pub fn from_images(superblock: Vec<u8>, rows: Vec<u8>, rows_old: Vec<u8>) -> (s: Self)
        ensures
            s@ == (Disk { superblock: superblock@, rows: rows@, rows_old: rows_old@ }),
    {
        MemoryStorage { superblock, rows, rows_old }
    }

    /// One file's bytes, for snapshotting the database out.
    pub fn image(&self, file: FileId) -> (bytes: &[u8])
        ensures
            bytes@ == self@.file(file),
    {
        match file {
            FileId::Superblock => self.superblock.as_slice(),
            FileId::Rows => self.rows.as_slice(),
            FileId::RowsOld => self.rows_old.as_slice(),
        }
    }

    /// All three images: superblock, rows, legacy rows.
    pub fn snapshot(&self) -> (images: (Vec<u8>, Vec<u8>, Vec<u8>))
        ensures
            images.0@ == self@.superblock,
            images.1@ == self@.rows,
            images.2@ == self@.rows_old,
    {
        (
            copied(self.superblock.as_slice()),
            copied(self.rows.as_slice()),
            copied(self.rows_old.as_slice()),
        )
    }

    /// Total bytes held.
    pub fn byte_len(&self) -> (n: usize)
        requires
            self@.superblock.len() + self@.rows.len() + self@.rows_old.len() <= usize::MAX,
        ensures
            n == self@.superblock.len() + self@.rows.len() + self@.rows_old.len(),
    {
        self.superblock.len() + self.rows.len() + self.rows_old.len()
    }

    fn file_mut(&mut self, file: FileId) -> (bytes: &mut Vec<u8>)
        ensures
            bytes@ == old(self)@.file(file),
            final(self)@ == old(self)@.with(file, final(bytes)@),
    {
        match file {
            FileId::Superblock => &mut self.superblock,
            FileId::Rows => &mut self.rows,
            FileId::RowsOld => &mut self.rows_old,
        }
    }
}

fn copied(bytes: &[u8]) -> (out: Vec<u8>)
    ensures
        out@ == bytes@,
{
    let mut out: Vec<u8> = Vec::new();
    let mut i: usize = 0;
    while i < bytes.len()
        invariant
            i <= bytes@.len(),
            out@ =~= bytes@.take(i as int),
        decreases bytes@.len() - i,
    {
        out.push(bytes[i]);
        i = i + 1;
    }
    assert(bytes@.take(i as int) =~= bytes@);
    out
}

fn overwrite(bytes: &mut Vec<u8>, offset: usize, data: &[u8])
    requires
        offset + data@.len() <= usize::MAX,
    ensures
        final(bytes)@ == written(old(bytes)@, offset as int, data@),
{
    let end: usize = offset + data.len();
    while bytes.len() < end
        invariant
            end == offset + data@.len(),
            bytes@.len() >= old(bytes)@.len(),
            bytes@.len() <= end || bytes@.len() == old(bytes)@.len(),
            forall|j: int|
                0 <= j < bytes@.len() ==> #[trigger] bytes@[j] == if j < old(bytes)@.len() {
                    old(bytes)@[j]
                } else {
                    0
                },
        decreases end - bytes@.len(),
    {
        bytes.push(0);
    }
    let ghost grown = bytes@;
    let mut i: usize = 0;
    while i < data.len()
        invariant
            i <= data@.len(),
            end == offset + data@.len(),
            end <= bytes@.len(),
            bytes@.len() == grown.len(),
            forall|j: int|
                0 <= j < bytes@.len() ==> #[trigger] bytes@[j] == if offset <= j < offset + i {
                    data@[j - offset]
                } else {
                    grown[j]
                },
        decreases data@.len() - i,
    {
        bytes.set(offset + i, data[i]);
        i = i + 1;
    }
    assert(bytes@ =~= written(old(bytes)@, offset as int, data@));
}

/// Memory cannot fail the way a device can: there is no medium to report an
/// error. Nothing makes a value of this type.
#[derive(Debug, Clone, Copy, PartialEq, Eq)]
pub struct Never {
    never: (),
}

impl Storage for MemoryStorage {
    type Error = Never;

    /// The medium is the cache.
    open spec fn medium(&self) -> Medium {
        Medium { disk: self@, synced: self@, loose: Set::empty() }
    }

    open spec fn turned(&self, call: Call, error: Option<Never>, into: &Self) -> bool {
        &&& error is None
        &&& into@ == match call {
            Call::Len { .. } => self@,
            Call::Perform { request } => effect(self@, request),
        }
    }

    open spec fn never_fails() -> bool {
        true
    }

    fn len(&mut self, file: FileId) -> (res: Result<u64, Never>) {
        Ok(self.image(file).len() as u64)
    }

    fn read(&mut self, file: FileId, offset: u64, len: u64) -> (res: Result<Vec<u8>, Never>) {
        let bytes = self.image(file);
        let (start, end) = clamp(bytes.len() as u64, offset, len);
        assert(clamped(bytes@, offset as int, len as int) == bytes@.subrange(
            start as int,
            end as int,
        ));
        Ok(copied(slice_subrange(bytes, start as usize, end as usize)))
    }

    fn write(&mut self, file: FileId, offset: u64, data: &[u8]) -> (res: Result<(), Never>) {
        overwrite(self.file_mut(file), offset as usize, data);
        Ok(())
    }

    fn sync(&mut self, _file: FileId) -> (res: Result<(), Never>) {
        // Nothing to flush: the medium is the cache.
        Ok(())
    }

    fn truncate(&mut self, file: FileId, len: u64) -> (res: Result<(), Never>) {
        let bytes = self.file_mut(file);
        if bytes.len() as u64 > len {
            bytes.truncate(len as usize);
        }
        Ok(())
    }
}

} // verus!
