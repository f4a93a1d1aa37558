//! # dabqlite
//!
//! A small embedded record store written as pure state machines: no I/O, no
//! clock, no randomness. I/O is *returned* as a request; a host performs it
//! and feeds the result back as another input.
//!
//! Every item carries a machine-checked contract. The on-disk formats, the
//! commit protocol, recovery, the derived indices and the schema compiler are
//! all stated over mathematical models (sequences of bytes, maps from ids to
//! values) and proved to follow them.

pub mod blob;
pub mod btree;
pub mod bytes;
pub mod codegen;
pub mod crc32;
pub mod defect;
pub mod engine;
pub mod generated;
pub mod host;
pub mod inspect;
pub mod layout;
pub mod migration;
pub mod probe;
pub mod slot;
pub mod trigram;
pub mod vorder;

pub use blob::{BlobAllocator, BlobError, BlobHandle, BlobStats, BLOB_HARD_MAX};
pub use engine::types::{
    BatchOp, BatchReject, Capacities, DbError, FileId, FindPage, Input, Output, RangePage,
    RecoveryReport, RowRef, ValueWindow, WriteBuf, FIND_PAGE, MAX_VALUE_LEN, RANGE_PAGE,
};
pub use engine::Engine;
pub use layout::{ROW_SIZE, SB_COPIES, SB_COPY_SIZE, SB_ZONE_SIZE, SCHEMA_HASH, VALUE_LEN};
pub use slot::MAX_COMMIT_ROWS;
pub use trigram::FindCursor;
