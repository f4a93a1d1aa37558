//! Verdict labels shared by the engine and the inspector.
//!
//! The inspector states the recovery rules a second time, but the
//! human-readable LABEL for a defect is not a rule, so it lives here once.

use vstd::prelude::*;

verus! {

/// A committed row failed checksum or padding validation.
pub const ROW_CHECKSUM: &'static str =
    "committed row failed checksum (reopen in salvage mode to read the rest)";

/// A deletion refers to an id that holds no live record at that point in the
/// commit order.
pub const ORPHAN_TOMBSTONE: &'static str =
    "deletion of a row that was not live (reopen in salvage mode to read the rest)";

/// An update refers to an id that holds no live record at that point in the
/// commit order.
pub const ORPHAN_UPDATE: &'static str =
    "update of a row that was not live (reopen in salvage mode to read the rest)";

/// A continuation row with no value in front of it to continue.
pub const ORPHAN_CHUNK: &'static str =
    "value continuation with nothing to continue (reopen in salvage mode to read the rest)";

/// A value's continuations do not run to the end it promised.
pub const TRUNCATED_VALUE: &'static str =
    "value continuation missing or damaged (reopen in salvage mode to read the rest)";

/// Two committed rows claim the same primary key.
pub const DUPLICATE_ID: &'static str =
    "duplicate id among committed rows (reopen in salvage mode to read the rest)";

/// A rows file without any superblock file beside it.
pub const ROWS_WITHOUT_SUPERBLOCK: &'static str = "rows file present without any superblock";

/// Rows on disk, and no superblock copy that could account for them.
pub const ROWS_WITHOUT_VALID_SUPERBLOCK: &'static str =
    "no valid superblock copy but rows file is non-empty";

/// The superblock counts rows that the rows file does not have.
pub const ROWS_MISSING: &'static str = "superblock references rows beyond the rows file";

/// A read of the committed rows came back short.
pub const SHORT_READ: &'static str = "short read of committed rows";

/// A legacy rows file without any superblock beside it.
pub const LEGACY_WITHOUT_SUPERBLOCK: &'static str =
    "no superblock but legacy rows file is non-empty";

/// Legacy rows, and no superblock copy that could account for them.
pub const LEGACY_WITHOUT_VALID_SUPERBLOCK: &'static str =
    "no valid superblock copy but legacy rows file is non-empty";

/// The legacy superblock counts rows that the legacy file does not have.
pub const LEGACY_ROWS_MISSING: &'static str =
    "legacy superblock names more rows than the legacy file holds";

/// A read of the legacy rows came back short.
pub const LEGACY_SHORT_READ: &'static str = "legacy rows file shorter than its superblock claims";

/// A legacy row is damaged.
pub const LEGACY_ROW_CHECKSUM: &'static str = "legacy row failed its checksum during migration";

/// The superblock carries the last generation there is.
pub const GENERATIONS_EXHAUSTED: &'static str = "no superblock generation is left to commit under";

} // verus!
