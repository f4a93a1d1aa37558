//! What is on the medium, and what a failing call may leave there.
//!
//! A write is on the medium once its file is synced. Until then each of its
//! bytes is loose, and the file's length may still be the one it had before.

use crate::engine::laws::is_io;
use crate::engine::model::Phase;
use crate::engine::types::{FileId, Reply};
use crate::host::crash::{file_remains, lands, may_remain, synced_len, unsynced};
use crate::host::disk::{after, completed, effect, Disk, Machine};
use crate::migration::MState;
use vstd::prelude::*;

verus! {

/// The state of a storage's files.
#[verifier::ext_equal]
pub struct Medium {
    /// What the files hold.
    pub disk: Disk,
    /// What the medium holds. Of a file that was written to or cut since it was
    /// last synced, no more than the length can be told.
    pub synced: Disk,
    /// The bytes that may still be lost.
    pub loose: Set<(FileId, int)>,
}

/// All of the file is on the medium.
pub open spec fn safe(medium: Medium, file: FileId) -> bool {
    &&& medium.synced.file(file) == medium.disk.file(file)
    &&& forall|i: int| !#[trigger] medium.loose.contains((file, i))
}

/// All of every file is on the medium.
pub open spec fn clean(medium: Medium) -> bool {
    forall|file: FileId| #[trigger] safe(medium, file)
}

/// Somewhere between the two, whichever is the larger.
pub open spec fn between(n: int, a: int, b: int) -> bool {
    a <= n <= b || b <= n <= a
}

/// A request was performed: its file is changed as asked, and so is what is on
/// the medium. A sync brings all of its file there. What a write changes is
/// loose from then on; how long the file is there, and what it holds there, is
/// open until it is synced. The other files are as they were.
pub open spec fn performs(request: Reply, from: Medium, to: Medium) -> bool {
    &&& to.disk == effect(from.disk, request)
    &&& match request {
        Reply::Fsync { file } => {
            &&& to.synced == from.synced.with(file, from.disk.file(file))
            &&& forall|f: FileId, i: int| #[trigger]
                to.loose.contains((f, i)) ==> from.loose.contains((f, i)) && f != file
        },
        Reply::Write { file, .. } => {
            &&& to.synced == from.synced.with(file, to.synced.file(file))
            &&& from.synced.file(file).len() <= to.synced.file(file).len()
            &&& to.synced.file(file).len() <= from.synced.file(file).len() || to.synced.file(
                file,
            ).len() <= to.disk.file(file).len()
            &&& forall|f: FileId, i: int| #[trigger]
                to.loose.contains((f, i)) ==> from.loose.contains((f, i)) || lands(request, f, i)
        },
        Reply::Truncate { file, len } => {
            &&& to.synced == from.synced.with(file, to.synced.file(file))
            &&& to.synced.file(file).len() <= from.synced.file(file).len()
            &&& to.synced.file(file).len() >= from.synced.file(file).len() || to.synced.file(
                file,
            ).len() >= len
            &&& forall|f: FileId, i: int| #[trigger]
                to.loose.contains((f, i)) ==> from.loose.contains((f, i))
        },
        _ => {
            &&& to.synced == from.synced
            &&& forall|f: FileId, i: int| #[trigger]
                to.loose.contains((f, i)) ==> from.loose.contains((f, i))
        },
    }
}

/// A request failed: it may have been performed, or not, or in part, and what
/// was loose may be lost. Nothing else is.
pub open spec fn spoils(request: Reply, from: Medium, left: Disk) -> bool {
    forall|file: FileId| #[trigger] spoils_file(request, from, file, left.file(file))
}

pub open spec fn spoils_file(request: Reply, from: Medium, file: FileId, left: Seq<u8>) -> bool {
    let now = effect(from.disk, request).file(file);
    &&& between(left.len() as int, from.synced.file(file).len() as int, now.len() as int)
    &&& forall|i: int|
        0 <= i < left.len() && i < now.len() && !from.loose.contains((file, i)) && !lands(
            request,
            file,
            i,
        ) ==> #[trigger] left[i] == now[i]
}

// ---- What is on the medium when ----

impl Machine {
    /// A machine whose request in flight comes behind the sync of its rows.
    pub open spec fn past_rows_sync(self) -> bool {
        match self {
            Machine::Engine(s) => s.phase is WriteSb || s.phase is FsyncSb || s.phase
                is RecoverRepairSb || s.phase is RecoverFsyncSb,
            Machine::Migration(p) => match p.state {
                MState::WriteSb { row_count, .. } => row_count > 0,
                MState::FsyncSb { row_count } => row_count > 0,
                MState::NoopFsyncSb { .. } => true,
                _ => false,
            },
        }
    }

    /// A machine that may have changed the file and not synced it yet.
    pub open spec fn may_owe_sync(self, file: FileId) -> bool {
        match self {
            Machine::Engine(s) => match file {
                FileId::Rows => s.phase is WriteRow || s.phase is FsyncRows || s.phase
                    is RecoverFsyncRows,
                FileId::Superblock => s.phase is InitWriteSb || s.phase is InitFsyncSb || s.phase
                    is RecoverRepairSb || s.phase is RecoverFsyncSb || s.phase is WriteSb || s.phase
                    is FsyncSb,
                FileId::RowsOld => false,
            },
            Machine::Migration(p) => match file {
                FileId::Rows => p.state is WriteNewRows || p.state is FsyncNewRows,
                FileId::Superblock => p.state is WriteSb || p.state is FsyncSb,
                FileId::RowsOld => false,
            },
        }
    }
}

/// What is on the medium when a machine has answered. An open database, and a
/// write that was acknowledged: all of the superblock and of the rows. (A
/// database that was just made has no rows to sync.) A migration that carried
/// rows over or found some: the same.
pub open spec fn flushed(end: (Machine, Reply), medium: Medium) -> bool {
    match end.0 {
        Machine::Engine(t) => t.phase is Ready ==> {
            &&& safe(medium, FileId::Superblock)
            &&& t.generation > 1 || t.row_count > 0 ==> safe(medium, FileId::Rows)
        },
        Machine::Migration(_) => match end.1 {
            Reply::MigrateDone { result: Ok(n) } => n > 0 ==> {
                &&& safe(medium, FileId::Superblock)
                &&& safe(medium, FileId::Rows)
            },
            _ => true,
        },
    }
}

/// The machine and the medium keep in step.
pub open spec fn in_step(m: Machine, reply: Reply, medium: Medium) -> bool {
    if is_io(reply) {
        m.past_rows_sync() ==> safe(medium, FileId::Rows)
    } else {
        flushed((m, reply), medium)
    }
}

/// A request that was performed keeps the machine and the medium in step.
#[verifier::spinoff_prover]
#[verifier::rlimit(40)]
pub(crate) proof fn stays_in_step(m: Machine, reply: Reply, from: Medium, to: Medium)
    requires
        m.ok(),
        m.asked(reply),
        is_io(reply),
        in_step(m, reply, from),
        performs(reply, from, to),
    ensures
        ({
            let (n, r, _) = completed(m, reply, from.disk);
            in_step(n, r, to)
        }),
{
}

// ---- A run on clean files ----

/// How the length of a file that is on the medium compares with the file's.
pub open spec fn in_order(m: Machine, file: FileId, synced: int, now: int) -> bool {
    match m {
        Machine::Engine(s) => match s.phase {
            Phase::RecoverReadSb
            | Phase::RecoverReadRows { .. }
            | Phase::RecoverTruncateRows { .. } => synced == now,
            Phase::RecoverFsyncRows { .. } => if file == FileId::Rows {
                synced >= now
            } else {
                synced <= now
            },
            _ => synced <= now,
        },
        Machine::Migration(_) => synced <= now,
    }
}

/// A run that began on clean files and a storage that performed its first `k`
/// requests.
pub open spec fn tracks(start: (Machine, Reply, Disk), k: nat, medium: Medium) -> bool {
    let (m, _, disk) = after(start.0, start.1, start.2, k);
    &&& medium.disk == disk
    &&& forall|file: FileId, i: int| #[trigger]
        medium.loose.contains((file, i)) ==> unsynced(start, k, true, file, i)
    &&& forall|file: FileId| #[trigger] tracks_file(start, k, medium, m, file)
}

pub open spec fn tracks_file(
    start: (Machine, Reply, Disk),
    k: nat,
    medium: Medium,
    m: Machine,
    file: FileId,
) -> bool {
    let synced = synced_len(start, k, file);
    let now = medium.disk.file(file).len() as int;
    &&& between(medium.synced.file(file).len() as int, synced, now)
    &&& k > 0 ==> in_order(m, file, synced, now)
    &&& k == 0 ==> synced == now
    &&& !m.may_owe_sync(file) ==> safe(medium, file)
}

/// A run begins on clean files.
pub(crate) proof fn tracks_from_the_start(start: (Machine, Reply, Disk), medium: Medium)
    requires
        clean(medium),
        medium.disk == start.2,
    ensures
        tracks(start, 0, medium),
{
    assert forall|file: FileId, i: int| !#[trigger] medium.loose.contains((file, i)) by {
        assert(safe(medium, file));
    }
    let m = after(start.0, start.1, start.2, 0).0;
    assert forall|file: FileId| #[trigger] tracks_file(start, 0, medium, m, file) by {
        assert(safe(medium, file));
    }
}

/// What a performed request makes of a file on the medium.
#[verifier::spinoff_prover]
#[verifier::rlimit(40)]
proof fn order_goes_on(m: Machine, reply: Reply, from: Medium, to: Medium, file: FileId, synced: int)
    requires
        m.ok(),
        m.asked(reply),
        is_io(reply),
        performs(reply, from, to),
        in_order(m, file, synced, from.disk.file(file).len() as int) || synced
            == from.disk.file(file).len(),
        between(
            from.synced.file(file).len() as int,
            synced,
            from.disk.file(file).len() as int,
        ),
        !m.may_owe_sync(file) ==> safe(from, file),
    ensures
        ({
            let n = completed(m, reply, from.disk).0;
            let now = to.disk.file(file).len() as int;
            let next = if reply == (Reply::Fsync { file }) {
                from.disk.file(file).len() as int
            } else {
                synced
            };
            &&& in_order(n, file, next, now)
            &&& between(to.synced.file(file).len() as int, next, now)
            &&& !n.may_owe_sync(file) ==> safe(to, file)
        }),
{
}

/// One more request was performed.
pub(crate) proof fn tracks_on(start: (Machine, Reply, Disk), k: nat, from: Medium, to: Medium)
    requires
        tracks(start, k, from),
        ({
            let (m, reply, _) = after(start.0, start.1, start.2, k);
            m.ok() && m.asked(reply) && is_io(reply) && performs(reply, from, to)
        }),
    ensures
        tracks(start, k + 1, to),
{
    let (m, reply, disk) = after(start.0, start.1, start.2, k);
    let next = after(start.0, start.1, start.2, k + 1);
    assert(next == completed(m, reply, disk));
    assert forall|file: FileId, i: int| #[trigger] to.loose.contains((file, i)) implies unsynced(
        start,
        k + 1,
        true,
        file,
        i,
    ) by {
        if from.loose.contains((file, i)) {
            assert(unsynced(start, k, true, file, i));
        }
    }
    assert forall|file: FileId| #[trigger] tracks_file(start, k + 1, to, next.0, file) by {
        assert(tracks_file(start, k, from, m, file));
        order_goes_on(m, reply, from, to, file, synced_len(start, k, file));
    }
}

/// What a failing request leaves is what a crash at that request may leave.
pub(crate) proof fn failing_is_like_crashing(
    start: (Machine, Reply, Disk),
    k: nat,
    medium: Medium,
    left: Disk,
)
    requires
        tracks(start, k, medium),
        ({
            let (m, reply, _) = after(start.0, start.1, start.2, k);
            m.asked(reply) && is_io(reply) && spoils(reply, medium, left)
        }),
    ensures
        may_remain(start, k, left),
{
    let (m, reply, disk) = after(start.0, start.1, start.2, k);
    let next = after(start.0, start.1, start.2, k + 1);
    assert(next == completed(m, reply, disk));
    assert(next.2 == effect(disk, reply));
    assert forall|file: FileId| #[trigger] file_remains(start, k, file, left.file(file)) by {
        assert(tracks_file(start, k, medium, m, file));
        assert(spoils_file(reply, medium, file, left.file(file)));
        let now = next.2.file(file);
        assert forall|i: int|
            0 <= i < left.file(file).len() && i < now.len() && !unsynced(start, k, true, file, i)
                && !lands(reply, file, i) implies #[trigger] left.file(file)[i] == now[i] by {
            assert(!medium.loose.contains((file, i)));
        }
    }
    assert(file_remains(start, k, FileId::Superblock, left.file(FileId::Superblock)));
    assert(file_remains(start, k, FileId::Rows, left.file(FileId::Rows)));
    assert(file_remains(start, k, FileId::RowsOld, left.file(FileId::RowsOld)));
}

/// A machine that waits for nothing owes no sync.
pub(crate) proof fn nothing_is_owed(start: (Machine, Reply, Disk), k: nat, medium: Medium)
    requires
        tracks(start, k, medium),
        after(start.0, start.1, start.2, k).0.awaits() is None,
    ensures
        clean(medium),
{
    let m = after(start.0, start.1, start.2, k).0;
    assert forall|file: FileId| #[trigger] safe(medium, file) by {
        assert(tracks_file(start, k, medium, m, file));
    }
}

} // verus!
