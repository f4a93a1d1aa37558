//! The storage seam and the host driver. The machines of this crate do no
//! I/O; a *host* performs what they ask for. This module defines the
//! [`Storage`] trait that every backend implements and the [`Host`] driver
//! that runs the engine against any of them.
//!
//! The seam is a fixed set of named files whose handles are acquired once and
//! held for the session: positional read and write, flush, size, and cutting a
//! file short. No directory operations, no renames.
//!
//! Any storage error is delivered to the machine as `Input::IoFailed`, which
//! fail-stops it. The driver never retries and never drops an error: the error
//! value is kept in [`Host::last_error`].

pub mod crash;
pub mod damage;
pub mod disk;
pub mod failing;
pub mod inspecting;
pub mod laws;
pub mod medium;
pub mod memory;
pub mod migrating;
pub mod protocol;
pub mod rebuild;
pub mod refusing;
pub mod salvage;

pub use memory::MemoryStorage;

use crate::codegen::text::{hex, push_hex};
use crate::engine::laws::{is_client, is_io};
use crate::engine::model::{created, Phase, State};
use crate::engine::tables::sizeable;
use crate::engine::types::{Capacities, FileId, Input, Output, Reply};
use crate::engine::Engine;
use crate::host::crash::may_remain;
use crate::host::disk::{
    after, clamped, completed, engine_asks, migration_asks, run, stopped, stopped_at, Call, Disk,
    Machine,
};
use crate::host::medium::{
    clean, failing_is_like_crashing, flushed, in_step, nothing_is_owed, performs, spoils,
    stays_in_step, tracks, tracks_from_the_start, tracks_on, Medium,
};
use crate::layout::VALUE_LEN;
use crate::migration::{MState, MigrationEngine, Progress};
use vstd::prelude::*;
use vstd::string::*;

verus! {

/// The superblock file's name.
pub const SUPERBLOCK_FILE: &'static str = "superblock.dabq";

/// The single-writer lock file's name.
pub const LOCK_FILE: &'static str = "lock.dabq";

/// The rows file's name: one per schema, so that files of different schemas
/// never meet.
pub open spec fn rows_name(schema: u64) -> Seq<char> {
    "rows-"@ + hex(schema as nat, 16) + ".dabq"@
}

pub fn rows_file_name(schema: u64) -> (name: String)
    ensures
        name@ == rows_name(schema),
{
    let mut name = String::new();
    name.append("rows-");
    push_hex(&mut name, schema, 16);
    name.append(".dabq");
    assert(name@ =~= rows_name(schema));
    name
}

/// A storage backend: the declared file set, opened once, addressed by
/// [`FileId`].
///
/// - `read` returns the bytes in `[offset, offset + len)` clamped to the
///   current file size: a short or empty result is not an error.
/// - `write` extends the file as needed, zero-filling any gap.
/// - `sync` makes all previous writes to that file durable.
/// - `truncate` only ever shortens a file.
/// - Errors are terminal for the session. A request that failed leaves what a
///   crash could leave: it may have been performed, or not, or in part, and what
///   was not synced may be lost.
pub trait Storage {
    type Error;

    /// What the files hold, and what of it is on the medium.
    spec fn medium(&self) -> Medium;

    /// This call, answered with this error or with none, makes `into` of the
    /// storage.
    spec fn turned(&self, call: Call, error: Option<Self::Error>, into: &Self) -> bool;

    /// No operation of this backend ever fails.
    spec fn never_fails() -> bool;

    fn len(&mut self, file: FileId) -> (res: Result<u64, Self::Error>)
        ensures
            Self::never_fails() ==> res is Ok,
            old(self).turned(Call::Len { file }, error_in(res), final(self)),
            match res {
                Ok(n) => {
                    &&& n == old(self).medium().disk.file(file).len()
                    &&& final(self).medium() == old(self).medium()
                },
                Err(_) => clean(old(self).medium()) ==> final(self).medium().disk == old(
                    self,
                ).medium().disk,
            },
    ;

    fn read(&mut self, file: FileId, offset: u64, len: u64) -> (res: Result<Vec<u8>, Self::Error>)
        ensures
            Self::never_fails() ==> res is Ok,
            ({
                let request = Reply::Read { file, offset, len };
                &&& old(self).turned(Call::Perform { request }, error_in(res), final(self))
                &&& answered(request, res is Ok, old(self).medium(), final(self).medium())
            }),
            res matches Ok(data) ==> data@ == clamped(
                old(self).medium().disk.file(file),
                offset as int,
                len as int,
            ),
    ;

    fn write(&mut self, file: FileId, offset: u64, data: &[u8]) -> (res: Result<(), Self::Error>)
        requires
            offset + data@.len() <= usize::MAX,
        ensures
            Self::never_fails() ==> res is Ok,
            ({
                let request = Reply::Write { file, offset, data: data@ };
                &&& old(self).turned(Call::Perform { request }, error_in(res), final(self))
                &&& answered(request, res is Ok, old(self).medium(), final(self).medium())
            }),
    ;

    fn sync(&mut self, file: FileId) -> (res: Result<(), Self::Error>)
        ensures
            Self::never_fails() ==> res is Ok,
            ({
                let request = Reply::Fsync { file };
                &&& old(self).turned(Call::Perform { request }, error_in(res), final(self))
                &&& answered(request, res is Ok, old(self).medium(), final(self).medium())
            }),
    ;

    fn truncate(&mut self, file: FileId, len: u64) -> (res: Result<(), Self::Error>)
        ensures
            Self::never_fails() ==> res is Ok,
            ({
                let request = Reply::Truncate { file, len };
                &&& old(self).turned(Call::Perform { request }, error_in(res), final(self))
                &&& answered(request, res is Ok, old(self).medium(), final(self).medium())
            }),
    ;
}

/// What a request does to the files: it is performed, or it fails.
pub open spec fn answered(request: Reply, ok: bool, from: Medium, to: Medium) -> bool {
    if ok {
        performs(request, from, to)
    } else {
        spoils(request, from, to.disk)
    }
}

/// The error of a call, if it failed.
pub open spec fn error_in<T, E>(res: Result<T, E>) -> Option<E> {
    match res {
        Ok(_) => None,
        Err(e) => Some(e),
    }
}

/// Drives an [`Engine`] against any [`Storage`]: one request in flight at a
/// time, lockstep, as the protocol demands.
pub struct Host<S: Storage> {
    pub engine: Engine,
    pub storage: S,
    /// The storage error that fail-stopped the engine, if any.
    pub last_error: Option<S::Error>,
}

/// A storage on its way: it was called for the machine's requests, one by one
/// and in their order, for nothing else, and each was performed.
pub open spec fn driven<S: Storage>(m: Machine, reply: Reply, way: Seq<S>) -> bool {
    &&& way.len() > 0
    &&& forall|i: int|
        0 <= i < way.len() ==> (#[trigger] way[i]).medium().disk == after(
            m,
            reply,
            way[0].medium().disk,
            i as nat,
        ).2
    &&& forall|i: int| 0 <= i < way.len() - 1 ==> #[trigger] called(m, reply, way, i)
}

/// The storage's `i`th call was the machine's `i`th request.
pub open spec fn called<S: Storage>(m: Machine, reply: Reply, way: Seq<S>, i: int) -> bool {
    let request = after(m, reply, way[0].medium().disk, i as nat).1;
    is_io(request) && way[i].turned(Call::Perform { request }, None, &way[i + 1])
}

/// The storage performed every request, down to the last.
pub open spec fn performed<S: Storage>(m: Machine, reply: Reply, from: S, to: S) -> bool {
    exists|way: Seq<S>|
        {
            &&& #[trigger] driven(m, reply, way)
            &&& way[0] == from
            &&& way.last() == to
            &&& !is_io(after(m, reply, from.medium().disk, (way.len() - 1) as nat).1)
        }
}

/// The storage performed some requests and failed the next one with this error:
/// the machine was told so, and no further call was made. If the files were
/// clean to begin with, they are left as a crash at that request may leave them.
pub open spec fn failed<S: Storage>(
    m: Machine,
    reply: Reply,
    from: S,
    end: (Machine, Reply),
    to: S,
    error: Option<S::Error>,
) -> bool {
    exists|way: Seq<S>|
        {
            let k = (way.len() - 1) as nat;
            let request = after(m, reply, from.medium().disk, k).1;
            &&& #[trigger] driven(m, reply, way)
            &&& way[0] == from
            &&& error is Some
            &&& way.last().turned(Call::Perform { request }, error, &to)
            &&& stopped_at(m, reply, from.medium().disk, k, end)
            &&& clean(from.medium()) ==> may_remain(
                (m, reply, from.medium().disk),
                k,
                to.medium().disk,
            )
        }
}

/// What became of a machine that was run: every request was performed, down to
/// the last; or one failed, and the machine with it, and its error is kept.
pub open spec fn ran<S: Storage>(
    m: Machine,
    reply: Reply,
    from: S,
    end: (Machine, Reply),
    to: S,
    errors: (Option<S::Error>, Option<S::Error>),
) -> bool {
    ||| {
        &&& errors.1 == errors.0
        &&& (end.0, end.1, to.medium().disk) == run(m, reply, from.medium().disk)
        &&& performed(m, reply, from, to)
        &&& clean(from.medium()) ==> clean(to.medium())
    }
    ||| !S::never_fails() && failed(m, reply, from, end, to, errors.1)
}

/// Two files were asked for their lengths, and the storage is as it was.
pub open spec fn probed<S: Storage>(from: S, files: (FileId, FileId), to: S) -> bool {
    &&& to.medium() == from.medium()
    &&& exists|mid: S| #[trigger] probed_once(from, files, mid, to)
}

pub open spec fn probed_once<S: Storage>(from: S, files: (FileId, FileId), mid: S, to: S) -> bool {
    &&& from.turned(Call::Len { file: files.0 }, None, &mid)
    &&& mid.turned(Call::Len { file: files.1 }, None, &to)
}

/// One of the two probes failed with this error. Files that were clean are as
/// they were.
pub open spec fn probe_failed<S: Storage>(
    from: S,
    files: (FileId, FileId),
    error: S::Error,
    to: S,
) -> bool {
    &&& clean(from.medium()) ==> to.medium().disk == from.medium().disk
    &&& {
        ||| from.turned(Call::Len { file: files.0 }, Some(error), &to)
        ||| exists|mid: S|
            {
                &&& #[trigger] from.turned(Call::Len { file: files.0 }, None, &mid)
                &&& mid.turned(Call::Len { file: files.1 }, Some(error), &to)
            }
    }
}

/// A machine that was run on files whose lengths had been asked for.
pub open spec fn probed_and_ran<S: Storage>(
    m: Machine,
    reply: Reply,
    files: (FileId, FileId),
    from: S,
    end: (Machine, Reply),
    to: S,
    errors: (Option<S::Error>, Option<S::Error>),
) -> bool {
    exists|at: S| #[trigger] probed(from, files, at) && ran(m, reply, at, end, to, errors)
}

impl<S: Storage> Host<S> {
    /// What holds between calls: no request is in flight.
    pub open spec fn inv(&self) -> bool {
        &&& self.engine.inv()
        &&& self.engine@.phase.awaits() is None
    }

    pub fn new(caps: Capacities, storage: S) -> (h: Self)
        requires
            sizeable(caps.rows),
        ensures
            h.inv(),
            h.engine@ == created(caps.rows),
            h.storage == storage,
            h.last_error is None,
    {
        Host { engine: Engine::new(caps), storage, last_error: None }
    }

    /// Open the database: fresh init or recovery. `Err` is only possible for
    /// the two size probes; once the engine is running, storage failures
    /// surface in the output.
    pub fn open(&mut self) -> (res: Result<Output, S::Error>)
        requires
            old(self).inv(),
            old(self).engine@.phase == Phase::New,
        ensures
            final(self).inv(),
            S::never_fails() ==> res is Ok,
            match res {
                Ok(out) => {
                    let disk = old(self).storage.medium().disk;
                    let (s, first) = old(self).engine@.open(
                        disk.superblock.len() as u64,
                        disk.rows.len() as u64,
                    );
                    &&& probed_and_ran(
                        Machine::Engine(s),
                        first,
                        (FileId::Superblock, FileId::Rows),
                        old(self).storage,
                        (Machine::Engine(final(self).engine@), out@),
                        final(self).storage,
                        (old(self).last_error, final(self).last_error),
                    )
                    &&& flushed(
                        (Machine::Engine(final(self).engine@), out@),
                        final(self).storage.medium(),
                    )
                },
                Err(e) => {
                    &&& final(self).engine@ == old(self).engine@
                    &&& final(self).last_error == old(self).last_error
                    &&& probe_failed(
                        old(self).storage,
                        (FileId::Superblock, FileId::Rows),
                        e,
                        final(self).storage,
                    )
                },
            },
    {
        let superblock_len = match self.storage.len(FileId::Superblock) {
            Ok(n) => n,
            Err(e) => return Err(e),
        };
        let ghost mid = self.storage;
        let rows_len = match self.storage.len(FileId::Rows) {
            Ok(n) => n,
            Err(e) => return Err(e),
        };
        let ghost at = self.storage;
        let out = self.drive(Input::Open { superblock_len, rows_len });
        proof {
            assert(probed_once(old(self).storage, (FileId::Superblock, FileId::Rows), mid, at));
            assert(probed(old(self).storage, (FileId::Superblock, FileId::Rows), at));
        }
        Ok(out)
    }

    /// Open in salvage mode: rows that fail verification are set aside instead
    /// of failing the open.
    pub fn open_salvage(&mut self) -> (res: Result<Output, S::Error>)
        requires
            old(self).inv(),
            old(self).engine@.phase == Phase::New,
        ensures
            final(self).inv(),
            S::never_fails() ==> res is Ok,
            match res {
                Ok(out) => {
                    let disk = old(self).storage.medium().disk;
                    let (s, first) = (State { salvage: true, ..old(self).engine@ }).open(
                        disk.superblock.len() as u64,
                        disk.rows.len() as u64,
                    );
                    &&& probed_and_ran(
                        Machine::Engine(s),
                        first,
                        (FileId::Superblock, FileId::Rows),
                        old(self).storage,
                        (Machine::Engine(final(self).engine@), out@),
                        final(self).storage,
                        (old(self).last_error, final(self).last_error),
                    )
                    &&& flushed(
                        (Machine::Engine(final(self).engine@), out@),
                        final(self).storage.medium(),
                    )
                },
                Err(e) => {
                    &&& final(self).engine@ == old(self).engine@
                    &&& final(self).last_error == old(self).last_error
                    &&& probe_failed(
                        old(self).storage,
                        (FileId::Superblock, FileId::Rows),
                        e,
                        final(self).storage,
                    )
                },
            },
    {
        let superblock_len = match self.storage.len(FileId::Superblock) {
            Ok(n) => n,
            Err(e) => return Err(e),
        };
        let ghost mid = self.storage;
        let rows_len = match self.storage.len(FileId::Rows) {
            Ok(n) => n,
            Err(e) => return Err(e),
        };
        let ghost at = self.storage;
        let out = self.drive(Input::OpenSalvage { superblock_len, rows_len });
        proof {
            assert(probed_once(old(self).storage, (FileId::Superblock, FileId::Rows), mid, at));
            assert(probed(old(self).storage, (FileId::Superblock, FileId::Rows), at));
        }
        Ok(out)
    }

    /// Insert a row.
    pub fn insert(&mut self, id: u64, value: [u8; VALUE_LEN]) -> (out: Output)
        requires
            old(self).inv(),
            old(self).engine@.phase is Ready ==> old(self).engine@.generation < u64::MAX,
        ensures
            final(self).inv(),
            ({
                let (s, first) = old(self).engine@.insert(id, value@);
                &&& ran(
                    Machine::Engine(s),
                    first,
                    old(self).storage,
                    (Machine::Engine(final(self).engine@), out@),
                    final(self).storage,
                    (old(self).last_error, final(self).last_error),
                )
                &&& is_io(first) ==> flushed(
                    (Machine::Engine(final(self).engine@), out@),
                    final(self).storage.medium(),
                )
            }),
    {
        self.drive(Input::Insert { id, value })
    }

    /// Look a row up. No I/O.
    pub fn get(&mut self, id: u64) -> (out: Output)
        requires
            old(self).inv(),
        ensures
            final(self).inv(),
            out@ == old(self).engine@.get(id, 0),
            final(self).engine@ == old(self).engine@,
            final(self).storage == old(self).storage,
            final(self).last_error == old(self).last_error,
    {
        let out = self.drive(Input::Get { id });
        proof {
            let s = Machine::Engine(old(self).engine@);
            let r = old(self).engine@.get(id, 0);
            assert(!is_io(r));
            never_called(
                s,
                r,
                old(self).storage,
                (Machine::Engine(self.engine@), out@),
                self.storage,
                (old(self).last_error, self.last_error),
            );
        }
        out
    }

    /// Run the offline migration: bring a legacy file set up to this binary's
    /// schema, or do nothing if it is current already. The single-writer lock
    /// is the storage's to hold.
    pub fn migrate(&mut self) -> (res: Result<Output, S::Error>)
        requires
            old(self).inv(),
        ensures
            final(self).inv(),
            final(self).engine@ == old(self).engine@,
            S::never_fails() ==> res is Ok,
            match res {
                Ok(out) => {
                    let disk = old(self).storage.medium().disk;
                    let (p, first) = (Progress {
                        state: MState::New,
                        caps: old(self).engine@.caps,
                        rows_old_len: 0,
                        old: Seq::empty(),
                    }).start(disk.superblock.len() as u64, disk.rows_old.len() as u64);
                    exists|end: Machine|
                        {
                            &&& #[trigger] probed_and_ran(
                                Machine::Migration(p),
                                first,
                                (FileId::Superblock, FileId::RowsOld),
                                old(self).storage,
                                (end, out@),
                                final(self).storage,
                                (old(self).last_error, final(self).last_error),
                            )
                            &&& flushed(
                                (end, out@),
                                final(self).storage.medium(),
                            )
                        }
                },
                Err(e) => {
                    &&& final(self).last_error == old(self).last_error
                    &&& probe_failed(
                        old(self).storage,
                        (FileId::Superblock, FileId::RowsOld),
                        e,
                        final(self).storage,
                    )
                },
            },
    {
        let superblock_len = match self.storage.len(FileId::Superblock) {
            Ok(n) => n,
            Err(e) => return Err(e),
        };
        let ghost mid = self.storage;
        let rows_old_len = match self.storage.len(FileId::RowsOld) {
            Ok(n) => n,
            Err(e) => return Err(e),
        };
        let ghost at = self.storage;
        proof {
            self.engine.facts();
        }
        let mut m = MigrationEngine::new(self.engine.caps());
        let first = m.start(superblock_len, rows_old_len);
        let ghost begun = m.machine();
        let out = drive_from(&mut m, &mut self.storage, &mut self.last_error, first);
        proof {
            assert(probed_once(
                old(self).storage,
                (FileId::Superblock, FileId::RowsOld),
                mid,
                at,
            ));
            assert(probed(old(self).storage, (FileId::Superblock, FileId::RowsOld), at));
            assert(probed_and_ran(
                begun,
                first@,
                (FileId::Superblock, FileId::RowsOld),
                old(self).storage,
                (m.machine(), out@),
                self.storage,
                (old(self).last_error, self.last_error),
            ));
        }
        Ok(out)
    }

    /// Any client's operation.
    pub fn submit(&mut self, input: Input<'_>) -> (out: Output)
        requires
            old(self).inv(),
            is_client(input),
            old(self).engine@.accepts(input),
        ensures
            final(self).inv(),
            ran(
                Machine::Engine(old(self).engine@.step(input).0),
                old(self).engine@.step(input).1,
                old(self).storage,
                (Machine::Engine(final(self).engine@), out@),
                final(self).storage,
                (old(self).last_error, final(self).last_error),
            ),
            is_io(old(self).engine@.step(input).1) ==> flushed(
                (Machine::Engine(final(self).engine@), out@),
                final(self).storage.medium(),
            ),
    {
        self.drive(input)
    }

    fn drive(&mut self, first: Input<'_>) -> (out: Output)
        requires
            old(self).inv(),
            old(self).engine@.accepts(first),
        ensures
            final(self).inv(),
            ran(
                Machine::Engine(old(self).engine@.step(first).0),
                old(self).engine@.step(first).1,
                old(self).storage,
                (Machine::Engine(final(self).engine@), out@),
                final(self).storage,
                (old(self).last_error, final(self).last_error),
            ),
            is_io(old(self).engine@.step(first).1) ==> flushed(
                (Machine::Engine(final(self).engine@), out@),
                final(self).storage.medium(),
            ),
    {
        proof {
            self.engine.facts();
            engine_asks(self.engine@, first);
        }
        let out = self.engine.tick(first);
        drive_from(&mut self.engine, &mut self.storage, &mut self.last_error, out)
    }
}

/// A machine that completions can be fed to.
trait Driven {
    spec fn sound(&self) -> bool;

    spec fn machine(&self) -> Machine;

    proof fn machine_ok(&self)
        requires
            self.sound(),
        ensures
            self.machine().ok(),
    ;

    fn feed(&mut self, input: Input<'_>) -> (out: Output)
        requires
            old(self).sound(),
            old(self).machine().accepts(input),
        ensures
            final(self).sound(),
            (final(self).machine(), out@) == old(self).machine().step(input),
            out.well_formed(),
    ;
}

impl Driven for Engine {
    spec fn sound(&self) -> bool {
        self.inv()
    }

    spec fn machine(&self) -> Machine {
        Machine::Engine(self@)
    }

    proof fn machine_ok(&self) {
        self.facts();
    }

    fn feed(&mut self, input: Input<'_>) -> (out: Output) {
        self.tick(input)
    }
}

impl Driven for MigrationEngine {
    spec fn sound(&self) -> bool {
        self.inv()
    }

    spec fn machine(&self) -> Machine {
        Machine::Migration(self@)
    }

    proof fn machine_ok(&self) {
        self.facts();
    }

    fn feed(&mut self, input: Input<'_>) -> (out: Output) {
        self.tick(input)
    }
}

/// Perform what the machine asks for until it asks for nothing more.
fn drive_from<M: Driven, S: Storage>(
    machine: &mut M,
    storage: &mut S,
    last_error: &mut Option<S::Error>,
    first_out: Output,
) -> (out: Output)
    requires
        old(machine).sound(),
        old(machine).machine().asked(first_out@),
        !old(machine).machine().past_rows_sync(),
        first_out.well_formed(),
    ensures
        final(machine).sound(),
        final(machine).machine().awaits() is None,
        ran(
            old(machine).machine(),
            first_out@,
            *old(storage),
            (final(machine).machine(), out@),
            *final(storage),
            (*old(last_error), *final(last_error)),
        ),
        is_io(first_out@) ==> flushed(
            (final(machine).machine(), out@),
            final(storage).medium(),
        ),
{
    let ghost m = machine.machine();
    let ghost disk = storage.medium().disk;
    let mut out = first_out;
    let ghost mut k: nat = 0;
    let ghost mut way: Seq<S> = seq![*storage];
    proof {
        if clean(storage.medium()) {
            tracks_from_the_start((m, first_out@, disk), storage.medium());
        }
    }
    loop
        invariant
            machine.sound(),
            machine.machine().asked(out@),
            out.well_formed(),
            *last_error == *old(last_error),
            m == old(machine).machine(),
            disk == old(storage).medium().disk,
            run(machine.machine(), out@, storage.medium().disk) == run(m, first_out@, disk),
            after(m, first_out@, disk, k) == (machine.machine(), out@, storage.medium().disk),
            driven(m, first_out@, way),
            way.len() == k + 1,
            way[0] == *old(storage),
            way.last() == *storage,
            is_io(out@) ==> in_step(machine.machine(), out@, storage.medium()),
            k > 0 ==> in_step(machine.machine(), out@, storage.medium()),
            clean(old(storage).medium()) ==> tracks((m, first_out@, disk), k, storage.medium()),
            k > 0 ==> is_io(first_out@),
            k == 0 ==> out@ == first_out@,
        decreases machine.machine().work(),
    {
        let ghost before = machine.machine();
        let ghost reply = out@;
        let ghost held = storage.medium().disk;
        let ghost medium = storage.medium();
        proof {
            machine.machine_ok();
        }
        match out {
            Output::Read { file, offset, len } => {
                match storage.read(file, offset, len) {
                    Ok(data) => {
                        let input = Input::ReadDone { file, data: data.as_slice() };
                        proof {
                            before.asks(input);
                        }
                        out = machine.feed(input);
                    },
                    Err(e) => {
                        *last_error = Some(e);
                        proof {
                            before.asks(Input::IoFailed { file });
                            if clean(old(storage).medium()) {
                                failing_is_like_crashing(
                                    (m, first_out@, disk),
                                    k,
                                    medium,
                                    storage.medium().disk,
                                );
                            }
                        }
                        return machine.feed(Input::IoFailed { file });
                    },
                }
            },
            Output::Write { file, offset, data } => {
                match storage.write(file, offset, data.as_slice()) {
                    Ok(()) => {
                        let input = Input::WriteDone { file };
                        proof {
                            before.asks(input);
                        }
                        out = machine.feed(input);
                    },
                    Err(e) => {
                        *last_error = Some(e);
                        proof {
                            before.asks(Input::IoFailed { file });
                            if clean(old(storage).medium()) {
                                failing_is_like_crashing(
                                    (m, first_out@, disk),
                                    k,
                                    medium,
                                    storage.medium().disk,
                                );
                            }
                        }
                        return machine.feed(Input::IoFailed { file });
                    },
                }
            },
            Output::Fsync { file } => {
                match storage.sync(file) {
                    Ok(()) => {
                        let input = Input::FsyncDone { file };
                        proof {
                            before.asks(input);
                        }
                        out = machine.feed(input);
                    },
                    Err(e) => {
                        *last_error = Some(e);
                        proof {
                            before.asks(Input::IoFailed { file });
                            if clean(old(storage).medium()) {
                                failing_is_like_crashing(
                                    (m, first_out@, disk),
                                    k,
                                    medium,
                                    storage.medium().disk,
                                );
                            }
                        }
                        return machine.feed(Input::IoFailed { file });
                    },
                }
            },
            Output::Truncate { file, len } => {
                match storage.truncate(file, len) {
                    Ok(()) => {
                        let input = Input::TruncateDone { file };
                        proof {
                            before.asks(input);
                        }
                        out = machine.feed(input);
                    },
                    Err(e) => {
                        *last_error = Some(e);
                        proof {
                            before.asks(Input::IoFailed { file });
                            if clean(old(storage).medium()) {
                                failing_is_like_crashing(
                                    (m, first_out@, disk),
                                    k,
                                    medium,
                                    storage.medium().disk,
                                );
                            }
                        }
                        return machine.feed(Input::IoFailed { file });
                    },
                }
            },
            terminal => {
                proof {
                    if clean(old(storage).medium()) {
                        nothing_is_owed((m, first_out@, disk), k, storage.medium());
                    }
                }
                return terminal;
            },
        }
        proof {
            assert((machine.machine(), out@, storage.medium().disk) == completed(before, reply, held));
            stays_in_step(before, reply, medium, storage.medium());
            if clean(old(storage).medium()) {
                tracks_on((m, first_out@, disk), k, medium, storage.medium());
            }
            one_more_call(m, first_out@, way, *storage);
            way = way.push(*storage);
            k = k + 1;
        }
    }
}

impl Machine {
    /// What a machine replies is what it waits for from then on.
    proof fn asks(self, input: Input)
        requires
            self.ok(),
            self.accepts(input),
            self.awaits() is Some,
            !is_client(input),
        ensures
            self.step(input).0.asked(self.step(input).1),
            0 <= self.step(input).0.work() < self.work(),
    {
        match self {
            Machine::Engine(s) => engine_asks(s, input),
            Machine::Migration(p) => migration_asks(p, input),
        }
    }
}

/// One more request that was performed.
proof fn one_more_call<S: Storage>(m: Machine, reply: Reply, way: Seq<S>, to: S)
    requires
        driven(m, reply, way),
        ({
            let (n, request, disk) = after(
                m,
                reply,
                way[0].medium().disk,
                (way.len() - 1) as nat,
            );
            &&& is_io(request)
            &&& way.last().turned(Call::Perform { request }, None, &to)
            &&& to.medium().disk == completed(n, request, disk).2
        }),
    ensures
        driven(m, reply, way.push(to)),
{
    let next = way.push(to);
    let last = way.len() - 1;
    assert(after(m, reply, way[0].medium().disk, (last + 1) as nat) == completed(
        after(m, reply, way[0].medium().disk, last as nat).0,
        after(m, reply, way[0].medium().disk, last as nat).1,
        after(m, reply, way[0].medium().disk, last as nat).2,
    ));
    assert forall|i: int| 0 <= i < next.len() implies (#[trigger] next[i]).medium().disk == after(
        m,
        reply,
        next[0].medium().disk,
        i as nat,
    ).2 by {
        if i <= last {
            assert(way[i].medium().disk == after(m, reply, way[0].medium().disk, i as nat).2);
        }
    }
    assert forall|i: int| 0 <= i < next.len() - 1 implies #[trigger] called(
        m,
        reply,
        next,
        i,
    ) by {
        if i < last {
            assert(called(m, reply, way, i));
        }
    }
}

/// A machine that asks for nothing has the storage called for nothing.
proof fn never_called<S: Storage>(
    m: Machine,
    reply: Reply,
    from: S,
    end: (Machine, Reply),
    to: S,
    errors: (Option<S::Error>, Option<S::Error>),
)
    requires
        !is_io(reply),
        ran(m, reply, from, end, to, errors),
    ensures
        to == from,
        end == (m, reply),
        errors.1 == errors.0,
{
    assert forall|k: nat| (#[trigger] after(m, reply, from.medium().disk, k)) == (
        m,
        reply,
        from.medium().disk,
    ) by {
        nothing_happens(m, reply, from.medium().disk, k);
    }
    if performed(m, reply, from, to) {
        let way = choose|way: Seq<S>|
            {
                &&& #[trigger] driven(m, reply, way)
                &&& way[0] == from
                &&& way.last() == to
                &&& !is_io(after(m, reply, from.medium().disk, (way.len() - 1) as nat).1)
            };
        if way.len() > 1 {
            assert(called(m, reply, way, 0));
        }
    }
}

/// A storage that failed stopped the machine.
pub(crate) proof fn failed_is_stopped<S: Storage>(
    m: Machine,
    reply: Reply,
    from: S,
    end: (Machine, Reply),
    to: S,
    error: Option<S::Error>,
)
    requires
        failed(m, reply, from, end, to, error),
    ensures
        stopped(m, reply, from.medium().disk, end),
        error is Some,
{
}

proof fn nothing_happens(m: Machine, reply: Reply, disk: Disk, k: nat)
    requires
        !is_io(reply),
    ensures
        after(m, reply, disk, k) == (m, reply, disk),
    decreases k,
{
    if k > 0 {
        nothing_happens(m, reply, disk, (k - 1) as nat);
    }
}

} // verus!
