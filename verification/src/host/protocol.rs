//! The requests that a commit makes, in their order.

use crate::engine::laws::is_io;
use crate::engine::model::{Phase, State};
use crate::engine::types::{FileId, Input, Reply};
use crate::host::disk::{after, completed, Disk, Machine};
use crate::host::laws::{
    begun, committed, is_write, midway, midway_goes_on, settled, write_begins,
};
use vstd::prelude::*;

verus! {

/// Request number `k` of the commit that `s` has begun: its rows, one behind
/// the other; their sync; the two copies of the superblock; their sync. Then
/// the answer.
pub open spec fn commit_request(s: State, k: int) -> Reply {
    let n = s.slots.len();
    if k < n {
        s.row_write(k)
    } else if k == n {
        Reply::Fsync { file: FileId::Rows }
    } else if k <= n + 2 {
        s.commit_sb(k - n - 1)
    } else if k == n + 3 {
        Reply::Fsync { file: FileId::Superblock }
    } else {
        s.done(None)
    }
}

/// Where a commit stands, counted in requests.
spec fn stands_at(phase: Phase, n: int, k: int) -> bool {
    match phase {
        Phase::WriteRow { next } => k == next,
        Phase::FsyncRows => k == n,
        Phase::WriteSb { copy } => k == n + 1 + copy,
        Phase::FsyncSb => k == n + 3,
        _ => false,
    }
}

/// A completed request moves a commit on by one.
#[verifier::spinoff_prover]
proof fn commit_moves_on(t: State, reply: Reply, disk: Disk, k: int)
    requires
        t.slots.len() <= 128,
        stands_at(t.phase, t.slots.len() as int, k),
        t.phase is WriteRow || t.phase is WriteSb ==> reply is Write,
        t.phase is FsyncRows || t.phase is FsyncSb ==> reply is Fsync,
        t.phase matches Phase::WriteRow { next } ==> next < t.slots.len(),
        t.phase matches Phase::WriteSb { copy } ==> copy < 2,
    ensures
        ({
            let next = completed(Machine::Engine(t), reply, disk).0;
            let phase = (next->Engine_0).phase;
            &&& next is Engine
            &&& if k < t.slots.len() + 3 {
                stands_at(phase, t.slots.len() as int, k + 1)
            } else {
                phase == Phase::Ready
            }
        }),
{
}

proof fn commit_position(s: State, before: Disk, first: Reply, k: nat)
    requires
        begun(s, before),
        midway(s, before, (Machine::Engine(s), first, before)),
    ensures
        ({
            let at = after(Machine::Engine(s), first, before, k);
            let n = s.slots.len() as int;
            if k <= n + 3 {
                midway(s, before, at) && stands_at((at.0->Engine_0).phase, n, k as int)
            } else {
                committed(s, at)
            }
        }),
    decreases k,
{
    if k > 0 {
        let j = (k - 1) as nat;
        commit_position(s, before, first, j);
        let at = after(Machine::Engine(s), first, before, j);
        let next = after(Machine::Engine(s), first, before, k);
        assert(next == completed(at.0, at.1, at.2));
        if j <= s.slots.len() + 3 {
            midway_goes_on(s, before, at);
            commit_moves_on(at.0->Engine_0, at.1, at.2, j as int);
        } else {
            assert(!is_io(at.1));
        }
    }
}

/// A write asks for its requests in one order, each once: every row is synced
/// before the superblock is touched, and the superblock is synced before the
/// write is answered. However many rows there are, there are two syncs.
pub proof fn a_commit_asks_in_order(s: State, disk: Disk, input: Input, k: nat)
    requires
        s.ok(),
        s.phase is Ready,
        settled(disk, s),
        s.accepts(input),
        is_write(input),
        is_io(s.step(input).1),
    ensures
        ({
            let (t, first) = s.step(input);
            after(Machine::Engine(t), first, disk, k).1 == commit_request(t, k as int)
        }),
{
    write_begins(s, disk, input);
    let (t, first) = s.step(input);
    commit_position(t, disk, first, k);
}

} // verus!
