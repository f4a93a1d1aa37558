//! The complete, finite operation space: nothing outside this module can ever
//! be asked of the engine by a compiled client.

use crate::engine::types::Input;
use vstd::prelude::*;

verus! {

/// Every operation the compiled client surface exposes.
pub const OPERATIONS: [&'static str; 2] = ["get_record", "insert_record"];

/// Two binaries agree on the operation space iff these match.
pub const QUERY_SPACE_HASH: u64 = 0xF264_F4E2_6128_E03F;

/// `-- name: get_record :one`: select one `records` row by primary key.
/// Answered by `GetDone`; pure in-memory, no I/O requests.
pub fn get_record(id: u64) -> (input: Input<'static>)
    ensures
        input == (Input::Get { id }),
{
    Input::Get { id }
}

/// `-- name: insert_record :exec`: insert one `records` row. Durably committed
/// when the engine answers `InsertDone { result: Ok }`.
pub fn insert_record(id: u64, value: [u8; 16]) -> (input: Input<'static>)
    ensures
        input == (Input::Insert { id, value }),
{
    Input::Insert { id, value }
}

} // verus!
