# dabqlite

A small embedded record store written as pure state machines. The core does no
I/O: it returns a request, a host performs it, and the completion comes back as
the next input. Verus proves the contracts of the library, all but those of the
two std calls it rests on: `String::push`, and the formatting of a quoted string
with `{:?}`. Of a storage backend it takes what the trait `Storage` asks of one;
the backend in memory is proved to give it.

## Layout

- `src/engine*`: the record engine. `model.rs` says what it does, as a function
  from state and input to next state and reply; `log.rs` says what a log of rows
  means; `laws.rs`, `durability.rs`, `packing.rs` and `queries.rs` hold what
  follows.
- `src/layout*`, `src/slot.rs`, `src/generated*`: the on-disk formats.
- `src/btree*`, `src/trigram*`, `src/probe.rs`, `src/vorder.rs`: the indices.
- `src/blob.rs`: the blob zone's allocator.
- `src/inspect*`: read-only forensics over raw bytes, independent of the engine.
  Whatever the bytes, what it concludes is what an open answers
  (`host/inspecting.rs`), given a capacity that admits them.
- `src/migration.rs`: legacy rows in, current rows out.
- `src/host*`: the storage seam, the driver, an in-memory backend, and what
  holds of a database on its files. `laws.rs`: acknowledged writes are found
  again. `protocol.rs`: in which order a write asks for its I/O. `rebuild.rs`:
  what a rebuild keeps and what it reclaims. `salvage.rs`: salvaging sound files
  is opening them, and damaged ones are not touched. `crash.rs`:
  whatever a crash does to what was not synced, a write is there whole or not at
  all, and opening, creating and (`migrating.rs`) migrating lose nothing.
  `medium.rs`: what is acknowledged has been synced, and (`failing.rs`) a storage
  that fails leaves what a crash may leave.
  `damage.rs`: one rotten byte is survived or noticed, and so is a sync that
  lied.
- `src/codegen*`: the schema and query compiler.
- `app/`: POSIX files and the command line.
- `tests/`: scenarios, run against the compiled library.
