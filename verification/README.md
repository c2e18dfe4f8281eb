# ecsdb

An in-memory entity–component database, verified with Verus.

Entities live in a registry; each component type has a table of fixed-size
records, kept in a double buffer: writes go to the write side and become
visible to readers when a commit copies them over. Writes are queued and
applied as one batch at commit, all or none; each commit bumps the version and
yields a delta of the changes for replication. A write-ahead log, snapshots
and compaction keep the data across restarts, and clients are kept in sync by
full and incremental synchronisation with conflict resolution.

## Layout

- `src/`: the verified library. Every executable function carries a
  `requires`/`ensures` contract over spec models (`Seq`, `Map`, views of the
  data types); the public `law_*` proof functions state properties that relate
  several operations (a committed write is what a read gives back, frames and
  encodings decode to what was encoded, snapshot names parse back, and so on).
  - `entity/`: entity registry and archetype masks.
  - `storage/`: record buffers, component tables, sparse sets, deltas and
    their byte encoding, record layouts.
  - `schema/`: schema types, the reading of a parsed TOML document, validation.
  - `transaction/`: log entries, the in-memory log and the writer's log
    bookkeeping.
  - `persistence/`: log files, snapshot files and names, recovery replay,
    compaction.
  - `replication/`: frames, conflict resolution, client sessions, broadcast
    queue, synchronisation.
  - `db.rs`: the database itself.
- `app/`: what talks to the outside world: files, TOML and JSON text, the
  network, threads, the command line. It calls the library and is not
  verified.
- `tests/`: tests of the library through its public interface.

## Running

`verus` verifies `src/lib.rs`; the tests run with `cargo test`.
