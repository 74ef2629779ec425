# tylsmdb

An embedded LSM-tree key-value storage engine whose core is verified with Verus.

## Layout

- `src/` — the verified library.
  - `batch`, `key`, `bound`: write batches and their log encoding, internal keys and
    their order, key ranges.
  - `memtable`: the in-memory layer, as a sorted vector or a `crossbeam-skiplist` map,
    with the same visible behaviour.
  - `iterator`: cursors over entries (single list, merge of many, concatenation) and the
    user-facing iterator that turns versions into visible rows.
  - `table`: the SSTable format — blocks with prefix compression, bloom filters,
    properties, index and footer — with its builder, reader (zstd blocks are
    decompressed with the `zstd` crate) and a block-by-block cursor.
  - `cache`: block and table caches.
  - `mvcc`: the snapshot watermark, snapshots and optimistic transactions.
  - `compact`: compaction tasks, picking, and rewriting entries at a watermark.
  - `db_state`, `write_group`, `write_path`: the engine state (memtables and tables), point
    reads, scans, conflict checks, commits, group commit and write accounting.
  - `recovery`: whether a directory may be opened, and replaying logged batches.
  - `env`: file names and the contents of `CURRENT`.
- `app/` — ordinary Rust around the library: the file system, engine options (which
  carry floating-point knobs), compaction scoring, table files on disk, and opening,
  flushing and manual compaction over them.
- `tests/` — tests of the library.
