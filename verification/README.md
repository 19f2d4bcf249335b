# RedlineDB

The verified core of an embedded storage engine, with the programs around it.

- `src/` is the library. Every item in it is verified with Verus.
  - `format`: identifiers, byte order, pages and their images
  - `index`: the B-tree index, its model and what holds of it
  - `wal`: the write-ahead log: payloads, records, segments, the scan, the queue and its writer
  - `storage`: the buffer pool, page files, checkpoints on disk
  - `txn`, `engine`: transactions, row locks, commits, recovery
  - `facade`, `ffi`, `cli`: the rules of the public surfaces
  - `bench`: what the benchmark harness runs, how it judges and what it reports
  - `io`, `text`, `vector`, `failpoints`: what the others share
- `tests/` runs the library.
- `app/` is ordinary Rust: files, threads, floating point, the C interface and the command lines.

The laws that hold across functions are the public proof functions whose names start with `law_`.
