# FlowDB

An embedded LSM key-value engine with a JSON document database on top, verified
with Verus.

`src/` is the library. Everything in it is computation on values in memory, and
every function carries a contract that Verus proves:

| Module | What it is |
| --- | --- |
| `bytes`, `error`, `record`, `order`, `ranges` | bytes, errors, records and configuration, orders of keys and versions, range deletions |
| `bloom`, `codec`, `lz4`, `sstable` | bloom filters, the block format, SST writer and reader |
| `memtable`, `memtables` | the tables in memory: active, frozen, being flushed |
| `manifest`, `wal`, `container` | the list of SSTs, the write-ahead log, the single-file storage format |
| `block_meta_index`, `merge`, `scan` | which blocks may hold a key, merging runs, range scans |
| `compaction`, `engine`, `stats`, `maintenance` | compaction, the engine, its numbers, what background maintenance is due |
| `jsondb` | object stores, secondary indexes, transactions, queries, cursors, schemas |
| `bindings` | argument handling for the Node.js binding |

Modules whose names end in `_laws` hold what is true of the library as a whole:

- What is written is read back, by point reads and by scans alike, until it
  expires, and no longer, whatever else has expired by then.
- A flush changes no read, and an engine that starts again from its SSTs and its
  log gives what was given before and has not expired since, as long as no
  expired version in memory stands over a live one of the same key and time.
- A compaction and garbage collection change no read.
- A batch in the log takes effect as a whole.
- An index agrees with its documents, and a query finds every document that
  meets its conditions.
- A document reads the same throughout a transaction once it was read, and a
  conflicting transaction is refused. A transaction may see what was flushed
  after it began.

`app/` is ordinary Rust around the library: files, clocks, threads, locks, serde
and the Node.js binding.

`tests/` runs the library on concrete values.

LZ4 compression comes from `lz4_flex` and JSON text from `serde_json`. The
contracts of the few functions that call them are believed, not proved; each
says in its doc comment what it claims.
