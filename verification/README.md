# kv_engine

A key-value storage engine on a log-structured merge tree, written in Verus: the
library's behaviour is stated in contracts and proved.

The library performs no input or output. It decides what is to be written and
read, and hands out bytes; a program drives it, writes the files and keeps the
time. `app/` is such a program: a command-line tool and an HTTP server.

## Layout

| Module | What it holds |
|---|---|
| `engine` | the engine: writes, reads, scans, snapshots, flushes, compactions, repair |
| `memtable` | the skip list, and the pair of an active and an immutable list |
| `wal` | log records, and writing and reading a log |
| `sstable` | data blocks, and the format, builder and reader of table files |
| `filter` | the Bloom filter of a table |
| `cache` | the cache of recently used blocks |
| `manifest`, `version` | which tables there are, level by level |
| `compaction` | merging sorted sources |
| `write_batch`, `cli` | batches of operations, and the words that ask for them |
| `http` | the dashboard page and the answers of the HTTP routes |
| `bytes`, `entries`, `text`, `types`, `error` | what the others are built from |

## Driving the engine

A write is begun (`put`, `delete`, `put_with_ttl`, `write_batch`), its bytes are
appended to the log, and it is applied. Then `begin_flush` tells whether a table is
to be written. Once its file is there, `finish_flush` installs it and tells what
the log is to hold from then on; the manifest is saved before the log is replaced.
`compaction_due`, `begin_compaction` and `finish_compaction` work the same way.

## What is proved

- A value that was put is read back until it is overwritten, deleted or expired,
  whatever bytes it has; no other key changes.
- A flush and a compaction change nothing that a reader sees.
- What the engine leaves on disk restores its state, and a crash while a write is
  logged leaves all of that write or nothing of it, be it a batch.
- A scan sees of every key exactly what a lookup sees, in key order.
- A snapshot reads as the database was when it was taken.
- Every format reads back as it was written, and a Bloom filter has no false
  negatives.

This holds of every database, from an empty one on, after any sequence of writes,
flushes, compactions and reopenings (`engine::history`). A table stores the length
of a key in two bytes: a memtable with a key of more than 65535 bytes is not
flushed, and its entries stay readable from memory and from the log.

The checksum of log records comes from `crc32fast`. Its value is not described, only
that it is determined by the bytes.
