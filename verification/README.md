# lsm_storage_engine

A key-value storage engine on a log-structured merge tree, verified with Verus.

Writes go to a write-ahead log and then to a sorted table in memory. When that
table is large enough it is written out as an immutable sorted file (an
SSTable), and when there are enough of those they are merged into one. A lookup
asks the table in memory and then the files from the newest to the oldest.

Of an SSTable only the sparse index, the Bloom filter and a few numbers are kept in
memory. Its data is read from the file: one part of it for a lookup that the filter
does not rule out, and part after part in a compaction. A compaction has as much of
each table in memory as it has read and not used yet, and the merged entries; a
table that is about to be written is in memory as a whole until it is.

## Layout

- `src/` is the library. It does no input or output: `LsmTree` says what is to be
  done to its data directory (`pending`), and goes on when that has been done
  (`completed`, or `supply` with what has been read). A lookup (`get`) gives the
  answer or says what has to be read for it (`get_with`).
- `app/` keeps such a directory in the file system, and holds a small
  demonstration program.
- `tests/` runs the library on directories in memory.

## What is proved

- Each function returns what its contract says, and does not panic. The formats of
  log, table and Bloom filter are specified byte by byte (`wal`, `block`,
  `sstable`, `bloom`), and what is written is read back as it was.
- A lookup finds what a plain map would hold after the same writes, whatever
  flushes and compactions there were in between
  (`state::lemma_answer`, `state::lemma_store_is_a_map`). It reads no table whose
  filter rules the key out (`state::lemma_find_below`).
- What is in memory takes every step that the whole store takes, tables and all
  (`store::StoreView::stands_for`, `store::lemma_opened_by_tails`).
- A Bloom filter has no false negatives (`bloom::lemma_no_false_negatives`).
- A compaction keeps what the tables show and leaves no trace of deleted keys
  (`compaction::lemma_merge_keeps_what_is_live`,
  `state::lemma_compaction_leaves_no_trace`).
- After a crash at any point the directory can be opened again and holds every
  write that was confirmed (`recovery::lemma_crash`,
  `recovery::lemma_every_confirmed_write_survives`). This assumes that a file is
  renamed, removed or cut off as a whole or not at all, and that no two table
  files have the same id.
