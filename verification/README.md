# mini_lsm

A small storage engine on a log-structured merge tree, written in Verus.

Writes go to a sorted table in memory. When it has grown large enough it is
frozen, and later flushed into an immutable table on disk. A read looks at all
of these layers, the newest first; deleting a key writes an empty value for it.

- `src/` is the verified library: the encodings of blocks and tables, the
  iterators over them and the ways to merge these, the memtable, and the engine
  with its state, reads, writes, scans and flushes. What an engine holds is
  specified as a map from keys to values; that freezing and flushing keep this
  map, and that lookups and scans read it, is proved.
- `app/` puts the engine behind locks, writes the files of tables, and runs the
  thread that flushes memtables.
- `tests/` runs the library on concrete values.

An engine is opened on what the files in its directory hold, and then holds what
was flushed into them. The bytes of a table's file stay in memory while the
engine is open: blocks are read from there, so there is no cache of blocks, and
a read cannot fail.

A table stores the lengths of keys and values and the offsets within a block in
two bytes, and the positions of blocks in four. Pairs that do not fit cannot be
read back from a table; `LsmStorageInner::next_flush_fits` tells before a flush.
