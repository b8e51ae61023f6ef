# fold_rs

A small log-structured key-value storage engine, written in Verus.

- `src/` is the verified library: the Bloom filter, the sorted memtable,
  the write-ahead log record format and its reader, the SSTable writer,
  footer and reader, the storage engine's read/write/flush/recovery logic,
  a model of runs of writes, flushes and restarts (`durability`), and the
  parsing of data-file names. Each public function carries a
  contract over a mathematical model, and the laws that tie the parts
  together (round trips of every on-disk format, no false negatives of the
  filter, newest-layer-wins reads, flush and recovery preserving reads) are
  proof functions.
- `app/` holds the file-backed pieces around it: memory-mapped SSTables,
  WAL files, directory handling and the crash-test writer.
- `tests/` runs the library on concrete values.
