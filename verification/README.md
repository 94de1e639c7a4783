# tiny_lsm

A dead-simple in-memory LSM for managing fixed-size metadata in more complex
systems, written in Verus.

- `src/` is the library. It decides what is written, read and merged, and it is
  proved that these decisions keep the data. It touches no file itself.
- `app/` is the database on disk around it: files, the log writer and the thread
  of the compaction worker.
- `tests/` runs the library against files kept in memory.

Records are checksummed with crc32fast, sstables are compressed with zstd. Of
these crates the library believes what `src/outside.rs` says: that a checksum is
the CRC-32 (IEEE) of its bytes, that a compressed sstable is a function of its
contents and the level, and that decompression gives the contents back.

The laws on the whole stand in `src/system.rs`: in whatever order the database
and the worker take their steps, and whichever of them fail, recovering from the
files gives the data with every entry that was logged, applied in order. These
are the data that the database holds, but for a key whose last insertion or
removal has failed after its entry had gone into the log: there the files have
the entry, and the data in memory do not, until the next recovery.

A failed write of a new sstable may leave the sstable cut off behind any of its
records. Other steps that fail are taken to have changed no file. An sstable
that is cut off before the number of its records is an error at recovery.
