//! `tiny_lsm` is a dead-simple in-memory LSM for managing fixed-size metadata
//! in more complex systems.
//!
//! Uses crc32fast to checksum all key-value pairs in the log and sstables. Uses
//! zstd to compress all sstables. Performs sstable compaction in the
//! background.
//!
//! Because the data is in-memory, there is no need to put bloom filters on the
//! sstables, and read operations cannot fail due to IO issues: `Lsm`
//! dereferences to an ordered map of the data.
//!
//! This is a bad choice for large data sets if you require quick recovery time
//! because it needs to read all of the sstables and the write ahead log when
//! starting up.
//!
//! The benefit to using tiered sstables at all, despite being in-memory, is
//! that they act as an effective log-deduplication mechanism, keeping space
//! amplification very low.
//!
//! Never change the constant size of keys or values for an existing database.
//!
//! The library touches no file and starts no thread. `lsm::Lsm` and
//! `worker::Worker` say what is to be done next, and go on when they are told
//! how it went; the caller does it. What they say is proved to keep the data:
//! see `system` for the laws on the whole, and `durability`, `compaction` and
//! `disk` for those it is made of.
pub mod checksum;
pub mod compaction;
pub mod config;
pub mod directory;
pub mod disk;
pub mod durability;
pub mod file_name;
pub mod lsm;
pub mod model;
pub mod ordered_map;
pub mod outside;
pub mod record;
pub mod size;
pub mod sstable;
pub mod system;
pub mod worker;
