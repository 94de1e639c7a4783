//! The options of a database.
use vstd::prelude::*;

verus! {

#[derive(Debug, Clone, Copy)]
pub struct Config {
    /// If on-disk uncompressed sstable data exceeds in-memory usage
    /// by this proportion, a full-compaction of all sstables will
    /// occur. This is only likely to happen in situations where
    /// multiple versions of most of the database's keys exist
    /// in multiple sstables, but should never happen for workloads
    /// where mostly new keys are being written.
    pub max_space_amp: u64,
    /// When the log file exceeds this size, a new compressed
    /// and compacted sstable will be flushed to disk and the
    /// log file will be truncated.
    pub max_log_length: usize,
    /// When the background compactor thread looks for contiguous
    /// ranges of sstables to merge, it will require all sstables
    /// to be at least 1/`merge_ratio` * the size of the first sstable
    /// in the contiguous window under consideration.
    pub merge_ratio: u64,
    /// When the background compactor thread looks for ranges of
    /// sstables to merge, it will require ranges to be at least
    /// this long.
    pub merge_window: usize,
    /// All inserts go directly to a `BufWriter` wrapping the log
    /// file. This option determines how large that in-memory buffer
    /// is.
    pub log_bufwriter_size: usize,
    /// The level of compression to use for the sstables with zstd.
    pub zstd_sstable_compression_level: u8,
}

/// The options that a database has unless others are given.
pub open spec fn default_config() -> Config {
    Config {
        max_space_amp: 2,
        max_log_length: 0x200_0000,
        merge_ratio: 3,
        merge_window: 10,
        log_bufwriter_size: 0x8000,
        zstd_sstable_compression_level: 3,
    }
}

impl Default for Config {
    fn default() -> (r: Config)
        ensures
            r == default_config(),
            r.max_space_amp == 2,
            r.max_log_length == 32 * 1024 * 1024,
            r.merge_ratio == 3,
            r.merge_window == 10,
            r.log_bufwriter_size == 32 * 1024,
            r.zstd_sstable_compression_level == 3,
    {
        Config {
            max_space_amp: 2,
            max_log_length: 32 * 1024 * 1024,
            merge_ratio: 3,
            merge_window: 10,
            log_bufwriter_size: 32 * 1024,
            zstd_sstable_compression_level: 3,
        }
    }
}

} // verus!
