//! Engine configuration.
use vstd::prelude::*;

verus! {

/// Rotation threshold of the active segment by default: 64 MiB.
pub const DEFAULT_MAX_ACTIVE_FILE_SIZE: u64 = 67108864;

/// Open read-only segment handles kept by default.
pub const DEFAULT_READ_CACHE_CAPACITY: usize = 50;

/// Buffer size of segment writers and readers by default: 8 KiB.
pub const DEFAULT_BUFFER_SIZE: usize = 8192;

/// What the engine reads of its configuration.
pub trait StorageConfig {
    fn max_active_file_size(&self) -> u64;
}

#[derive(Debug, Clone, Copy)]
pub struct BitCaskConfig {
    /// Size at which the active segment is sealed on the next append.
    pub max_active_file_size: u64,
    /// Capacity of the cache of read-only segment handles.
    pub read_cache_capacity: usize,
    pub writer_buffer_size: usize,
    pub reader_buffer_size: usize,
    /// Segments decoded at once during recovery.
    pub recovery_parallelism: usize,
}

/// Relies on num_cpus::get, documented to return at least 1.
#[verifier::external_body]
fn cpu_count() -> (r: usize)
    ensures
        r >= 1,
{
    num_cpus::get()
}

impl Default for BitCaskConfig {
    /// 64 MiB segments, a cache of 50 handles, 8 KiB buffers, and twice as many
    /// recovery workers as CPUs.
    fn default() -> (r: BitCaskConfig)
        ensures
            r.max_active_file_size == DEFAULT_MAX_ACTIVE_FILE_SIZE,
            r.read_cache_capacity == DEFAULT_READ_CACHE_CAPACITY,
            r.writer_buffer_size == DEFAULT_BUFFER_SIZE,
            r.reader_buffer_size == DEFAULT_BUFFER_SIZE,
            r.recovery_parallelism >= 2,
            r.recovery_parallelism % 2 == 0,
    {
        let cpus = cpu_count();
        let workers = if cpus > usize::MAX / 2 {
            usize::MAX - 1
        } else {
            cpus * 2
        };
        BitCaskConfig {
            max_active_file_size: DEFAULT_MAX_ACTIVE_FILE_SIZE,
            read_cache_capacity: DEFAULT_READ_CACHE_CAPACITY,
            writer_buffer_size: DEFAULT_BUFFER_SIZE,
            reader_buffer_size: DEFAULT_BUFFER_SIZE,
            recovery_parallelism: workers,
        }
    }
}

impl StorageConfig for BitCaskConfig {
    fn max_active_file_size(&self) -> u64 {
        self.max_active_file_size
    }
}

} // verus!
