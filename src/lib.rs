//! A Bitcask-style log-structured key-value store: the segment codec, the
//! in-memory keydir, the recovery that rebuilds it from segment bytes, the
//! decisions of the append path and the cache of segment handles. The calls
//! into `lru` and `num_cpus` stand behind small trusted wrappers; everything
//! else is verified.
pub mod active;
pub mod cache;
pub mod codec;
pub mod config;
pub mod error;
pub mod handle;
pub mod keydir;
pub mod layout;
pub mod recovery;

pub use config::{BitCaskConfig, StorageConfig};
pub use handle::BitCaskHandle;
