//! The errors that the engine tells apart.
use vstd::prelude::*;

verus! {

#[derive(Clone, Copy, Debug, PartialEq, Eq, Structural)]
pub enum EngineError {
    /// A file or directory operation failed.
    Io,
    /// The active segment took fewer bytes than the record holds, or no
    /// further segment id is left.
    SegmentWrite,
    /// A value could not be read whole at its locator.
    Corruption { segment_id: u64, offset: u64 },
    /// The configuration was rejected.
    Config,
    /// A recovery worker failed.
    Recovery,
}

} // verus!
