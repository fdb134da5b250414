//! Video nodes: where a video's data comes from.

use std::path::PathBuf;
use vstd::prelude::*;

verus! {

/// Specifies the data source for a video node.
pub enum VideoSource {
    /// Load from a local file path.
    Path(PathBuf),
    /// Load from raw bytes (in-memory).
    Bytes(Vec<u8>),
}

} // verus!
