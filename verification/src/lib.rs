//! A versioning engine for per-server configuration snapshots.
//!
//! A server is a named folder that accumulates dated JSON snapshot files
//! named `<server>_<YYYYMMDD>.json` (or `<server>_<YYYYMMDD>_<HHMMSS>.json`
//! for same-day saves). This library holds the decision logic of that
//! engine: extracting the embedded date from a filename, ordering snapshots
//! by recency, resolving seed templates through a fallback chain, and
//! duplicating a server's history under a new name with every JSON string
//! value rewritten. All file contents and names are byte strings; the
//! surrounding application does the actual disk I/O.

use vstd::prelude::*;

pub mod bytes;
pub mod clock;
pub mod datecode;
pub mod json;
pub mod json_laws;
pub mod lifecycle;
pub mod rewrite;
pub mod snapshot;
pub mod template;

verus! {

/// The errors of the engine, one variant per failure class.
#[derive(Clone, Copy, Debug, PartialEq, Eq, Structural)]
pub enum ConfigError {
    /// A directory or file could not be read.
    IoUnreadable,
    /// A write, create or rename failed.
    IoUnwritable,
    /// Content does not parse as JSON.
    InvalidJson,
    /// A server folder holds no snapshot files.
    NoSnapshots,
    /// The source server of a copy does not exist.
    SourceMissing,
    /// The target server of a copy already exists.
    TargetExists,
    /// A soft delete could not rename the folder.
    RenameFailed,
}

} // verus!
