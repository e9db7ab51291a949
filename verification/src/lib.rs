//! Tracks external video collections, materializes lightweight filesystem
//! stand-ins for each item, and resolves time-bounded adaptive-bitrate
//! manifests for playback, with caching and a direct-stream fallback.

pub mod config;
pub mod images;
pub mod manifest;
pub mod materialize;
pub mod migrate;
pub mod refresh;
pub mod settings;
pub mod shims;
pub mod sync;
pub mod text;

use vstd::prelude::*;

verus! {

/// How an operation against the outside world or the store can fail.
#[derive(Debug, Clone, Copy, PartialEq, Eq, Structural)]
pub enum Failure {
    /// The collaborator tool could not be run or exited unsuccessfully.
    CollaboratorInvocation,
    /// A JSON document or manifest was malformed.
    Parse,
    /// No manifest URL, or no qualifying videos, were found.
    NotFound,
    /// The durable store could not be written.
    Persistence,
}

} // verus!
