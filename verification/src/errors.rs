//! Error kinds of the engine.

use vstd::prelude::*;

verus! {

/// What can go wrong while processing a subtitle file.
#[derive(Clone, Copy, Debug, PartialEq, Eq, Structural)]
pub enum SubError {
    /// A substring expected to be a timestamp does not have the expected
    /// layout of decimal groups.
    MalformedTimeField,
    /// A file read or write failed; raised only by the surrounding I/O layer.
    IoFailure,
    /// The requested output extension is neither `.srt` nor `.vtt`.
    UnsupportedTargetFormat,
}

} // verus!
