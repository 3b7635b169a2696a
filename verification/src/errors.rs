//! Error taxonomy of the synchronization core. Protocol violations are
//! fatal for the channel that produced them: after one, the byte
//! alignment of the stream can no longer be trusted.
use vstd::prelude::*;

verus! {

/// Why an encode or decode step refused its input.
#[derive(Debug, Clone, Copy, PartialEq, Eq, Structural)]
pub enum ProtoError {
    /// A first frame was too short to hold a tag and a read counter.
    MalformedHeader,
    /// A required delimiter byte was absent.
    MissingDelimiter,
    /// The declared number of frames disagrees with what was supplied.
    ReadCountMismatch,
    /// A counter or offset does not fit in its fixed-width wire field.
    TooLarge,
    /// A name or metadata field holds a reserved delimiter byte or is empty.
    BadName,
    /// A packed record region is inconsistent with its index header.
    BadRecord,
    /// A request tag outside the closed set: the dispatcher has no
    /// recovery path for it.
    UnknownTag,
}

} // verus!
