use vstd::prelude::*;

verus! {

/// Failure kinds reported by the codec and its buffers.
#[derive(Debug, Clone, Copy, PartialEq, Eq, Structural)]
pub enum LrcError {
    /// An allocation could not be made.
    LrcOutOfMemory,
    /// The erasure pattern exceeds what the code can repair.
    LrcUnrecoverable,
    /// A codec or buffer was initialised twice.
    LrcInitTwice,
    /// Bad topology parameters or an index outside the chunk range.
    LrcInvalidArgument,
    /// A chunk index outside its partition.
    LrcIndexOverflow,
    /// Input longer than a chunk.
    LrcBufOverflow,
    /// Any other failure.
    LrcUnkonwn,
}

} // verus!
