use vstd::prelude::*;

verus! {

/// Lets transport failures travel inside `ChunkIOError` as the opaque
/// values that the transport produced.
#[verifier::external_type_specification]
#[verifier::external_body]
pub struct ExIoError(std::io::Error);

/// What can go wrong while framing or de-framing chunks.
#[derive(Debug)]
pub enum ChunkIOError {
    /// A header's width nibbles are out of range, or its fields cannot hold
    /// a chunk that any sender could have produced.
    InvalidChunk,
    /// A chunk's offset field differs from the receive cursor.
    OutOfOrder,
    /// The transport failed; its error is passed on unchanged.
    Future(std::io::Error),
}

} // verus!
