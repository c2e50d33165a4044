//! Chunk framing over a byte stream: each chunk travels as a compact
//! header (widths of the offset and length fields), a big-endian offset
//! that counts the payload bytes sent before it, a big-endian length and
//! the payload itself.

mod buffer;
mod error;
pub mod wire;
pub mod codec;
pub mod stream;

pub use buffer::buf_bytes;
pub use codec::ChunkIOProto;
pub use error::ChunkIOError;
