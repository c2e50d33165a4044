use vstd::prelude::*;
use tokio_util::bytes::BytesMut;
use crate::buffer::{buf_advance, buf_at, buf_bytes, buf_extend, buf_len, buf_split_to};
use crate::error::ChunkIOError;
use crate::wire::{be_value, min_be, min_be_bytes, read_be};

verus! {

/// The length field written for a payload of `n` bytes: its shortest
/// big-endian bytes, or a single zero byte for an empty payload, so that
/// the field is never empty.
pub open spec fn length_field(n: nat) -> Seq<u8> {
    if n == 0 {
        seq![0u8]
    } else {
        min_be(n)
    }
}

/// The header byte of a frame: offset width in the high nibble, length
/// width in the low one.
pub open spec fn header_byte(index_width: nat, length_width: nat) -> u8 {
    (index_width * 16 + length_width) as u8
}

/// The wire bytes of one chunk whose offset field holds `offset`.
pub open spec fn frame(offset: nat, payload: Seq<u8>) -> Seq<u8> {
    let index = min_be(offset);
    let length = length_field(payload.len());
    seq![header_byte(index.len(), length.len())] + index + length + payload
}

/// What one attempt to decode the front of a buffer finds.
pub enum DecodeStep {
    /// Not enough bytes yet to decide.
    NeedMore,
    /// The front of the buffer can never become a valid chunk.
    Fault(ChunkIOError),
    /// A whole chunk: its payload is `len` bytes from position `start`.
    Frame { start: nat, len: nat },
}

/// Decoding the front of `b` while the receive cursor stands at `recv`.
/// Until the whole payload is buffered, more bytes are needed. A complete
/// frame whose length would carry the cursor past the 64-bit range is a
/// fault: no sender's cursor can have produced it.
pub open spec fn decode_step(recv: nat, b: Seq<u8>) -> DecodeStep {
    if b.len() < 2 {
        DecodeStep::NeedMore
    } else {
        let iw = b[0] / 16;
        let lw = b[0] % 16;
        let head = 1 + iw + lw;
        if iw > 8 || lw > 8 || lw == 0 {
            DecodeStep::Fault(ChunkIOError::InvalidChunk)
        } else if b.len() < head {
            DecodeStep::NeedMore
        } else if be_value(b.subrange(1, 1 + iw)) != recv {
            DecodeStep::Fault(ChunkIOError::OutOfOrder)
        } else {
            let len = be_value(b.subrange(1 + iw, head));
            if b.len() < head + len {
                DecodeStep::NeedMore
            } else if recv + len > u64::MAX {
                DecodeStep::Fault(ChunkIOError::InvalidChunk)
            } else {
                DecodeStep::Frame { start: head as nat, len }
            }
        }
    }
}

/// The framing state of one end of a connection: a cursor for each
/// direction, counting the payload bytes encoded and decoded so far.
pub struct ChunkIOProto {
    send_index: u64,
    recv_index: u64,
}

impl ChunkIOProto {
    /// Payload bytes encoded so far.
    pub closed spec fn send_cursor(&self) -> u64 {
        self.send_index
    }

    /// Payload bytes decoded so far.
    pub closed spec fn recv_cursor(&self) -> u64 {
        self.recv_index
    }

    /// A codec with both cursors at zero.
    pub fn new() -> (r: ChunkIOProto)
        ensures
            r.send_cursor() == 0,
            r.recv_cursor() == 0,
    {
        ChunkIOProto { send_index: 0, recv_index: 0 }
    }

    pub fn send_index(&self) -> (r: u64)
        ensures
            r == self.send_cursor(),
    {
        self.send_index
    }

    pub fn recv_index(&self) -> (r: u64)
        ensures
            r == self.recv_cursor(),
    {
        self.recv_index
    }

    /// Takes one chunk off the front of `src` if it is all there. Leaves
    /// `src` and the cursor untouched when more bytes are needed or the
    /// header is bad.
    pub fn decode(&mut self, src: &mut BytesMut) -> (r: Result<Option<Vec<u8>>, ChunkIOError>)
        ensures
            final(self).send_cursor() == old(self).send_cursor(),
            ({
                let b = buf_bytes(*old(src));
                let recv = old(self).recv_cursor() as nat;
                match decode_step(recv, b) {
                    DecodeStep::NeedMore => r matches Ok(None) && buf_bytes(*final(src)) == b
                        && final(self).recv_cursor() == recv,
                    DecodeStep::Fault(e) => r == Err::<Option<Vec<u8>>, ChunkIOError>(e)
                        && buf_bytes(*final(src)) == b && final(self).recv_cursor() == recv,
                    DecodeStep::Frame { start, len } => r matches Ok(Some(p)) && p@
                        == b.subrange(start as int, (start + len) as int) && buf_bytes(*final(src))
                        == b.subrange((start + len) as int, b.len() as int) && final(self).recv_cursor()
                        == recv + len,
                }
            }),
    {
        let ghost b = buf_bytes(*src);
        let n = buf_len(src);
        if n < 2 {
            return Ok(None);
        }
        let h = buf_at(src, 0);
        let iw = (h / 16) as usize;
        let lw = (h % 16) as usize;
        if iw > 8 || lw > 8 || lw == 0 {
            return Err(ChunkIOError::InvalidChunk);
        }
        let head = 1 + iw + lw;
        if n < head {
            return Ok(None);
        }
        let index = read_be(src, 1, iw);
        if index != self.recv_index {
            return Err(ChunkIOError::OutOfOrder);
        }
        let length = read_be(src, 1 + iw, lw);
        if ((n - head) as u64) < length {
            return Ok(None);
        }
        if length > u64::MAX - self.recv_index {
            return Err(ChunkIOError::InvalidChunk);
        }
        buf_advance(src, head);
        let payload = buf_split_to(src, length as usize);
        proof {
            assert(buf_bytes(*src) =~= b.subrange(head + length, b.len() as int));
            assert(payload@ =~= b.subrange(head as int, head + length));
        }
        self.recv_index = self.recv_index + length;
        Ok(Some(payload))
    }

    /// Appends the frame of `item` to `dst` and advances the send cursor by
    /// its length. Never fails.
    pub fn encode(&mut self, item: Vec<u8>, dst: &mut BytesMut) -> (r: Result<(), ChunkIOError>)
        requires
            old(self).send_cursor() + item@.len() <= u64::MAX,
        ensures
            r is Ok,
            buf_bytes(*final(dst)) == buf_bytes(*old(dst)) + frame(
                old(self).send_cursor() as nat,
                item@,
            ),
            final(self).send_cursor() == old(self).send_cursor() + item@.len(),
            final(self).recv_cursor() == old(self).recv_cursor(),
    {
        let index = min_be_bytes(self.send_index);
        let n = item.len() as u64;
        let length = if n == 0 {
            vec![0u8]
        } else {
            min_be_bytes(n)
        };
        assert(length@ =~= length_field(item@.len()));
        let header: u8 = (index.len() as u8) * 16 + (length.len() as u8);
        let head = vec![header];
        buf_extend(dst, head.as_slice());
        buf_extend(dst, index.as_slice());
        buf_extend(dst, length.as_slice());
        buf_extend(dst, item.as_slice());
        assert(buf_bytes(*dst) =~= buf_bytes(*old(dst)) + frame(
            old(self).send_cursor() as nat,
            item@,
        ));
        self.send_index = self.send_index + n;
        Ok(())
    }
}

} // verus!
