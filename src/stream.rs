use vstd::prelude::*;
use tokio_util::bytes::BytesMut;
use crate::buffer::buf_bytes;
use crate::codec::{decode_step, frame, header_byte, length_field, ChunkIOProto, DecodeStep};
use crate::error::ChunkIOError;
use crate::wire::{be_value, lemma_min_be_len, lemma_min_be_len_u64, lemma_min_be_width, lemma_min_be_value, lemma_pow256_mono, min_be, pow256};

verus! {

/// Total payload length of a sequence of chunks.
pub open spec fn total_len(chunks: Seq<Seq<u8>>) -> nat
    decreases chunks.len(),
{
    if chunks.len() == 0 {
        0
    } else {
        total_len(chunks.drop_last()) + chunks.last().len()
    }
}

/// The byte stream that one codec writes when it encodes each of `chunks`
/// in turn, starting with its send cursor at `offset`.
pub open spec fn encode_all(offset: nat, chunks: Seq<Seq<u8>>) -> Seq<u8>
    decreases chunks.len(),
{
    if chunks.len() == 0 {
        Seq::empty()
    } else {
        let before = chunks.drop_last();
        encode_all(offset, before) + frame(offset + total_len(before), chunks.last())
    }
}

/// Where decoding a buffer to exhaustion ends.
pub struct Decoded {
    /// The chunks taken off the buffer, in order.
    pub chunks: Seq<Seq<u8>>,
    /// The bytes left in the buffer.
    pub rest: Seq<u8>,
    /// The receive cursor afterwards.
    pub cursor: nat,
    /// The fault that stopped decoding, if any.
    pub fault: Option<ChunkIOError>,
}

/// Decoding the buffer `b` again and again, with the receive cursor first
/// at `recv`, until more bytes are needed or a fault stops it.
pub open spec fn decode_all(recv: nat, b: Seq<u8>) -> Decoded
    decreases b.len(),
{
    match decode_step(recv, b) {
        DecodeStep::Frame { start, len } => {
            let more = decode_all(recv + len, b.subrange((start + len) as int, b.len() as int));
            Decoded { chunks: seq![b.subrange(start as int, (start + len) as int)] + more.chunks, ..more }
        },
        DecodeStep::NeedMore => Decoded { chunks: Seq::empty(), rest: b, cursor: recv, fault: None },
        DecodeStep::Fault(e) => Decoded {
            chunks: Seq::empty(),
            rest: b,
            cursor: recv,
            fault: Some(e),
        },
    }
}

/// Decoding bytes that arrive in `pieces`: each piece is appended to the
/// buffer, which starts as `buf`, and everything decodable is decoded
/// before the next one arrives; a fault ends it.
pub open spec fn decode_pieces(recv: nat, buf: Seq<u8>, pieces: Seq<Seq<u8>>) -> Decoded
    decreases pieces.len(),
{
    let d = decode_all(recv, buf);
    if pieces.len() == 0 || d.fault is Some {
        d
    } else {
        let more = decode_pieces(d.cursor, d.rest + pieces[0], pieces.drop_first());
        Decoded { chunks: d.chunks + more.chunks, ..more }
    }
}

/// The byte sequences that a list of chunks holds.
pub open spec fn views(chunks: Seq<Vec<u8>>) -> Seq<Seq<u8>> {
    chunks.map_values(|c: Vec<u8>| c@)
}

/// The payload bytes of a prefix of chunks are no more than those of all.
proof fn lemma_total_len_prefix(chunks: Seq<Seq<u8>>, i: int)
    requires
        0 <= i <= chunks.len(),
    ensures
        total_len(chunks.subrange(0, i)) <= total_len(chunks),
    decreases chunks.len(),
{
    if i < chunks.len() {
        lemma_total_len_prefix(chunks.drop_last(), i);
        assert(chunks.drop_last().subrange(0, i) =~= chunks.subrange(0, i));
    } else {
        assert(chunks.subrange(0, i) =~= chunks);
    }
}

impl ChunkIOProto {
    /// Calls `decode` until it needs more bytes or fails, and hands back
    /// the chunks taken off `src` in order, with the fault if one stopped
    /// it: what `decode_all` says of the buffer and the receive cursor.
    pub fn decode_available(&mut self, src: &mut BytesMut) -> (r: (Vec<Vec<u8>>, Option<ChunkIOError>))
        ensures
            ({
                let d = decode_all(old(self).recv_cursor() as nat, buf_bytes(*old(src)));
                &&& views(r.0@) == d.chunks
                &&& r.1 == d.fault
                &&& buf_bytes(*final(src)) == d.rest
                &&& final(self).recv_cursor() == d.cursor
                &&& final(self).send_cursor() == old(self).send_cursor()
            }),
    {
        let ghost whole = decode_all(self.recv_cursor() as nat, buf_bytes(*src));
        let ghost sent = self.send_cursor();
        let mut got: Vec<Vec<u8>> = Vec::new();
        assert(views(got@) + whole.chunks =~= whole.chunks);
        loop
            invariant
                whole == decode_all(old(self).recv_cursor() as nat, buf_bytes(*old(src))),
                sent == old(self).send_cursor(),
                self.send_cursor() == sent,
                whole == (Decoded {
                    chunks: views(got@) + decode_all(
                        self.recv_cursor() as nat,
                        buf_bytes(*src),
                    ).chunks,
                    ..decode_all(self.recv_cursor() as nat, buf_bytes(*src))
                }),
            decreases buf_bytes(*src).len(),
        {
            let ghost got_before = views(got@);
            let ghost recv = self.recv_cursor() as nat;
            let ghost b = buf_bytes(*src);
            let ghost here = decode_all(recv, b);
            match self.decode(src) {
                Ok(Some(c)) => {
                    let ghost cv = c@;
                    got.push(c);
                    proof {
                        let next = decode_all(self.recv_cursor() as nat, buf_bytes(*src));
                        assert(views(got@) =~= got_before.push(cv));
                        assert(got_before + here.chunks =~= got_before.push(cv) + next.chunks);
                    }
                },
                Ok(None) => {
                    assert(decode_step(recv, b) is NeedMore);
                    assert(here == (Decoded { chunks: Seq::empty(), rest: b, cursor: recv, fault: None }));
                    assert(got_before + here.chunks =~= got_before);
                    return (got, None);
                },
                Err(e) => {
                    assert(decode_step(recv, b) == DecodeStep::Fault(e));
                    assert(here == (Decoded { chunks: Seq::empty(), rest: b, cursor: recv, fault: Some(e) }));
                    assert(got_before + here.chunks =~= got_before);
                    return (got, Some(e));
                },
            }
        }
    }

    /// Encodes each of `chunks` in turn onto the end of `dst`.
    pub fn encode_chunks(&mut self, chunks: &Vec<Vec<u8>>, dst: &mut BytesMut)
        requires
            old(self).send_cursor() + total_len(views(chunks@)) <= u64::MAX,
        ensures
            buf_bytes(*final(dst)) == buf_bytes(*old(dst)) + encode_all(
                old(self).send_cursor() as nat,
                views(chunks@),
            ),
            final(self).send_cursor() == old(self).send_cursor() + total_len(views(chunks@)),
            final(self).recv_cursor() == old(self).recv_cursor(),
    {
        let ghost start = self.send_cursor() as nat;
        let ghost all = views(chunks@);
        let mut i: usize = 0;
        assert(all.subrange(0, 0) =~= Seq::<Seq<u8>>::empty());
        assert(buf_bytes(*dst) =~= buf_bytes(*old(dst)) + encode_all(start, all.subrange(0, 0)));
        while i < chunks.len()
            invariant
                start == old(self).send_cursor(),
                all == views(chunks@),
                start + total_len(all) <= u64::MAX,
                i <= chunks.len(),
                buf_bytes(*dst) == buf_bytes(*old(dst)) + encode_all(start, all.subrange(0, i as int)),
                self.send_cursor() == start + total_len(all.subrange(0, i as int)),
                self.recv_cursor() == old(self).recv_cursor(),
            decreases chunks.len() - i,
        {
            let ghost before = buf_bytes(*dst);
            let ghost prefix = all.subrange(0, i as int);
            let ghost next = all.subrange(0, i + 1);
            assert(next.drop_last() =~= prefix);
            assert(next.last() == chunks@[i as int]@);
            proof {
                lemma_total_len_prefix(all, i + 1);
            }
            let c = chunks[i].clone();
            assert(c@ =~= chunks@[i as int]@);
            self.encode(c, dst);
            assert(buf_bytes(*dst) =~= buf_bytes(*old(dst)) + encode_all(start, next));
            i = i + 1;
        }
        assert(all.subrange(0, i as int) =~= all);
    }
}

/// Once the front of a buffer decides a step, bytes that arrive later do
/// not change it.
proof fn lemma_step_extend(recv: nat, b: Seq<u8>, x: Seq<u8>)
    requires
        !(decode_step(recv, b) is NeedMore),
    ensures
        decode_step(recv, b + x) == decode_step(recv, b),
{
    let c = b + x;
    assert(c[0] == b[0]);
    let iw = b[0] / 16;
    let lw = b[0] % 16;
    let head = 1 + iw + lw;
    if iw <= 8 && lw <= 8 && lw != 0 && head <= b.len() {
        assert(c.subrange(1, (1 + iw) as int) =~= b.subrange(1, (1 + iw) as int));
        assert(c.subrange(1 + iw, head) =~= b.subrange(1 + iw, head));
    }
}

/// Decoding `b + x` is decoding `b`, then going on with what `b` left
/// followed by `x`.
proof fn lemma_decode_all_append(recv: nat, b: Seq<u8>, x: Seq<u8>)
    ensures
        ({
            let d = decode_all(recv, b);
            let e = decode_all(d.cursor, d.rest + x);
            &&& d.fault is None ==> decode_all(recv, b + x) == (Decoded {
                chunks: d.chunks + e.chunks,
                ..e
            })
            &&& d.fault is Some ==> decode_all(recv, b + x) == (Decoded { rest: d.rest + x, ..d })
        }),
    decreases b.len(),
{
    let d = decode_all(recv, b);
    match decode_step(recv, b) {
        DecodeStep::Frame { start, len } => {
            lemma_step_extend(recv, b, x);
            let b2 = b.subrange((start + len) as int, b.len() as int);
            let c = b + x;
            assert(c.subrange((start + len) as int, c.len() as int) =~= b2 + x);
            assert(c.subrange(start as int, (start + len) as int) =~= b.subrange(start as int, (start + len) as int));
            lemma_decode_all_append(recv + len, b2, x);
            let m = decode_all(recv + len, b2);
            let e = decode_all(m.cursor, m.rest + x);
            if m.fault is None {
                assert(seq![b.subrange(start as int, (start + len) as int)] + (m.chunks + e.chunks) =~= (seq![
                    b.subrange(start as int, (start + len) as int),
                ] + m.chunks) + e.chunks);
            }
        },
        DecodeStep::NeedMore => {
            let e = decode_all(recv, b + x);
            assert(Seq::<Seq<u8>>::empty() + e.chunks =~= e.chunks);
        },
        DecodeStep::Fault(_) => {
            lemma_step_extend(recv, b, x);
        },
    }
}

/// Partial delivery does not matter: feeding a stream to the decoder in
/// pieces of any sizes, decoding all it can after each, gives the same
/// chunks, cursor and fault as feeding it all at once, and when no fault
/// stops it, the same bytes left over.
pub proof fn lemma_partial_delivery(recv: nat, buf: Seq<u8>, pieces: Seq<Seq<u8>>)
    ensures
        ({
            let whole = decode_all(recv, buf + pieces.flatten());
            let parts = decode_pieces(recv, buf, pieces);
            &&& parts.chunks == whole.chunks
            &&& parts.cursor == whole.cursor
            &&& parts.fault == whole.fault
            &&& parts.fault is None ==> parts.rest == whole.rest
        }),
    decreases pieces.len(),
{
    let d = decode_all(recv, buf);
    if pieces.len() == 0 {
        assert(buf + pieces.flatten() =~= buf);
    } else {
        lemma_decode_all_append(recv, buf, pieces.flatten());
        if d.fault is None {
            let tail = pieces.drop_first();
            lemma_partial_delivery(d.cursor, d.rest + pieces[0], tail);
            assert(d.rest + pieces[0] + tail.flatten() =~= d.rest + pieces.flatten());
        }
    }
}

/// The front of `frame(offset, payload) + x` decodes, with the receive
/// cursor at `offset`, to `payload`, leaving `x`.
proof fn lemma_decode_frame(offset: nat, payload: Seq<u8>, x: Seq<u8>)
    requires
        offset + payload.len() <= u64::MAX,
    ensures
        ({
            let b = frame(offset, payload) + x;
            let start = (frame(offset, payload).len() - payload.len()) as nat;
            &&& decode_step(offset, b) == (DecodeStep::Frame { start, len: payload.len() })
            &&& b.subrange(start as int, (start + payload.len()) as int) == payload
            &&& b.subrange((start + payload.len()) as int, b.len() as int) == x
        }),
{
    let index = min_be(offset);
    let length = length_field(payload.len());
    let f = frame(offset, payload);
    let b = f + x;
    lemma_min_be_len_u64(offset as u64);
    lemma_min_be_len_u64(payload.len() as u64);
    lemma_min_be_len(payload.len());
    lemma_min_be_value(offset);
    lemma_min_be_value(payload.len());
    let iw = index.len();
    let lw = length.len();
    assert(1 <= lw <= 8);
    let h = header_byte(iw, lw);
    assert(h as nat == iw * 16 + lw);
    assert(h / 16 == iw && h % 16 == lw) by (nonlinear_arith)
        requires
            h as nat == iw * 16 + lw,
            lw < 16,
    ;
    assert(b[0] == h);
    let head = 1 + iw + lw;
    assert(b.subrange(1, (1 + iw) as int) =~= index);
    assert(b.subrange((1 + iw) as int, head as int) =~= length);
    if payload.len() == 0 {
        assert(length.drop_last() =~= Seq::<u8>::empty());
    }
    assert(be_value(length) == payload.len());
    assert(b.subrange(head as int, (head + payload.len()) as int) =~= payload);
    assert(b.subrange((head + payload.len()) as int, b.len() as int) =~= x);
}

/// Round trip: the stream that a codec writes for `chunks`, from any
/// starting send cursor, decodes with the receive cursor at the same
/// starting point to exactly those chunks, nothing left over and no fault.
pub proof fn lemma_round_trip(offset: nat, chunks: Seq<Seq<u8>>)
    requires
        offset + total_len(chunks) <= u64::MAX,
    ensures
        decode_all(offset, encode_all(offset, chunks)) == (Decoded {
            chunks,
            rest: Seq::empty(),
            cursor: offset + total_len(chunks),
            fault: None,
        }),
    decreases chunks.len(),
{
    if chunks.len() > 0 {
        let before = chunks.drop_last();
        let c = chunks.last();
        let at = offset + total_len(before);
        let f = frame(at, c);
        lemma_round_trip(offset, before);
        lemma_decode_all_append(offset, encode_all(offset, before), f);
        lemma_decode_frame(at, c, Seq::empty());
        assert(Seq::<u8>::empty() + f =~= f);
        assert(f + Seq::<u8>::empty() =~= f);
        let e = decode_all(at, f);
        assert(decode_all(at + c.len(), Seq::empty()).chunks =~= Seq::<Seq<u8>>::empty());
        assert(e.chunks =~= seq![c]);
        assert(before + seq![c] =~= chunks);
    } else {
        assert(chunks =~= Seq::<Seq<u8>>::empty());
    }
}

/// Out-of-order detection: after the frames of `sent`, a frame whose
/// header is well formed but whose offset field `off` differs from the
/// receive cursor stops decoding with `OutOfOrder`, and no chunk after
/// `sent` comes out. This is what happens when two independently encoded
/// streams are interleaved, or an offset field is corrupted.
pub proof fn lemma_out_of_order(
    offset: nat,
    sent: Seq<Seq<u8>>,
    off: Seq<u8>,
    len_field: Seq<u8>,
    tail: Seq<u8>,
)
    requires
        offset + total_len(sent) <= u64::MAX,
        off.len() <= 8,
        1 <= len_field.len() <= 8,
        be_value(off) != offset + total_len(sent),
    ensures
        ({
            let bad = seq![header_byte(off.len(), len_field.len())] + off + len_field + tail;
            let d = decode_all(offset, encode_all(offset, sent) + bad);
            &&& d.chunks == sent
            &&& d.fault == Some(ChunkIOError::OutOfOrder)
        }),
{
    let bad = seq![header_byte(off.len(), len_field.len())] + off + len_field + tail;
    let iw = off.len();
    let lw = len_field.len();
    let h = header_byte(iw, lw);
    assert(h / 16 == iw && h % 16 == lw) by (nonlinear_arith)
        requires
            h as nat == iw * 16 + lw,
            lw < 16,
    ;
    lemma_round_trip(offset, sent);
    lemma_decode_all_append(offset, encode_all(offset, sent), bad);
    assert(Seq::<u8>::empty() + bad =~= bad);
    assert(bad.subrange(1, (1 + iw) as int) =~= off);
    assert(sent + Seq::<Seq<u8>>::empty() =~= sent);
}

/// Width boundaries: both fields of a frame's header are as narrow as
/// their values allow, and the widths change exactly at powers of 256.
/// The low nibble is `k >= 1` exactly when the payload length `n` has
/// `256^(k-1) <= n < 256^k`, or `n` is zero and `k` is one (255 takes one
/// byte, 256 two); the high nibble is zero exactly when the offset is
/// zero, and `k >= 1` exactly when `256^(k-1) <= offset < 256^k`.
pub proof fn lemma_width_boundaries(offset: nat, payload: Seq<u8>, k: nat)
    requires
        offset <= u64::MAX,
        payload.len() <= u64::MAX,
        1 <= k,
    ensures
        frame(offset, payload)[0] % 16 == k <==> (payload.len() == 0 && k == 1) || pow256(
            (k - 1) as nat,
        ) <= payload.len() < pow256(k),
        frame(offset, payload)[0] / 16 == 0 <==> offset == 0,
        frame(offset, payload)[0] / 16 == k <==> pow256((k - 1) as nat) <= offset < pow256(k),
{
    let n = payload.len();
    lemma_min_be_len_u64(offset as u64);
    lemma_min_be_len_u64(n as u64);
    lemma_min_be_len(offset);
    lemma_min_be_len(n);
    lemma_min_be_width(offset, k);
    lemma_min_be_width(n, k);
    lemma_pow256_mono(0, (k - 1) as nat);
    let iw = min_be(offset).len();
    let lw = length_field(n).len();
    let h = header_byte(iw, lw);
    assert(h / 16 == iw && h % 16 == lw) by (nonlinear_arith)
        requires
            h as nat == iw * 16 + lw,
            lw < 16,
    ;
    assert(frame(offset, payload)[0] == h);
}

/// Invalid headers are rejected: a buffer of at least two bytes whose
/// first byte has a high nibble above 8, a low nibble above 8, or a low
/// nibble of 0 yields `InvalidChunk` and no chunk.
pub proof fn lemma_invalid_header(recv: nat, b: Seq<u8>)
    requires
        b.len() >= 2,
        b[0] / 16 > 8 || b[0] % 16 > 8 || b[0] % 16 == 0,
    ensures
        decode_step(recv, b) == DecodeStep::Fault(ChunkIOError::InvalidChunk),
        decode_all(recv, b).chunks.len() == 0,
        decode_all(recv, b).fault == Some(ChunkIOError::InvalidChunk),
{
}

} // verus!
