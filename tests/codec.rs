use chunk_io::{ChunkIOError, ChunkIOProto};
use tokio_util::bytes::BytesMut;

fn encode_chunks(codec: &mut ChunkIOProto, chunks: &[Vec<u8>]) -> BytesMut {
    let mut out = BytesMut::new();
    codec.encode_chunks(&chunks.to_vec(), &mut out);
    out
}

fn decode_until_pending(codec: &mut ChunkIOProto, buf: &mut BytesMut) -> Result<Vec<Vec<u8>>, ChunkIOError> {
    let (got, fault) = codec.decode_available(buf);
    match fault {
        None => Ok(got),
        Some(e) => Err(e),
    }
}

#[test]
fn scenario_three_chunks() {
    let chunks = vec![b"A".to_vec(), b"".to_vec(), b"hello world".to_vec()];
    let mut enc = ChunkIOProto::new();
    let mut out = BytesMut::new();
    enc.encode(chunks[0].clone(), &mut out).unwrap();
    assert_eq!(&out[..], &[0x01, 0x01, 0x41]);
    enc.encode(chunks[1].clone(), &mut out).unwrap();
    enc.encode(chunks[2].clone(), &mut out).unwrap();
    assert_eq!(enc.send_index(), 12);
    assert_eq!(enc.recv_index(), 0);
    let mut dec = ChunkIOProto::new();
    let got = decode_until_pending(&mut dec, &mut out).unwrap();
    assert_eq!(got, chunks);
    assert_eq!(dec.recv_index(), 12);
    assert!(out.is_empty());
}

#[test]
fn empty_chunk_has_one_byte_length_field() {
    let mut enc = ChunkIOProto::new();
    let mut out = BytesMut::new();
    enc.encode(Vec::new(), &mut out).unwrap();
    assert_eq!(&out[..], &[0x01, 0x00]);
    let mut dec = ChunkIOProto::new();
    assert_eq!(dec.decode(&mut out).unwrap(), Some(Vec::new()));
    assert!(out.is_empty());
}

#[test]
fn offset_field_follows_send_cursor() {
    let mut enc = ChunkIOProto::new();
    let out = encode_chunks(&mut enc, &[vec![7u8; 3], vec![9u8, 8]]);
    assert_eq!(&out[..], &[0x01, 0x03, 7, 7, 7, 0x11, 0x03, 0x02, 9, 8]);
    assert_eq!(enc.send_index(), 5);
}

#[test]
fn round_trip_across_width_boundaries() {
    let sizes = [0usize, 1, 255, 256, 65535, 65536, 70000, 0, 3];
    let chunks: Vec<Vec<u8>> = sizes
        .iter()
        .enumerate()
        .map(|(i, n)| (0..*n).map(|j| (j * 31 + i) as u8).collect())
        .collect();
    let mut enc = ChunkIOProto::new();
    let mut out = encode_chunks(&mut enc, &chunks);
    let total: usize = sizes.iter().sum();
    assert_eq!(enc.send_index(), total as u64);
    let mut dec = ChunkIOProto::new();
    let got = decode_until_pending(&mut dec, &mut out).unwrap();
    assert_eq!(got, chunks);
    assert_eq!(dec.recv_index(), total as u64);
    assert!(out.is_empty());
}

#[test]
fn length_255_takes_one_byte_and_256_two() {
    let mut enc = ChunkIOProto::new();
    let out = encode_chunks(&mut enc, &[vec![0u8; 255]]);
    assert_eq!(&out[..2], &[0x01, 0xff]);
    assert_eq!(out.len(), 2 + 255);
    let mut enc = ChunkIOProto::new();
    let out = encode_chunks(&mut enc, &[vec![0u8; 256]]);
    assert_eq!(&out[..3], &[0x02, 0x01, 0x00]);
    let mut enc = ChunkIOProto::new();
    let out = encode_chunks(&mut enc, &[vec![0u8; 65536]]);
    assert_eq!(&out[..4], &[0x03, 0x01, 0x00, 0x00]);
}

#[test]
fn wide_offsets_decode() {
    let chunks = vec![vec![1u8; 65536], vec![2u8; 5], vec![3u8; 2]];
    let mut enc = ChunkIOProto::new();
    let mut out = encode_chunks(&mut enc, &chunks);
    // the second frame's offset 65536 takes three bytes
    assert_eq!(&out[4 + 65536..4 + 65536 + 5], &[0x31, 0x01, 0x00, 0x00, 0x05]);
    let mut dec = ChunkIOProto::new();
    assert_eq!(decode_until_pending(&mut dec, &mut out).unwrap(), chunks);
}

#[test]
fn partial_delivery_byte_by_byte() {
    let chunks = vec![b"A".to_vec(), Vec::new(), b"hello world".to_vec(), vec![5u8; 300]];
    let mut enc = ChunkIOProto::new();
    let whole = encode_chunks(&mut enc, &chunks);
    for step in [1usize, 2, 3, 7, 64] {
        let mut dec = ChunkIOProto::new();
        let mut buf = BytesMut::new();
        let mut got = Vec::new();
        for piece in whole.chunks(step) {
            buf.extend_from_slice(piece);
            got.extend(decode_until_pending(&mut dec, &mut buf).unwrap());
        }
        assert_eq!(got, chunks);
        assert!(buf.is_empty());
    }
}

#[test]
fn need_more_leaves_buffer_untouched() {
    let mut enc = ChunkIOProto::new();
    let whole = encode_chunks(&mut enc, &[b"hello world".to_vec()]);
    for cut in 0..whole.len() {
        let mut dec = ChunkIOProto::new();
        let mut buf = BytesMut::from(&whole[..cut]);
        assert_eq!(dec.decode(&mut buf).unwrap(), None);
        assert_eq!(dec.decode(&mut buf).unwrap(), None);
        assert_eq!(&buf[..], &whole[..cut]);
        assert_eq!(dec.recv_index(), 0);
    }
}

#[test]
fn interleaved_streams_are_out_of_order() {
    let mut a = ChunkIOProto::new();
    let mut b = ChunkIOProto::new();
    let mut buf = BytesMut::new();
    a.encode(b"first".to_vec(), &mut buf).unwrap();
    b.encode(b"other".to_vec(), &mut buf).unwrap();
    a.encode(b"second".to_vec(), &mut buf).unwrap();
    let mut dec = ChunkIOProto::new();
    assert_eq!(dec.decode(&mut buf).unwrap(), Some(b"first".to_vec()));
    let before = buf.clone();
    assert!(matches!(dec.decode(&mut buf), Err(ChunkIOError::OutOfOrder)));
    assert_eq!(buf, before);
    assert_eq!(dec.recv_index(), 5);
}

#[test]
fn corrupted_offset_is_out_of_order() {
    let mut enc = ChunkIOProto::new();
    let mut buf = encode_chunks(&mut enc, &[b"abc".to_vec(), b"de".to_vec()]);
    // second frame starts at 5: header 0x11, offset 0x03
    assert_eq!(buf[6], 0x03);
    buf[6] = 0x04;
    let mut dec = ChunkIOProto::new();
    assert_eq!(dec.decode(&mut buf).unwrap(), Some(b"abc".to_vec()));
    assert!(matches!(dec.decode(&mut buf), Err(ChunkIOError::OutOfOrder)));
    assert!(matches!(dec.decode(&mut buf), Err(ChunkIOError::OutOfOrder)));
}

#[test]
fn invalid_headers_rejected() {
    for h in [0x90u8, 0xf1, 0x19, 0x1f, 0x10, 0x00, 0xff] {
        let mut dec = ChunkIOProto::new();
        let mut buf = BytesMut::from(&[h, 0u8, 0, 0][..]);
        assert!(matches!(dec.decode(&mut buf), Err(ChunkIOError::InvalidChunk)));
        assert_eq!(&buf[..], &[h, 0u8, 0, 0]);
    }
}

#[test]
fn single_byte_is_never_judged() {
    let mut dec = ChunkIOProto::new();
    let mut buf = BytesMut::from(&[0xffu8][..]);
    assert_eq!(dec.decode(&mut buf).unwrap(), None);
}

#[test]
fn incomplete_payload_past_cursor_range_waits() {
    let mut enc = ChunkIOProto::new();
    let mut buf = encode_chunks(&mut enc, &[b"x".to_vec()]);
    buf.extend_from_slice(&[0x18, 0x01, 0xff, 0xff, 0xff, 0xff, 0xff, 0xff, 0xff, 0xff]);
    let mut dec = ChunkIOProto::new();
    assert_eq!(dec.decode(&mut buf).unwrap(), Some(b"x".to_vec()));
    assert_eq!(dec.decode(&mut buf).unwrap(), None);
    assert_eq!(&buf[..], &[0x18, 0x01, 0xff, 0xff, 0xff, 0xff, 0xff, 0xff, 0xff, 0xff]);
    assert_eq!(dec.recv_index(), 1);
}

#[test]
fn largest_length_at_cursor_zero_waits() {
    let mut dec = ChunkIOProto::new();
    let mut buf = BytesMut::from(&[0x08u8, 0xff, 0xff, 0xff, 0xff, 0xff, 0xff, 0xff, 0xff, 1, 2][..]);
    assert_eq!(dec.decode(&mut buf).unwrap(), None);
    assert_eq!(buf.len(), 11);
}

#[test]
fn zero_padded_fields_decode() {
    // fields wider than needed still carry their big-endian value
    let mut dec = ChunkIOProto::new();
    let mut buf = BytesMut::from(&[0x24u8, 0x00, 0x00, 0x00, 0x00, 0x00, 0x02, 9, 8, 7][..]);
    assert_eq!(dec.decode(&mut buf).unwrap(), Some(vec![9, 8]));
    assert_eq!(&buf[..], &[7]);
    assert_eq!(dec.recv_index(), 2);
}

#[test]
fn decode_available_stops_at_fault() {
    let mut a = ChunkIOProto::new();
    let mut b = ChunkIOProto::new();
    let mut buf = BytesMut::new();
    a.encode(b"one".to_vec(), &mut buf).unwrap();
    a.encode(Vec::new(), &mut buf).unwrap();
    b.encode(b"stray".to_vec(), &mut buf).unwrap();
    a.encode(b"two".to_vec(), &mut buf).unwrap();
    let mut dec = ChunkIOProto::new();
    let (got, fault) = dec.decode_available(&mut buf);
    assert_eq!(got, vec![b"one".to_vec(), Vec::new()]);
    assert!(matches!(fault, Some(ChunkIOError::OutOfOrder)));
    assert_eq!(&buf[..3], &[0x01, 0x05, b's']);
    assert_eq!(dec.recv_index(), 3);
    assert_eq!(dec.send_index(), 0);
}

#[test]
fn decode_available_keeps_partial_frame() {
    let mut enc = ChunkIOProto::new();
    let whole = encode_chunks(&mut enc, &[b"ab".to_vec(), b"cdef".to_vec()]);
    let mut buf = BytesMut::from(&whole[..whole.len() - 1]);
    let mut dec = ChunkIOProto::new();
    let (got, fault) = dec.decode_available(&mut buf);
    assert_eq!(got, vec![b"ab".to_vec()]);
    assert!(fault.is_none());
    assert_eq!(&buf[..], &whole[4..whole.len() - 1]);
    assert_eq!(dec.recv_index(), 2);
}

#[test]
fn encode_chunks_matches_single_encodes() {
    let chunks = vec![b"A".to_vec(), Vec::new(), b"hello world".to_vec()];
    let mut one = ChunkIOProto::new();
    let mut each = BytesMut::from(&b"prefix"[..]);
    for c in &chunks {
        one.encode(c.clone(), &mut each).unwrap();
    }
    let mut all = ChunkIOProto::new();
    let mut out = BytesMut::from(&b"prefix"[..]);
    all.encode_chunks(&chunks, &mut out);
    assert_eq!(out, each);
    assert_eq!(&out[6..9], &[0x01, 0x01, 0x41]);
    assert_eq!(all.send_index(), 12);
    assert_eq!(all.recv_index(), 0);
}
