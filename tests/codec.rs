use srt_pacer::codec::{be_read, encode, encode_frame, split_chunks, ReassemblyBuffer};

fn payload(n: usize) -> Vec<u8> {
    (0..n).map(|i| (i * 7 + 3) as u8).collect()
}

fn wire_of(frames: &[Vec<u8>]) -> Vec<u8> {
    let mut out = Vec::new();
    for f in frames {
        out.extend_from_slice(&encode_frame(f));
    }
    out
}

#[test]
fn sizes_0_5_1316_fed_in_7_byte_chunks() {
    let frames = vec![payload(0), payload(5), payload(1316)];
    let mut stream = Vec::new();
    for f in &frames {
        for c in encode(f, 1316) {
            stream.extend_from_slice(&c);
        }
    }
    let mut buf = ReassemblyBuffer::new();
    let mut got = Vec::new();
    for piece in stream.chunks(7) {
        got.extend(buf.feed(piece));
    }
    let lens: Vec<usize> = got.iter().map(|f| f.len()).collect();
    assert_eq!(lens, vec![0, 5, 1316]);
    assert_eq!(got, frames);
    assert_eq!(buf.buffered(), 0);
    assert_eq!(buf.expected_len(), None);
}

#[test]
fn encode_frame_exact_bytes() {
    assert_eq!(encode_frame(&[9, 8, 7]), vec![0, 0, 0, 3, 9, 8, 7]);
    assert_eq!(encode_frame(&[]), vec![0, 0, 0, 0]);
    let big = payload(0x0102_0304 & 0xffff);
    let w = encode_frame(&big);
    assert_eq!(&w[..4], &[0x00, 0x00, 0x03, 0x04]);
}

#[test]
fn encode_splits_wire_by_mtu() {
    let chunks = encode(&[1, 2, 3], 3);
    assert_eq!(chunks, vec![vec![0, 0, 0], vec![3, 1, 2], vec![3]]);
    let chunks = encode(&[1, 2], 3);
    assert_eq!(chunks, vec![vec![0, 0, 0], vec![2, 1, 2]]);
    let chunks = encode(&[], 1316);
    assert_eq!(chunks, vec![vec![0, 0, 0, 0]]);
}

#[test]
fn split_chunks_edges() {
    assert!(split_chunks(&[], 4).is_empty());
    assert_eq!(split_chunks(&[1, 2, 3, 4], 2), vec![vec![1, 2], vec![3, 4]]);
    assert_eq!(split_chunks(&[1, 2, 3, 4, 5], 2), vec![vec![1, 2], vec![3, 4], vec![5]]);
    assert_eq!(split_chunks(&[1, 2, 3], 10), vec![vec![1, 2, 3]]);
}

#[test]
fn be_read_is_big_endian() {
    assert_eq!(be_read(&[0x12, 0x34, 0x56, 0x78], 0), 0x1234_5678);
    assert_eq!(be_read(&[0, 0xff, 0, 0, 1, 0], 1), 0xff00_0001);
}

#[test]
fn zero_length_frame_comes_out_once_prefix_is_read() {
    let mut buf = ReassemblyBuffer::new();
    assert!(buf.feed(&[0, 0]).is_empty());
    assert_eq!(buf.buffered(), 2);
    let got = buf.feed(&[0, 0]);
    assert_eq!(got, vec![Vec::<u8>::new()]);
    assert_eq!(buf.buffered(), 0);
}

#[test]
fn length_prefix_split_across_deliveries() {
    let mut buf = ReassemblyBuffer::new();
    assert!(buf.feed(&[0]).is_empty());
    assert!(buf.feed(&[0, 0]).is_empty());
    assert!(buf.feed(&[3, 10]).is_empty());
    assert_eq!(buf.expected_len(), Some(3));
    assert_eq!(buf.buffered(), 1);
    assert_eq!(buf.feed(&[11, 12, 0, 0]), vec![vec![10, 11, 12]]);
    assert_eq!(buf.expected_len(), None);
    assert_eq!(buf.buffered(), 2);
}

#[test]
fn round_trip_in_any_split_pattern() {
    let frames = vec![payload(3), payload(0), payload(40), payload(1), payload(0)];
    let stream = wire_of(&frames);
    for size in 1..=stream.len() + 1 {
        let mut buf = ReassemblyBuffer::new();
        let mut got = Vec::new();
        for piece in stream.chunks(size) {
            got.extend(buf.feed(piece));
        }
        assert_eq!(got, frames, "piece size {}", size);
        assert_eq!(buf.buffered(), 0);
    }
}

#[test]
fn split_at_every_boundary_matches_one_piece() {
    let frames = vec![payload(6), payload(0), payload(2)];
    let stream = wire_of(&frames);
    let mut whole = ReassemblyBuffer::new();
    let expected = whole.feed(&stream);
    assert_eq!(expected, frames);
    for cut in 0..=stream.len() {
        let mut buf = ReassemblyBuffer::new();
        let mut got = buf.feed(&stream[..cut]);
        got.extend(buf.feed(&stream[cut..]));
        assert_eq!(got, expected, "cut at {}", cut);
    }
    let mut bytewise = ReassemblyBuffer::new();
    let mut got = Vec::new();
    for b in &stream {
        got.extend(bytewise.feed(&[*b]));
    }
    assert_eq!(got, expected);
}

#[test]
fn incomplete_frame_stays_buffered() {
    let mut buf = ReassemblyBuffer::new();
    assert!(buf.feed(&[0, 0, 0, 5, 1, 2]).is_empty());
    assert_eq!(buf.expected_len(), Some(5));
    assert_eq!(buf.buffered(), 2);
}
