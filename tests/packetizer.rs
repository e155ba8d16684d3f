use srt_pacer::codec::encode_frame;
use srt_pacer::packetizer::Packetizer;
use srt_pacer::reassembler::Reassembler;

#[test]
fn submit_paces_by_media_timestamp() {
    let mut p = Packetizer::new(1316);
    assert_eq!(p.mtu(), 1316);
    assert_eq!(p.submit(vec![1], 1000, 50).deadline, 50);
    assert_eq!(p.submit(vec![2], 1010, 51).deadline, 60);
    let s = p.submit(vec![3], 1005, 52);
    assert_eq!(s.deadline, 60);
    assert_eq!(s.payload, vec![3]);
    assert_eq!(p.submit(vec![4], 1030, 53).deadline, 80);
    p.reset();
    assert_eq!(p.submit(vec![5], 0, 900).deadline, 900);
}

#[test]
fn release_stamps_and_cuts_wire_encoding() {
    let mut p = Packetizer::new(4);
    let s = p.submit(vec![10, 20, 30, 40, 50], 0, 7);
    let chunks = p.release(&s, 9);
    assert_eq!(chunks.len(), 3);
    let data: Vec<Vec<u8>> = chunks.iter().map(|c| c.data.to_vec()).collect();
    assert_eq!(data, vec![vec![0, 0, 0, 5], vec![10, 20, 30, 40], vec![50]]);
    assert!(chunks.iter().all(|c| c.released_at == 9));
    let joined: Vec<u8> = data.concat();
    assert_eq!(joined, encode_frame(&[10, 20, 30, 40, 50]));
}

#[test]
fn packetizer_to_reassembler() {
    let mut p = Packetizer::new(7);
    let mut r = Reassembler::new();
    let frames = vec![vec![], vec![1u8; 5], (0..200u32).map(|i| i as u8).collect::<Vec<u8>>()];
    let mut got = Vec::new();
    for (i, f) in frames.iter().enumerate() {
        let s = p.submit(f.clone(), i as i64 * 33, 0);
        for c in p.release(&s, s.deadline) {
            got.extend(r.process(&c.data));
        }
    }
    assert_eq!(got, frames);
    assert_eq!(r.buffered(), 0);
}

#[test]
fn reassembler_reset_discards_partial_frame() {
    let mut r = Reassembler::new();
    assert!(r.process(&[0, 0, 0, 9, 1, 2]).is_empty());
    assert_eq!(r.buffered(), 2);
    r.reset();
    assert_eq!(r.buffered(), 0);
    assert_eq!(r.process(&[0, 0, 0, 1, 42]), vec![vec![42]]);
}
