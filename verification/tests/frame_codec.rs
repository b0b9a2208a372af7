use recordlog::frame::{append_record_bytes, checksum, decode_segment, BLOCK_LEN, HEADER_LEN};

fn records_of(seg: &[u8]) -> (Vec<Vec<u8>>, bool) {
    let (recs, clean) = decode_segment(seg);
    (recs.into_iter().map(|p| p.0).collect(), clean)
}

#[test]
fn frame_single_record() {
    let mut seg: Vec<u8> = Vec::new();
    append_record_bytes(&mut seg, b"hello");
    assert_eq!(seg.len(), HEADER_LEN + 5);
    let (recs, clean) = records_of(&seg);
    assert!(clean);
    assert_eq!(recs, vec![b"hello".to_vec()]);
}

#[test]
fn frame_empty_record() {
    let mut seg: Vec<u8> = Vec::new();
    append_record_bytes(&mut seg, b"");
    let (recs, clean) = records_of(&seg);
    assert!(clean);
    assert_eq!(recs, vec![Vec::new()]);
}

#[test]
fn frame_several_records() {
    let mut seg: Vec<u8> = Vec::new();
    append_record_bytes(&mut seg, b"one");
    append_record_bytes(&mut seg, b"two-two");
    append_record_bytes(&mut seg, b"");
    let (recs, clean) = records_of(&seg);
    assert!(clean);
    assert_eq!(recs, vec![b"one".to_vec(), b"two-two".to_vec(), Vec::new()]);
}

#[test]
fn frame_record_spanning_blocks() {
    // far larger than one block: split into first/middle/last frames
    let big: Vec<u8> = (0..100_000u32).map(|i| (i % 251) as u8).collect();
    let mut seg: Vec<u8> = Vec::new();
    append_record_bytes(&mut seg, &big);
    assert!(seg.len() > 3 * BLOCK_LEN);
    let (recs, clean) = records_of(&seg);
    assert!(clean);
    assert_eq!(recs.len(), 1);
    assert_eq!(recs[0], big);
}

#[test]
fn frame_fills_block_then_splits() {
    let mut seg: Vec<u8> = Vec::new();
    append_record_bytes(&mut seg, &vec![7u8; 32752]);
    // 9 bytes of room are left: the next record starts here and spills over
    append_record_bytes(&mut seg, &vec![8u8; 10]);
    let (recs, clean) = records_of(&seg);
    assert!(clean);
    assert_eq!(recs, vec![vec![7u8; 32752], vec![8u8; 10]]);
}

#[test]
fn frame_pads_block_when_no_room_for_header() {
    let mut seg: Vec<u8> = Vec::new();
    append_record_bytes(&mut seg, &vec![7u8; 32758]);
    // only 3 bytes of room are left: the writer pads to the block boundary
    append_record_bytes(&mut seg, b"xy");
    assert_eq!(seg.len(), BLOCK_LEN + HEADER_LEN + 2);
    let (recs, clean) = records_of(&seg);
    assert!(clean);
    assert_eq!(recs, vec![vec![7u8; 32758], b"xy".to_vec()]);
}

#[test]
fn frame_payload_bit_flip_detected() {
    let mut seg: Vec<u8> = Vec::new();
    append_record_bytes(&mut seg, b"aaa");
    append_record_bytes(&mut seg, b"bbbb");
    // second frame starts at 10; its payload occupies bytes 17..21
    for bit in 0..8 {
        for off in 17..21 {
            let mut bad = seg.clone();
            bad[off] ^= 1 << bit;
            let (recs, clean) = records_of(&bad);
            assert!(!clean);
            assert_eq!(recs, vec![b"aaa".to_vec()]);
        }
    }
}

#[test]
fn frame_checksum_byte_corruption_detected() {
    let mut seg: Vec<u8> = Vec::new();
    append_record_bytes(&mut seg, b"aaa");
    append_record_bytes(&mut seg, b"bbbb");
    // second frame starts at 10; its stored checksum occupies bytes 13..17
    let mut bad = seg.clone();
    bad[13] ^= 0xFF;
    let (recs, clean) = records_of(&bad);
    assert!(!clean);
    assert_eq!(recs, vec![b"aaa".to_vec()]);
}

#[test]
fn frame_interrupted_write_keeps_earlier_records() {
    let mut seg: Vec<u8> = Vec::new();
    append_record_bytes(&mut seg, b"first");
    append_record_bytes(&mut seg, b"second");
    // a partial trailing frame, as after a crash mid-write
    seg.truncate(seg.len() - 3);
    let (recs, clean) = records_of(&seg);
    assert!(!clean);
    assert_eq!(recs, vec![b"first".to_vec()]);
}

#[test]
fn frame_checksum_is_byte_sum() {
    assert_eq!(checksum(b""), 0);
    assert_eq!(checksum(&[1, 2, 3]), 6);
    assert_eq!(checksum(&[255u8; 100]), 255 * 100);
}

#[test]
fn frame_unknown_kind_stops_decoding() {
    let mut seg: Vec<u8> = Vec::new();
    append_record_bytes(&mut seg, b"good");
    append_record_bytes(&mut seg, b"bad");
    let mut broken = seg.clone();
    broken[11] = 9; // second frame's kind byte: not a frame kind
    let (recs, clean) = records_of(&broken);
    assert!(!clean);
    assert_eq!(recs, vec![b"good".to_vec()]);
}

#[test]
fn frame_flip_in_first_record_discards_everything_after() {
    let mut seg: Vec<u8> = Vec::new();
    append_record_bytes(&mut seg, b"aaa");
    append_record_bytes(&mut seg, b"bbbb");
    append_record_bytes(&mut seg, b"cc");
    // first frame's payload occupies bytes 7..10
    let mut bad = seg.clone();
    bad[8] ^= 0x01;
    let (recs, clean) = records_of(&bad);
    assert!(!clean);
    assert_eq!(recs, Vec::<Vec<u8>>::new());
}

#[test]
fn frame_flip_in_middle_record_keeps_only_earlier_ones() {
    let mut seg: Vec<u8> = Vec::new();
    append_record_bytes(&mut seg, b"aaa");
    append_record_bytes(&mut seg, b"bbbb");
    append_record_bytes(&mut seg, b"cc");
    // the second frame starts at 10: checksum bytes 13..17, payload 17..21
    for off in [13usize, 17] {
        let mut bad = seg.clone();
        bad[off] ^= 0x80;
        let (recs, clean) = records_of(&bad);
        assert!(!clean);
        assert_eq!(recs, vec![b"aaa".to_vec()]);
    }
}
