use sparkles::receiver::{frame_kind, split_packets, FrameKind};

fn frame(header: &[u8], body: &[u8]) -> Vec<u8> {
    let mut f = (header.len() as u64).to_be_bytes().to_vec();
    f.extend_from_slice(header);
    f.extend_from_slice(body);
    f
}

fn header(tag: u8, body_len: u64) -> Vec<u8> {
    let mut h = vec![tag; 5];
    h.extend_from_slice(&body_len.to_le_bytes());
    h
}

#[test]
fn frame_tags() {
    assert_eq!(frame_kind(1), Some(FrameKind::Batch));
    assert_eq!(frame_kind(2), Some(FrameKind::Dropped));
    assert_eq!(frame_kind(0), None);
    assert_eq!(frame_kind(3), None);
}

#[test]
fn batch_splits_into_packets() {
    let h1 = header(1, 3);
    let h2 = header(2, 0);
    let mut payload = frame(&h1, &[7, 8, 9]);
    payload.extend(frame(&h2, &[]));
    let packets = split_packets(&payload).unwrap();
    assert_eq!(packets, vec![(h1, vec![7, 8, 9]), (h2, vec![])]);
    assert_eq!(split_packets(&[]), Some(vec![]));
}

#[test]
fn malformed_batches_are_refused() {
    let h = header(1, 3);
    let whole = frame(&h, &[7, 8, 9]);
    assert_eq!(split_packets(&whole[..whole.len() - 1]), None);
    assert_eq!(split_packets(&whole[..5]), None);
    let short_header = frame(&[1, 2, 3], &[]);
    assert_eq!(split_packets(&short_header), None);
}
