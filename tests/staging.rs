use sparkles::codec::{be_to_u64, encode_batch, encode_dropped, le_to_u64, u64_to_be};
use sparkles::global_storage::{GlobalStorage, CLEANUP_BOTTOM_THRESHOLD, CLEANUP_THRESHOLD, FLUSH_THRESHOLD};
use sparkles::sender::sender_tick;

fn header_with_body_len(name: u8, body_len: u64) -> Vec<u8> {
    let mut h = vec![name, name, name];
    h.extend_from_slice(&body_len.to_le_bytes());
    h
}

#[test]
fn big_endian_bytes() {
    assert_eq!(u64_to_be(0x0102030405060708), vec![1, 2, 3, 4, 5, 6, 7, 8]);
    assert_eq!(be_to_u64(&[0, 0, 0, 0, 0, 0, 1, 2, 9], 1), 0x010209);
    assert_eq!(le_to_u64(&[7, 2, 1, 0, 0, 0, 0, 0, 0], 1), 0x0102);
}

#[test]
fn pushed_frame_is_at_the_end() {
    let mut store = GlobalStorage::new();
    let h = header_with_body_len(1, 3);
    store.push_buf(&h, &[10, 11, 12]);
    assert_eq!(store.occupied_len(), 8 + h.len() + 3);
    let (a, b) = store.try_take_buf(true).unwrap();
    let mut all = a;
    all.extend_from_slice(&b);
    let mut expected = (h.len() as u64).to_be_bytes().to_vec();
    expected.extend_from_slice(&h);
    expected.extend_from_slice(&[10, 11, 12]);
    assert_eq!(all, expected);
    assert_eq!(store.occupied_len(), 0);
}

#[test]
fn take_buf_respects_flush_threshold() {
    let mut store = GlobalStorage::new();
    assert!(store.try_take_buf(true).is_none());
    let h = header_with_body_len(2, 4);
    store.push_buf(&h, &[1, 2, 3, 4]);
    assert!(store.try_take_buf(false).is_none());
    assert_eq!(store.occupied_len(), 8 + h.len() + 4);
    let body = vec![5u8; FLUSH_THRESHOLD];
    let h2 = header_with_body_len(3, body.len() as u64);
    store.push_buf(&h2, &body);
    let (a, b) = store.try_take_buf(false).unwrap();
    assert_eq!(a.len() + b.len(), 8 + h.len() + 4 + 8 + h2.len() + body.len());
    assert!(store.try_take_buf(true).is_none());
}

#[test]
fn overflow_drops_oldest_packets_in_order() {
    let mut store = GlobalStorage::new();
    let body = vec![0u8; 1_000_000];
    let mut pushed: Vec<Vec<u8>> = Vec::new();
    let mut trimmed = false;
    for i in 0..600u32 {
        let h = header_with_body_len((i % 251) as u8, body.len() as u64);
        let before = store.occupied_len();
        store.push_buf(&h, &body);
        pushed.push(h);
        let after = store.occupied_len();
        if after < before {
            trimmed = true;
            assert!(after <= CLEANUP_BOTTOM_THRESHOLD);
        }
        assert!(after <= CLEANUP_THRESHOLD);
    }
    assert!(trimmed);
    let dropped = store.take_failed_pages();
    assert!(!dropped.is_empty());
    assert_eq!(&dropped[..], &pushed[..dropped.len()]);
    assert!(store.take_failed_pages().is_empty());
}

#[test]
fn wire_frames() {
    assert_eq!(encode_batch(&[7, 8], &[9]), vec![1, 0, 0, 0, 0, 0, 0, 0, 3, 7, 8, 9]);
    assert_eq!(encode_dropped(&[4, 5]), vec![2, 0, 0, 0, 0, 0, 0, 0, 2, 4, 5]);
}

#[test]
fn tick_sends_everything_when_finalizing() {
    let mut store = GlobalStorage::new();
    let h = header_with_body_len(4, 1);
    store.push_buf(&h, &[42]);
    let quiet = sender_tick(&mut store, false);
    assert!(quiet.bytes.is_empty());
    assert!(!quiet.stop);
    let last = sender_tick(&mut store, true);
    assert!(last.stop);
    let mut expected = vec![1u8];
    expected.extend_from_slice(&((8 + h.len() + 1) as u64).to_be_bytes());
    expected.extend_from_slice(&(h.len() as u64).to_be_bytes());
    expected.extend_from_slice(&h);
    expected.push(42);
    assert_eq!(last.bytes, expected);
    assert_eq!(store.occupied_len(), 0);
}
