use audiomesh::audio::{AudioData, PeekState, RingBuffer};

fn chunk(client_id: u16, pos: u64, samples: Vec<i16>) -> AudioData {
    AudioData { client_id, pos, data: samples }
}

#[test]
fn ring_wrap() {
    // Fill one full buffer, read half, append past the wrap, read the rest.
    let mut rb = RingBuffer::new(8, 0, u32::MAX);
    rb.store_data(chunk(1, 1, vec![1, 2, 3, 4, 5, 6, 7, 8]), 0).unwrap();
    assert_eq!(rb.get_next(4), Some(vec![1, 2, 3, 4]));
    rb.store_data(chunk(1, 9, vec![9, 10, 11, 12]), 0).unwrap();
    assert_eq!(rb.get_next(4), Some(vec![5, 6, 7, 8]));
    assert_eq!(rb.get_next(4), Some(vec![9, 10, 11, 12]));
}

#[test]
fn zero_on_read() {
    let mut rb = RingBuffer::new(4, 0, u32::MAX);
    rb.store_data(chunk(1, 1, vec![10, 20, 30, 40]), 0).unwrap();
    assert_eq!(rb.get_next(2), Some(vec![10, 20]));
    assert_eq!(rb.get_next(2), Some(vec![30, 40]));
    // Reader started, nothing ahead: momentarily behind.
    assert_eq!(rb.peek(2, 0), PeekState::Behind);
    assert_eq!(rb.get_next(2), None);
}

#[test]
fn out_of_order_accept() {
    let mut rb = RingBuffer::new(16, 0, u32::MAX);
    rb.store_data(chunk(1, 5, vec![50, 51, 52, 53]), 0).unwrap();
    rb.store_data(chunk(1, 1, vec![10, 11, 12, 13]), 0).unwrap();
    assert_eq!(rb.get_next(8), Some(vec![10, 11, 12, 13, 50, 51, 52, 53]));
}

#[test]
fn idle_detection() {
    let mut rb = RingBuffer::new(8, 0, 100);
    rb.store_data(chunk(1, 1, vec![7]), 0).unwrap();
    // Within the threshold the stored sample is available.
    assert_eq!(rb.peek(1, 100), PeekState::Avail(1));
    // 150 ms without a store exceeds the 100 ms threshold.
    assert_eq!(rb.peek(1, 150), PeekState::Idle);
    // A new store restarts the idle timer.
    rb.store_data(chunk(1, 2, vec![8]), 150).unwrap();
    assert_eq!(rb.peek(1, 200), PeekState::Avail(2));
}

#[test]
fn empty_buffer_ignored() {
    let rb = RingBuffer::new(8, 2, u32::MAX);
    assert_eq!(rb.peek(1, 0), PeekState::Ignore);
}

#[test]
fn spare_gates_first_read() {
    let mut rb = RingBuffer::new(16, 6, u32::MAX);
    rb.store_data(chunk(1, 1, vec![1, 2, 3, 4]), 0).unwrap();
    // Only 4 samples stored while 6 must be kept in reserve.
    assert_eq!(rb.peek(2, 0), PeekState::Ignore);
    assert_eq!(rb.get_next(2), None);
    rb.store_data(chunk(1, 5, vec![5, 6, 7, 8]), 0).unwrap();
    // 8 stored now cover the reserve of 6.
    assert_eq!(rb.peek(2, 0), PeekState::Avail(8));
    assert_eq!(rb.get_next(2), Some(vec![1, 2]));
}

#[test]
fn stale_store_is_no_op() {
    let mut rb = RingBuffer::new(8, 0, u32::MAX);
    rb.store_data(chunk(1, 1, vec![1, 2, 3, 4]), 0).unwrap();
    assert_eq!(rb.get_next(2), Some(vec![1, 2]));
    // Positions 1 and 2 lie entirely behind the cursor at 3.
    let r = rb.store_data(chunk(1, 1, vec![91, 92]), 0).unwrap();
    assert_eq!(r, None);
    // The buffer is untouched: the next read still sees the old samples.
    assert_eq!(rb.get_next(2), Some(vec![3, 4]));
}

#[test]
fn crossing_store_rejected() {
    let mut rb = RingBuffer::new(8, 0, u32::MAX);
    rb.store_data(chunk(1, 1, vec![1, 2, 3, 4]), 0).unwrap();
    // Positions 3..7 overlap the stored maximum 4 without replacing it wholly.
    assert!(rb.store_data(chunk(1, 3, vec![30, 40, 50, 60]), 0).is_err());
    // A chunk that replaces the tail from above the maximum is fine.
    assert!(rb.store_data(chunk(1, 5, vec![50, 60]), 0).is_ok());
    assert_eq!(rb.get_next(6), Some(vec![1, 2, 3, 4, 50, 60]));
}

#[test]
fn overrun_before_reader_advances_min() {
    let mut rb = RingBuffer::new(8, 0, u32::MAX);
    rb.store_data(chunk(1, 1, vec![1, 2, 3, 4]), 0).unwrap();
    // Jump far ahead: the stored span would exceed one buffer length, so
    // min moves up to max - len + 1 = 13.
    rb.store_data(chunk(1, 17, vec![17, 18, 19, 20]), 0).unwrap();
    // Cells of positions 13..16 were never written after the jump; reading
    // from 13 yields zeros for them, then the fresh samples.
    assert_eq!(rb.get_next(8), Some(vec![0, 0, 0, 0, 17, 18, 19, 20]));
}

#[test]
fn consumed_cells_read_as_silence_after_requeue() {
    let mut rb = RingBuffer::new(4, 0, u32::MAX);
    rb.store_data(chunk(1, 1, vec![5, 6, 7, 8]), 0).unwrap();
    assert_eq!(rb.get_next(4), Some(vec![5, 6, 7, 8]));
    // Store two samples beyond a gap: positions 7 and 8. Positions 5 and 6
    // were never stored, and their cells were zeroed on read.
    rb.store_data(chunk(1, 7, vec![70, 80]), 0).unwrap();
    assert_eq!(rb.get_next(4), Some(vec![0, 0, 70, 80]));
}
