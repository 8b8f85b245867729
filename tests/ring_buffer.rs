use audio_ringbuffer::{CapacityError, Indexing, RingBuffer};

fn exact(capacity: usize) -> RingBuffer<f32> {
    match RingBuffer::with_capacity(capacity, Indexing::Exact, 0.0f32) {
        Ok(b) => b,
        Err(e) => panic!("could not make a buffer: {:?}", e),
    }
}

#[test]
fn exact_capacity_fill_and_drain() {
    let mut b = exact(4);
    assert!(b.is_empty());
    for v in [1.0f32, 2.0, 3.0, 4.0] {
        assert!(b.push(v));
    }
    assert!(b.is_full());
    assert!(!b.push(5.0));
    assert_eq!(b.read_pos(), 0);
    assert_eq!(b.write_pos(), 0);
    assert_eq!(b.next(), Some(1.0));
    assert_eq!(b.next(), Some(2.0));
    assert_eq!(b.next(), Some(3.0));
    assert_eq!(b.next(), Some(4.0));
    assert!(b.is_empty());
    assert_eq!(b.next(), None);
}

#[test]
fn power_of_two_next_block_after_partial_read() {
    let mut b = RingBuffer::new(5, 0.0f32);
    assert_eq!(b.size(), 8);
    for v in [1.0f32, 2.0, 3.0, 4.0, 5.0, 6.0] {
        assert!(b.push(v));
    }
    assert_eq!(b.next(), Some(1.0));
    assert_eq!(b.next(), Some(2.0));
    assert_eq!(b.next_block(4), Some(vec![3.0f32, 4.0, 5.0, 6.0]));
    assert_eq!(b.read_pos(), 6);
    assert_eq!(b.next_block(4), None);
    assert_eq!(b.read_pos(), 6);
}

#[test]
fn power_of_two_next_block_that_would_cross_the_writer() {
    let mut b = RingBuffer::new(5, 0.0f32);
    for v in [1.0f32, 2.0, 3.0, 4.0, 5.0, 6.0] {
        assert!(b.push(v));
    }
    assert_eq!(b.next(), Some(1.0));
    assert_eq!(b.next(), Some(2.0));
    assert_eq!(b.next(), Some(3.0));
    assert_eq!(b.next_block(4), None);
    assert_eq!(b.read_pos(), 3);
    assert_eq!(b.write_pos(), 6);
    assert_eq!(b.next_block(3), Some(vec![4.0f32, 5.0, 6.0]));
}

#[test]
fn capacity_rounds_up_to_power_of_two() {
    assert_eq!(RingBuffer::new(0, 0.0f32).size(), 1);
    assert_eq!(RingBuffer::new(1, 0.0f32).size(), 1);
    assert_eq!(RingBuffer::new(100, 0.0f32).size(), 128);
    assert_eq!(RingBuffer::new(128, 0.0f32).size(), 128);
    assert_eq!(RingBuffer::new(129, 0.0f32).size(), 256);
}

#[test]
fn exact_capacity_is_kept() {
    assert_eq!(exact(5).size(), 5);
    assert_eq!(exact(1).size(), 1);
}

#[test]
fn zero_capacity_is_refused() {
    let r = RingBuffer::with_capacity(0, Indexing::Exact, 0.0f32);
    assert!(matches!(r, Err(CapacityError::Zero)));
    let r = RingBuffer::with_capacity(0, Indexing::PowerOfTwo, 0.0f32);
    assert!(matches!(r, Err(CapacityError::Zero)));
}

#[test]
fn too_large_power_of_two_is_refused() {
    let r = RingBuffer::with_capacity(usize::MAX, Indexing::PowerOfTwo, 0u8);
    assert!(matches!(r, Err(CapacityError::TooLarge)));
}

#[test]
fn with_capacity_power_of_two_rounds() {
    match RingBuffer::with_capacity(5, Indexing::PowerOfTwo, 0.0f32) {
        Ok(b) => assert_eq!(b.size(), 8),
        Err(e) => panic!("unexpected {:?}", e),
    }
}

#[test]
fn fresh_storage_holds_fill() {
    let b = RingBuffer::new(4, 0.5f32);
    for i in 0..4 {
        assert_eq!(b.get(i), Some(0.5));
    }
}

#[test]
fn push_refused_once_full_then_taken_after_a_read() {
    let mut b = exact(3);
    assert!(b.push(1.0));
    assert!(b.push(2.0));
    assert!(!b.is_full());
    assert!(b.push(3.0));
    assert!(b.is_full());
    assert!(!b.push(4.0));
    assert_eq!(b.read_pos(), 0);
    assert_eq!(b.write_pos(), 0);
    assert_eq!(b.get(0), Some(1.0));
    assert_eq!(b.next(), Some(1.0));
    assert!(!b.is_full());
    assert!(b.push(4.0));
    assert_eq!(b.next(), Some(2.0));
    assert_eq!(b.next(), Some(3.0));
    assert_eq!(b.next(), Some(4.0));
    assert_eq!(b.next(), None);
}

#[test]
fn round_trip_in_order() {
    let mut b = RingBuffer::new(8, 0.0f32);
    let values = [0.25f32, -1.0, 3.5, 7.0, 0.0, 2.0];
    for v in values {
        assert!(b.push(v));
    }
    for v in values {
        assert_eq!(b.next(), Some(v));
    }
    assert_eq!(b.next(), None);
}

#[test]
fn overwrite_keeps_the_newest_samples() {
    let mut b = exact(4);
    b.set_overwrite(true);
    for v in [1.0f32, 2.0, 3.0, 4.0, 5.0] {
        assert!(b.push(v));
    }
    assert!(!b.is_full());
    assert_eq!(b.next(), Some(3.0));
    assert_eq!(b.next(), Some(4.0));
    assert_eq!(b.next(), Some(5.0));
    assert_eq!(b.next(), None);
}

#[test]
fn overwrite_on_a_full_buffer_still_refuses() {
    let mut b = exact(2);
    assert!(b.push(1.0));
    assert!(b.push(2.0));
    assert!(b.is_full());
    b.set_overwrite(true);
    assert!(!b.push(3.0));
    assert_eq!(b.next(), Some(1.0));
    assert!(b.push(3.0));
    assert_eq!(b.next(), Some(3.0));
    assert_eq!(b.next(), None);
}

#[test]
fn overwrite_with_one_slot_keeps_nothing() {
    let mut b = exact(1);
    b.set_overwrite(true);
    assert!(b.push(1.0));
    assert!(b.push(2.0));
    assert!(b.is_empty());
    assert_eq!(b.next(), None);
}

#[test]
fn push_block_stops_at_the_first_refusal() {
    let mut b = exact(4);
    assert!(b.push(9.0));
    assert!(!b.push_block(vec![1.0f32, 2.0, 3.0, 4.0, 5.0]));
    assert!(b.is_full());
    assert_eq!(b.next(), Some(9.0));
    assert_eq!(b.next(), Some(1.0));
    assert_eq!(b.next(), Some(2.0));
    assert_eq!(b.next(), Some(3.0));
    assert_eq!(b.next(), None);
}

#[test]
fn push_block_that_exactly_fills_succeeds() {
    let mut b = exact(3);
    assert!(b.push_block(vec![1.0f32, 2.0, 3.0]));
    assert!(b.is_full());
    assert!(!b.push_block(vec![4.0f32]));
    assert!(b.push_block(Vec::new()));
}

#[test]
fn push_block_wraps_round_the_storage() {
    let mut b = exact(4);
    assert!(b.push_block(vec![1.0f32, 2.0, 3.0]));
    assert_eq!(b.next_block(3), Some(vec![1.0f32, 2.0, 3.0]));
    assert_eq!(b.write_pos(), 3);
    assert!(b.push_block(vec![4.0f32, 5.0, 6.0]));
    assert_eq!(b.get(3), Some(4.0));
    assert_eq!(b.get(0), Some(5.0));
    assert_eq!(b.get(1), Some(6.0));
    assert_eq!(b.write_pos(), 2);
}

#[test]
fn next_block_wraps_round_the_storage() {
    let mut b = RingBuffer::new(8, 0.0f32);
    assert!(b.push_block(vec![0.0f32; 6]));
    assert_eq!(b.next_block(6), Some(vec![0.0f32; 6]));
    assert!(b.push_block(vec![1.0f32, 2.0, 3.0, 4.0, 5.0]));
    assert_eq!(b.read_pos(), 6);
    assert_eq!(b.next_block(5), Some(vec![1.0f32, 2.0, 3.0, 4.0, 5.0]));
    assert_eq!(b.read_pos(), 3);
    assert!(b.is_empty());
}

#[test]
fn next_block_on_a_full_buffer_is_refused() {
    let mut b = exact(4);
    assert!(b.push_block(vec![1.0f32, 2.0, 3.0, 4.0]));
    assert_eq!(b.next_block(2), None);
    assert!(b.is_full());
    assert_eq!(b.next_block(0), Some(Vec::new()));
    assert_eq!(b.next(), Some(1.0));
    assert_eq!(b.next_block(3), Some(vec![2.0f32, 3.0, 4.0]));
}

#[test]
fn next_block_longer_than_capacity_is_refused() {
    let mut b = exact(4);
    assert!(b.push(1.0));
    assert_eq!(b.next_block(9), None);
    assert_eq!(b.read_pos(), 0);
}

#[test]
fn get_reads_raw_slots_and_changes_nothing() {
    let mut b = exact(3);
    assert!(b.push(7.0));
    assert!(b.push(8.0));
    assert_eq!(b.next(), Some(7.0));
    let (r, w, f) = (b.read_pos(), b.write_pos(), b.is_full());
    assert_eq!(b.get(0), Some(7.0));
    assert_eq!(b.get(1), Some(8.0));
    assert_eq!(b.get(2), Some(0.0));
    assert_eq!(b.get(3), None);
    assert_eq!((b.read_pos(), b.write_pos(), b.is_full()), (r, w, f));
}

#[test]
fn integer_samples_work_too() {
    let mut b = RingBuffer::new(2, 0i16);
    assert!(b.push(-3));
    assert!(b.push(4));
    assert!(!b.push(5));
    assert_eq!(b.next_block(0), Some(Vec::new()));
    assert_eq!(b.next(), Some(-3));
    assert_eq!(b.next(), Some(4));
}
