use boolean_ir::posting::Posting;
use boolean_ir::ring_buffer::{BiasedRingBuffer, RingBuffer, SIZE};

#[test]
fn creating() {
    let buffer = RingBuffer::<u64>::new();
    assert_eq!(buffer.count(), 0);
}

#[test]
fn push_back() {
    let mut buffer = RingBuffer::<u64>::new();
    buffer.push_back(10);
    assert_eq!(buffer.count(), 1);
}

#[test]
fn pop_back() {
    let mut buffer = RingBuffer::<u64>::new();
    buffer.push_back(10);
    assert_eq!(buffer.count(), 1);
    assert_eq!(buffer.pop_front(), Some(10));
    assert_eq!(buffer.count(), 0);
}

#[test]
fn pop_front() {
    let mut buffer = RingBuffer::<u64>::new();
    buffer.push_back(10);
    assert_eq!(buffer.count(), 1);
    assert_eq!(buffer.pop_front(), Some(10));
    assert_eq!(buffer.count(), 0);
}

#[test]
fn extended_front() {
    let mut buffer = RingBuffer::<u64>::new();
    buffer.push_back(5);
    buffer.push_back(10);
    buffer.push_back(15);
    // 5, 10, 15
    assert_eq!(buffer.count(), 3);
    assert_eq!(buffer.pop_front(), Some(5));
    assert_eq!(buffer.count(), 2);
    assert_eq!(buffer.pop_front(), Some(10));
    assert_eq!(buffer.count(), 1);
}

#[test]
fn full() {
    let mut buffer = RingBuffer::new();
    for i in 0..SIZE {
        buffer.push_back(i);
    }
    assert_eq!(buffer.count(), SIZE);
    assert_eq!(buffer.pop_front(), Some(0));
    assert_eq!(buffer.pop_front(), Some(1));
    assert_eq!(buffer.count(), SIZE - 2);
}

#[test]
fn empty() {
    let mut buffer = RingBuffer::<usize>::new();
    assert_eq!(buffer.pop_front(), None);
}

#[test]
fn flush() {
    let mut buffer = RingBuffer::new();
    buffer.push_back(10);
    buffer.push_back(9);
    assert_eq!(buffer.count(), 2);
    assert_eq!(buffer.pop_front(), Some(10));
    assert_eq!(buffer.count(), 1);
    buffer.flush();
    assert_eq!(buffer.pop_front(), None);
    assert!(buffer.is_empty());
}

#[test]
fn wraps_around_the_slots() {
    let mut buffer = RingBuffer::new();
    for i in 0..SIZE {
        buffer.push_back(i);
    }
    for i in 0..10 {
        assert_eq!(buffer.pop_front(), Some(i));
    }
    for i in SIZE..SIZE + 10 {
        buffer.push_back(i);
    }
    assert_eq!(buffer.count(), SIZE);
    assert_eq!(buffer.peek_front(), Some(&10));
    for i in 10..SIZE + 10 {
        assert_eq!(buffer.pop_front(), Some(i));
    }
    assert!(buffer.is_empty());
}

#[test]
fn biased_push_and_pop() {
    let mut buffer = BiasedRingBuffer::new();
    buffer.set_base(100);
    buffer.push_back_biased(Posting(5, vec![1, 2]));
    assert_eq!(buffer.peek_front_doc_id(), Some(105));
    buffer.set_base(103);
    let p = buffer.pop_front_biased().unwrap();
    assert_eq!(p.0, 2);
    assert_eq!(p.1, vec![1, 2]);
    assert!(buffer.pop_front_biased().is_none());
}
