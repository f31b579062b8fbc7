use ringbuffer::AllocRingBuffer;
use ringbuffer::NonPowerOfTwo;
use ringbuffer::PowerOfTwo;
use ringbuffer::RINGBUFFER_DEFAULT_CAPACITY;

#[test]
fn scenario_capacity_two() {
    let mut buffer = AllocRingBuffer::with_capacity(2);
    buffer.push(5);
    assert_eq!(buffer.get(-1), Some(&5));
    buffer.push(42);
    assert_eq!(buffer.peek(), Some(&5));
    assert!(buffer.is_full());
    buffer.push(1);
    assert_eq!(buffer.to_vec(), vec![42, 1]);
}

#[test]
fn capacity_conservation_concrete() {
    let mut b = AllocRingBuffer::<u32>::with_capacity(4);
    for i in 0..10u32 {
        b.push(i);
        assert!(b.len() <= b.capacity());
    }
    assert_eq!(b.len(), 4);
    b.push(11);
    assert_eq!(b.len(), 4);
}

#[test]
fn fifo_order_concrete() {
    let mut b = AllocRingBuffer::<u32>::with_capacity(8);
    for i in 1..=5u32 {
        b.push(i);
    }
    for i in 1..=5u32 {
        assert_eq!(b.dequeue(), Some(i));
    }
    assert_eq!(b.dequeue(), None);
    assert!(b.is_empty());
}

#[test]
fn negative_index_equivalence_concrete() {
    let mut b = AllocRingBuffer::<u32>::with_capacity(4);
    b.push(10);
    b.push(20);
    b.push(30);
    assert_eq!(b.get(-1), b.back());
    assert_eq!(b.get(0), b.peek());
    assert_eq!(b.get(-1), Some(&30));
    assert_eq!(b.get(0), Some(&10));
    assert_eq!(b.get(-3), Some(&10));
    assert_eq!(b.get(2), Some(&30));
    assert_eq!(b.get(3), None);
    assert_eq!(b.get(-4), None);
}

#[test]
fn clear_resets_cleanly() {
    let mut b = AllocRingBuffer::<u32>::with_capacity(4);
    for i in 0..7u32 {
        b.push(i);
    }
    b.clear();
    assert!(b.is_empty());
    assert_eq!(b.len(), 0);
    assert_eq!(b.capacity(), 4);
    b.push(99);
    assert_eq!(b.get(0), Some(&99));
    assert_eq!(b.len(), 1);
}

#[test]
fn clone_independence() {
    let mut original: AllocRingBuffer<u32, NonPowerOfTwo> =
        AllocRingBuffer::with_capacity_non_power_of_two(3);
    original.push(1);
    original.push(2);
    let mut copy = original.clone();
    assert_eq!(copy.capacity(), 3);
    assert_eq!(copy.to_vec(), vec![1, 2]);
    copy.push(7);
    copy.push(8);
    *copy.index_mut(0) = 100;
    copy.dequeue();
    assert_eq!(original.to_vec(), vec![1, 2]);
    assert_eq!(original.len(), 2);
}

#[test]
fn fill_with_fills_every_slot() {
    let mut b = AllocRingBuffer::<u32>::with_capacity(4);
    b.push(3);
    b.fill_with(|| 7);
    assert!(b.is_full());
    assert_eq!(b.to_vec(), vec![7, 7, 7, 7]);
}

#[test]
fn index_mut_replaces_in_place() {
    let mut b = AllocRingBuffer::<u32>::with_capacity(2);
    b.push(1);
    b.push(2);
    b.push(3);
    *b.index_mut(-1) = 9;
    assert_eq!(b.to_vec(), vec![2, 9]);
}

#[test]
fn drain_empties_oldest_first() {
    let mut b: AllocRingBuffer<u32, NonPowerOfTwo> =
        AllocRingBuffer::with_capacity_non_power_of_two(3);
    for i in 0..5u32 {
        b.push(i);
    }
    let drained = b.drain();
    assert_eq!(drained, vec![2, 3, 4]);
    assert!(b.is_empty());
    assert_eq!(b.capacity(), 3);
}

#[test]
fn empty_reads_return_nothing() {
    let mut b = AllocRingBuffer::<u32>::with_capacity(2);
    assert_eq!(b.peek(), None);
    assert_eq!(b.back(), None);
    assert_eq!(b.get(0), None);
    assert_eq!(b.get(-1), None);
    assert_eq!(b.dequeue(), None);
}

#[test]
fn smallest_exponent_gives_capacity_one() {
    let mut b = AllocRingBuffer::<u8, PowerOfTwo>::with_capacity_power_of_2(0);
    assert_eq!(b.capacity(), 1);
    b.push(1);
    b.push(2);
    assert_eq!(b.to_vec(), vec![2]);
}

#[test]
fn from_iter_uses_default_capacity() {
    let b = AllocRingBuffer::<u32, PowerOfTwo>::from_iter(vec![1, 2, 3]);
    assert_eq!(b.capacity(), RINGBUFFER_DEFAULT_CAPACITY);
    assert_eq!(b.to_vec(), vec![1, 2, 3]);
}

#[test]
fn enqueue_is_push() {
    let mut b = AllocRingBuffer::<u32>::with_capacity(2);
    b.enqueue(5);
    b.enqueue(6);
    b.enqueue(7);
    assert_eq!(b.to_vec(), vec![6, 7]);
}

#[test]
fn get_mut_in_and_out_of_range() {
    let mut b = AllocRingBuffer::<u32>::with_capacity(4);
    b.push(1);
    b.push(2);
    if let Some(x) = b.get_mut(1) {
        *x = 20;
    } else {
        panic!("index 1 should be live");
    }
    assert_eq!(b.to_vec(), vec![1, 20]);
    assert!(b.get_mut(2).is_none());
    assert!(b.get_mut(-3).is_none());
}

#[test]
fn structural_equality() {
    let mut a = AllocRingBuffer::<u32>::with_capacity(4);
    let mut b = AllocRingBuffer::<u32>::with_capacity(4);
    a.push(1);
    a.push(2);
    b.push(1);
    b.push(2);
    assert!(a.eq(&b));
    b.push(3);
    assert!(!a.eq(&b));
    let c = AllocRingBuffer::<u32>::with_capacity(8);
    let d = AllocRingBuffer::<u32>::with_capacity(4);
    assert!(!c.eq(&d));
}
