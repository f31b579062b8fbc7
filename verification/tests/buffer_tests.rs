use ringbuffer::AllocRingBuffer;
use ringbuffer::RingbufferSize;
use ringbuffer::RINGBUFFER_DEFAULT_CAPACITY;

fn clone_helper<SIZE: RingbufferSize>(
    a: &AllocRingBuffer<i32, SIZE>,
) -> AllocRingBuffer<i32, SIZE> {
    a.clone()
}

// just test that this compiles
#[test]
fn test_generic_clone() {
    let _ = clone_helper(&AllocRingBuffer::with_capacity(2));
    let _ = clone_helper(&AllocRingBuffer::with_capacity_non_power_of_two(5));
}

#[test]
fn test_not_power_of_two() {
    let mut rb = AllocRingBuffer::with_capacity_non_power_of_two(10);
    let num_vals: usize = 1000;

    // recycle the ringbuffer a bunch of times to see if none of the
    // logic messes up
    for _ in 0..100 {
        for i in 0..num_vals {
            rb.enqueue(i);
        }
        assert!(rb.is_full());

        for i in 0..10 {
            assert_eq!(Some(i + num_vals - rb.capacity()), rb.dequeue())
        }

        assert!(rb.is_empty())
    }
}

#[test]
fn test_default() {
    let b: AllocRingBuffer<u32> = AllocRingBuffer::default();
    assert_eq!(RINGBUFFER_DEFAULT_CAPACITY, b.capacity());
    assert!(b.is_empty());
    assert_eq!(0, b.len());
    assert_eq!(Vec::<u32>::new(), b.to_vec());
}

#[test]
fn test_default_capacity_constant() {
    // This is to prevent accidentally changing it.
    assert_eq!(RINGBUFFER_DEFAULT_CAPACITY, 1024)
}

#[test]
fn test_with_capacity_power_of_two() {
    let b = AllocRingBuffer::<i32>::with_capacity_power_of_2(2);
    assert_eq!(b.capacity(), 4);
}

#[test]
fn test_extend() {
    let mut buf = AllocRingBuffer::<u8>::with_capacity(4);
    (0..4).for_each(|_| buf.push(0));

    let new_data = vec![0, 1, 2];
    buf.extend(new_data);

    let expected = [0, 0, 1, 2];

    for i in 0..4 {
        let actual = *buf.index(i as isize);
        let expected = expected[i];
        assert_eq!(actual, expected);
    }
}

#[test]
fn test_extend_with_overflow() {
    let mut buf = AllocRingBuffer::<u8>::with_capacity(8);
    (0..8).for_each(|_| buf.push(0));

    let new_data = vec![0, 1, 2, 3, 4, 5, 6, 7, 8, 9];
    buf.extend(new_data);

    let expected = [2, 3, 4, 5, 6, 7, 8, 9];

    for i in 0..8 {
        let actual = *buf.index(i as isize);
        let expected = expected[i];
        assert_eq!(actual, expected);
    }
}

#[test]
fn test_conversions() {
    // from a borrowed slice
    let data: &[i32] = &[1, 2, 3, 4];
    let buf = AllocRingBuffer::from_slice(data);
    assert_eq!(buf.capacity(), 4);
    assert_eq!(buf.to_vec(), vec![1, 2, 3, 4]);

    // from a borrowed array
    let arr = [1, 2, 3, 4];
    let buf = AllocRingBuffer::from_slice(&arr);
    assert_eq!(buf.capacity(), 4);
    assert_eq!(buf.to_vec(), vec![1, 2, 3, 4]);

    // from an owned sequence
    let buf = AllocRingBuffer::from_vec(vec![1, 2, 3, 4]);
    assert_eq!(buf.capacity(), 4);
    assert_eq!(buf.to_vec(), vec![1, 2, 3, 4]);
}
