use ublox::ring::CircularBuffer;

#[test]
fn cb_push_works() {
    let mut buf = CircularBuffer::new(vec![0u8; 5]);
    assert_eq!(buf.len(), 0);
    assert_eq!(buf.push(13), true);
    assert_eq!(buf.len(), 1);
    assert_eq!(buf.push(15), true);
    assert_eq!(buf.len(), 2);
    assert_eq!(buf.pop(), Some(13));
    assert_eq!(buf.len(), 1);
    assert_eq!(buf.pop(), Some(15));
    assert_eq!(buf.len(), 0);
    assert_eq!(buf.pop(), None);
    assert_eq!(buf.len(), 0);
}

#[test]
fn cb_fills() {
    let mut buf = CircularBuffer::new(vec![0u8; 5]);
    assert_eq!(buf.push(13), true);
    assert_eq!(buf.push(14), true);
    assert_eq!(buf.push(15), true);
    assert_eq!(buf.push(16), true);
    assert_eq!(buf.len(), 4);
    assert_eq!(buf.push(17), false);
    assert_eq!(buf.len(), 4);
    assert_eq!(buf.pop(), Some(13));
    assert_eq!(buf.pop(), Some(14));
    assert_eq!(buf.pop(), Some(15));
    assert_eq!(buf.pop(), Some(16));
    assert_eq!(buf.pop(), None);
}

#[test]
fn cbiter_iters() {
    let mut buf = CircularBuffer::new(vec![0u8; 5]);
    let expected: [u8; 4] = [13, 14, 15, 16];
    buf.push(13);
    buf.push(14);
    buf.push(15);
    buf.push(16);
    let mut it = buf.iter();
    for b in expected.iter() {
        assert_eq!(it.next(), Some(*b));
    }
    assert_eq!(it.next(), None);
}

#[test]
fn cb_iter_leaves_ring_untouched() {
    let mut buf = CircularBuffer::new(vec![0u8; 5]);
    buf.push(13);
    buf.push(14);
    buf.push(15);
    buf.push(16);
    let mut it = buf.iter();
    while let Some(_) = it.next() {}
    assert_eq!(buf.len(), 4);
    assert_eq!(buf.pop(), Some(13));
    assert_eq!(buf.pop(), Some(14));
    assert_eq!(buf.pop(), Some(15));
    assert_eq!(buf.pop(), Some(16));
    assert_eq!(buf.pop(), None);
}

#[test]
fn cb_at_reads_relative_to_front() {
    let mut buf = CircularBuffer::new(vec![0u8; 5]);
    buf.push(13);
    buf.push(14);
    buf.push(15);
    assert_eq!(buf.pop(), Some(13));
    buf.push(16);
    buf.push(17);
    assert_eq!(buf.len(), 4);
    assert_eq!(buf.at(0), 14);
    assert_eq!(buf.at(1), 15);
    assert_eq!(buf.at(2), 16);
    assert_eq!(buf.at(3), 17);
}

#[test]
fn cb_wraps_around() {
    let mut buf = CircularBuffer::new(vec![0u8; 3]);
    assert_eq!(buf.push(1), true);
    assert_eq!(buf.push(2), true);
    assert_eq!(buf.push(3), false);
    assert_eq!(buf.pop(), Some(1));
    assert_eq!(buf.push(3), true);
    assert_eq!(buf.pop(), Some(2));
    assert_eq!(buf.pop(), Some(3));
    assert_eq!(buf.pop(), None);
}
