use turbulence::ring_buffer::ring_buffer;

#[test]
fn basic_read_write() {
    let mut ring = ring_buffer(7);
    let mut buffer = [0; 7];

    assert_eq!(ring.writer().available(), 7);
    assert_eq!(ring.writer().write(&[0, 1, 2]), 3);
    assert_eq!(ring.writer().available(), 4);
    assert_eq!(ring.reader().available(), 3);
    assert_eq!(ring.reader().peek(0, &mut buffer), 3);
    assert_eq!(buffer[0..3], [0, 1, 2]);
    assert_eq!(ring.writer().available(), 4);
    assert_eq!(ring.reader().advance(3), 3);
    assert_eq!(ring.writer().available(), 7);
    assert_eq!(ring.reader().available(), 0);
    assert_eq!(ring.writer().write(&[0, 1, 2]), 3);
    assert_eq!(ring.writer().available(), 4);
    assert_eq!(ring.reader().peek(0, &mut buffer[0..3]), 3);
    assert_eq!(buffer[0..3], [0, 1, 2]);
    assert_eq!(ring.writer().write(&[3, 4, 5]), 3);
    assert_eq!(ring.writer().available(), 1);
    assert_eq!(ring.writer().write(&[6, 7, 8, 9]), 1);
    assert_eq!(ring.writer().available(), 0);
    assert_eq!(ring.reader().available(), 7);
    assert_eq!(ring.reader().peek(4, &mut buffer[0..5]), 3);
    assert_eq!(buffer[0..3], [4, 5, 6]);
    assert_eq!(ring.reader().peek(0, &mut buffer[0..2]), 2);
    assert_eq!(buffer[0..2], [0, 1]);
    assert_eq!(ring.reader().advance(2), 2);
    assert_eq!(ring.reader().available(), 5);
    assert_eq!(ring.writer().available(), 2);
    assert_eq!(ring.reader().peek(0, &mut buffer[0..3]), 3);
    assert_eq!(buffer[0..3], [2, 3, 4]);
    assert_eq!(ring.reader().advance(3), 3);
    assert_eq!(ring.reader().available(), 2);
    assert_eq!(ring.writer().available(), 5);
    assert_eq!(ring.reader().peek(0, &mut buffer[0..5]), 2);
    assert_eq!(buffer[0..2], [5, 6]);
    assert_eq!(ring.reader().available(), 2);
    assert_eq!(ring.writer().available(), 5);
    assert_eq!(ring.reader().advance(5), 2);
    assert_eq!(ring.reader().available(), 0);
    assert_eq!(ring.writer().available(), 7);
    assert_eq!(ring.writer().write(&[0, 1, 2, 3, 4]), 5);
    assert_eq!(ring.writer().available(), 2);
    assert_eq!(ring.reader().available(), 5);
    assert_eq!(ring.reader().peek(2, &mut buffer[0..5]), 3);
    assert_eq!(buffer[0..3], [2, 3, 4]);
}

#[test]
fn ring_is_first_in_first_out() {
    let mut ring = ring_buffer(5);
    let mut buffer = [0; 5];
    assert_eq!(ring.writer().write(&[1, 2, 3]), 3);
    assert_eq!(ring.writer().write(&[4, 5, 6]), 2);
    assert_eq!(ring.reader().advance(3), 3);
    assert_eq!(ring.reader().peek(0, &mut buffer), 2);
    assert_eq!(buffer[0..2], [4, 5]);
    assert_eq!(ring.read_available() + ring.write_available(), 5);
}

#[test]
fn ring_store_and_commit() {
    let mut ring = ring_buffer(4);
    let mut buffer = [0; 4];
    assert_eq!(ring.writer().write(&[9, 9, 9]), 3);
    assert_eq!(ring.reader().advance(3), 3);
    // The cells are stored out of order and across the end of the buffer.
    assert_eq!(ring.writer().write_at(2, &[7, 8, 9]), 2);
    assert_eq!(ring.read_available(), 0);
    assert_eq!(ring.writer().write_at(0, &[5, 6]), 2);
    assert_eq!(ring.writer().write_at(4, &[1]), 0);
    assert_eq!(ring.writer().advance(4), 4);
    assert_eq!(ring.reader().peek(0, &mut buffer), 4);
    assert_eq!(buffer, [5, 6, 7, 8]);
    assert_eq!(ring.writer().advance(1), 0);
    assert_eq!(ring.reader().peek(4, &mut buffer), 0);
}
