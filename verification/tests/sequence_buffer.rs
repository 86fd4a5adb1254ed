use pickleback::sequence_buffer::SequenceBuffer;

const TEST_BUFFER_SIZE: usize = 256;

#[derive(Debug, Clone, Default)]
struct TestData {
    sequence: u16,
}

#[test]
fn endpoint_sequence_test() {
    let mut buffer = SequenceBuffer::<TestData>::with_capacity(TEST_BUFFER_SIZE);

    assert_eq!(buffer.capacity(), TEST_BUFFER_SIZE);
    assert_eq!(buffer.sequence(), 0);

    for i in 0..TEST_BUFFER_SIZE {
        let r = buffer.get(i as u16);
        assert!(r.is_none());
    }

    for i in 0..TEST_BUFFER_SIZE * 4 {
        buffer.insert(i as u16, TestData { sequence: i as u16 }).unwrap();
        assert_eq!(buffer.sequence(), i as u16);

        let r = buffer.get(i as u16);
        assert_eq!(r.unwrap().sequence, i as u16);
    }

    for i in 0..TEST_BUFFER_SIZE - 1 {
        let r = buffer.insert(i as u16, TestData { sequence: i as u16 });
        assert!(r.is_err());
    }

    let mut index = TEST_BUFFER_SIZE * 4 - 1;
    for _ in 0..TEST_BUFFER_SIZE - 1 {
        let entry = buffer.get(index as u16);
        assert!(entry.is_some());
        let e = entry.unwrap();
        assert_eq!(e.sequence, index as u16);
        index -= 1;
    }
}

#[test]
fn mod_sequence_test() {
    let mut buffer = SequenceBuffer::<TestData>::with_capacity(TEST_BUFFER_SIZE);

    assert_eq!(buffer.capacity(), TEST_BUFFER_SIZE as usize);
    assert_eq!(buffer.sequence(), 0);

    for i in 0..TEST_BUFFER_SIZE {
        let r = buffer.get(i as u16);
        assert!(r.is_none());
    }

    for i in 0..TEST_BUFFER_SIZE * 4 {
        buffer.insert(i as u16, TestData { sequence: i as u16 }).unwrap();
        assert_eq!(buffer.sequence(), i as u16);

        let r = buffer.get(i as u16);
        assert_eq!(r.unwrap().sequence, i as u16);
    }

    for i in 0..TEST_BUFFER_SIZE - 1 {
        let r = buffer.insert(i as u16, TestData { sequence: i as u16 });
        assert!(r.is_err());
    }

    let mut index = TEST_BUFFER_SIZE * 4 - 1;
    for _ in 0..TEST_BUFFER_SIZE - 1 {
        let entry = buffer.get(index as u16);
        assert!(entry.is_some());
        let e = entry.unwrap();
        assert_eq!(e.sequence, index as u16);
        index -= 1;
    }
}

#[test]
fn ack_bits() {
    let mut buffer = SequenceBuffer::<TestData>::with_capacity(TEST_BUFFER_SIZE);

    for i in 0..TEST_BUFFER_SIZE + 1 {
        buffer.insert(i as u16, TestData { sequence: i as u16 }).unwrap();
    }

    let (ack, ack_bits) = buffer.ack_bits();
    println!("ack_bits = {ack_bits:#032b}");
    assert_eq!(ack, TEST_BUFFER_SIZE as u16);
    assert_eq!(ack_bits, 0xFFFFFFFF);

    buffer = SequenceBuffer::<TestData>::with_capacity(TEST_BUFFER_SIZE);

    for ack in [1, 5, 9, 11].iter() {
        buffer.insert(*ack as u16, TestData { sequence: *ack as u16 }).unwrap();
    }

    let (ack, ack_bits) = buffer.ack_bits();
    let expected_ack_bits = 1 | (1 << (11 - 9)) | (1 << (11 - 5)) | (1 << (11 - 1));

    assert_eq!(ack, 11);

    println!("ack_bits = {ack_bits:#032b}");
    println!("expected = {expected_ack_bits:#032b}");
    // bits that should be set:
    assert_eq!(ack_bits, expected_ack_bits);
}

#[test]
fn gappy_inserts() {
    let mut buf = SequenceBuffer::<u16>::with_capacity(100);
    for i in 0..5_u16 {
        buf.insert(i, i).unwrap();
    }
    buf.insert(6, 6).unwrap(); // removes 5,6, inserts 6
    buf.insert(5, 5).unwrap();
    buf.insert(7, 7).unwrap(); // removes 6,7, inserts 7

    for i in 0..8_u16 {
        assert_eq!(Some(&i), buf.get(i));
    }
}
