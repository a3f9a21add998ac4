use hibike_packet::RingBuffer;

#[test]
fn new_buffer_is_empty() {
    let buffer = RingBuffer::new();
    assert_eq!(buffer.len(), 0);
    assert_eq!(buffer.get_data(), Vec::<u8>::new());
    assert_eq!(buffer.find(0), None);
    assert_eq!(buffer.count(0), 0);
}

#[test]
fn extend_adds_at_the_tail() {
    let mut buffer = RingBuffer::new();
    buffer.extend(&[1, 2, 3]);
    buffer.extend(&[]);
    buffer.extend(&[4, 5]);
    assert_eq!(buffer.len(), 5);
    assert_eq!(buffer.get_data(), vec![1, 2, 3, 4, 5]);
}

#[test]
fn get_data_leaves_the_buffer_alone() {
    let mut buffer = RingBuffer::new();
    buffer.extend(&[9, 8, 7]);
    let first = buffer.get_data();
    let second = buffer.get_data();
    assert_eq!(first, second);
    assert_eq!(buffer.len(), 3);
}

#[test]
fn chop_front_removes_a_prefix() {
    let mut buffer = RingBuffer::new();
    buffer.extend(&[1, 2, 3, 4, 5]);
    buffer.chop_front(0);
    assert_eq!(buffer.get_data(), vec![1, 2, 3, 4, 5]);
    buffer.chop_front(2);
    assert_eq!(buffer.get_data(), vec![3, 4, 5]);
    buffer.chop_front(3);
    assert_eq!(buffer.len(), 0);
}

#[test]
fn chop_front_past_the_end_empties_the_buffer() {
    let mut buffer = RingBuffer::new();
    buffer.extend(&[1, 2, 3]);
    buffer.chop_front(10);
    assert_eq!(buffer.len(), 0);
    buffer.chop_front(usize::MAX);
    assert_eq!(buffer.get_data(), Vec::<u8>::new());
}

#[test]
fn find_gives_the_first_occurrence() {
    let mut buffer = RingBuffer::new();
    buffer.extend(&[5, 6, 7, 6, 5]);
    assert_eq!(buffer.find(5), Some(0));
    assert_eq!(buffer.find(6), Some(1));
    assert_eq!(buffer.find(7), Some(2));
    assert_eq!(buffer.find(8), None);
}

#[test]
fn find_counts_from_the_head_after_the_buffer_wrapped() {
    let mut buffer = RingBuffer::new();
    let filler: Vec<u8> = vec![1; 12];
    buffer.extend(&filler);
    buffer.chop_front(10);
    let more: Vec<u8> = (2..=11).collect();
    buffer.extend(&more);
    let mut expected = vec![1u8, 1];
    expected.extend_from_slice(&more);
    assert_eq!(buffer.get_data(), expected);
    for (index, byte) in expected.iter().enumerate().skip(2) {
        assert_eq!(buffer.find(*byte), Some(index));
    }
    assert_eq!(buffer.find(1), Some(0));
    assert_eq!(buffer.find(200), None);
    assert_eq!(buffer.count(1), 2);
    assert_eq!(buffer.count(11), 1);
}

#[test]
fn count_gives_all_occurrences() {
    let mut buffer = RingBuffer::new();
    buffer.extend(&[0, 1, 0, 2, 0, 0, 3]);
    assert_eq!(buffer.count(0), 4);
    assert_eq!(buffer.count(1), 1);
    assert_eq!(buffer.count(9), 0);
    buffer.chop_front(3);
    assert_eq!(buffer.count(0), 2);
}
