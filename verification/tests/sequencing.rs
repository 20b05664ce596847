use udp_connections::sequencing::{
    sequence_greater_than, sequence_less_than, SequenceBuffer, SequenceNumber, SequenceNumberSet,
};

#[test]
fn test_insert_remove() {
    let mut buffer = SequenceBuffer::with_capacity(4);
    assert!(buffer.is_empty());
    assert_eq!(buffer.remove(0), None);
    let (s1, _) = buffer.insert(1);
    assert_eq!(buffer.remove(s1), Some(1));
    assert_eq!(buffer.remove(s1), None);

    let (s1, _) = buffer.insert(1);
    assert!(!buffer.is_empty());
    let (s2, _) = buffer.insert(2);
    assert!(!buffer.is_empty());
    assert_eq!(buffer.remove(s1), Some(1));
    assert_eq!(buffer.remove(s2), Some(2));

    let (s1, _) = buffer.insert(1);
    let _ = buffer.insert(2);
    let _ = buffer.insert(3);
    assert!(buffer.try_insert(4).is_some());
    assert!(buffer.try_insert(5).is_none());
    let (_, old) = buffer.insert(5);
    assert_eq!(old, Some(1));
    assert_eq!(buffer.remove(s1), None);
}

#[test]
fn test_iter() {
    let mut buffer = SequenceBuffer::with_capacity(4);
    buffer.insert(1);
    buffer.insert(2);
    buffer.insert(3);

    assert_eq!(buffer.live_sequences(), vec![1, 2, 3]);

    buffer.insert(4);
    buffer.insert(5);
    buffer.insert(6);

    assert_eq!(buffer.live_sequences(), vec![3, 4, 5, 6]);
}

#[test]
fn test_contains() {
    let set = SequenceNumberSet::from_bitfield(3, 0b000010001);
    assert!(!set.contains(4));
    assert!(set.contains(3));
    assert!(set.contains(2));
    assert!(!set.contains(1));
    assert!(!set.contains(0));
    assert!(!set.contains(SequenceNumber::MAX - 0));
    assert!(set.contains(SequenceNumber::MAX - 1));
    assert!(!set.contains(SequenceNumber::MAX - 2));
    assert!(!set.contains(SequenceNumber::MAX - 3));
}

#[test]
fn test_insert() {
    let mut set = SequenceNumberSet::new(0);
    assert_eq!(set.latest(), 0);
    assert_eq!(set.bitfield(), 0b0);

    assert!(set.insert(5));
    assert_eq!(set.latest(), 5);
    assert_eq!(set.bitfield(), 0b10000);

    assert!(set.insert(7));
    assert_eq!(set.latest(), 7);
    assert_eq!(set.bitfield(), 0b1000010);

    assert!(set.insert(3));
    assert_eq!(set.latest(), 7);
    assert_eq!(set.bitfield(), 0b1001010);

    assert!(!set.insert(3));
    assert!(!set.insert(SequenceNumber::MAX - 40));
}

#[test]
fn sequencing_test_contains() {
    let set = SequenceNumberSet::from_bitfield(3, 0b000010001);
    assert!(!set.contains(4));
    assert!(set.contains(3));
    assert!(set.contains(2));
    assert!(!set.contains(1));
    assert!(!set.contains(0));
    assert!(!set.contains(SequenceNumber::MAX - 0));
    assert!(set.contains(SequenceNumber::MAX - 1));
    assert!(!set.contains(SequenceNumber::MAX - 2));
    assert!(!set.contains(SequenceNumber::MAX - 3));
}

#[test]
fn sequencing_test_insert() {
    let mut set = SequenceNumberSet::new(0);
    assert_eq!(set.latest(), 0);
    assert_eq!(set.bitfield(), 0b0);

    set.insert(5);
    assert_eq!(set.latest(), 5);
    assert_eq!(set.bitfield(), 0b10000);

    set.insert(7);
    assert_eq!(set.latest(), 7);
    assert_eq!(set.bitfield(), 0b1000010);

    set.insert(3);
    assert_eq!(set.latest(), 7);
    assert_eq!(set.bitfield(), 0b1001010);
}

#[test]
fn sequencing_test_iter() {
    let members = SequenceNumberSet::from_bitfield(3, 0b000010001).iter();
    assert_eq!(members, vec![SequenceNumber::MAX - 1, 2, 3]);
}

#[test]
fn test_comparison_bisects() {
    // the successor is always greater
    for s in [0u16, 1, 100, 0x7FFF, 0x8000, 0xFFFE, 0xFFFF] {
        assert!(sequence_greater_than(s.wrapping_add(1), s));
        assert!(sequence_less_than(s, s.wrapping_add(1)));
    }
    // half the space ahead is never "older" when starting in the lower half
    for s in [0u16, 1, 100, 0x7FFF] {
        assert!(!sequence_greater_than(s, s.wrapping_add(0x8000)));
    }
    // at exactly half distance the tie goes to the numerically larger side
    assert!(sequence_greater_than(0x8000, 0));
    assert!(!sequence_greater_than(0, 0x8000));
}

#[test]
fn test_drain_older() {
    let mut buffer = SequenceBuffer::with_capacity(8);
    for v in 1..=5 {
        buffer.insert(v);
    }
    // sequence numbers 1..=5 are live; drain everything older than 4
    let drained = buffer.drain_older(4);
    let seqs: Vec<u16> = drained.iter().map(|e| e.0).collect();
    assert_eq!(seqs, vec![1, 2, 3]);
    assert_eq!(buffer.remove(2), None);
    assert_eq!(buffer.remove(4), Some(4));
    assert_eq!(buffer.remove(5), Some(5));
    assert!(buffer.is_empty());
}
