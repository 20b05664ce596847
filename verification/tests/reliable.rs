use udp_connections::reliable::{ChannelError, MessageChannel};

/// Deliver every built packet immediately and ack its transport sequence.
fn relay_once(tx: &mut MessageChannel, rx: &mut MessageChannel, seq: u16) {
    let packet = tx.send_packets(seq);
    rx.on_receive(packet.as_slice()).unwrap();
    tx.on_ack(seq);
}

#[test]
fn test_queue_and_deliver_in_order() {
    let mut a = MessageChannel::new();
    let mut b = MessageChannel::new();
    a.queue_message(b"hello").unwrap();
    a.queue_message(b"world").unwrap();
    a.queue_message(b"!").unwrap();
    assert!(a.has_unsend_messages());

    relay_once(&mut a, &mut b, 1);
    assert!(!a.has_unsend_messages());

    assert_eq!(b.receive_message(), Some(b"hello".to_vec()));
    assert_eq!(b.receive_message(), Some(b"world".to_vec()));
    assert_eq!(b.receive_message(), Some(b"!".to_vec()));
    assert_eq!(b.receive_message(), None);
}

#[test]
fn test_reliable_delivery_with_loss() {
    // queue 100 messages and rebuild/transmit under heavy deterministic
    // loss; the receiver must see exactly 1..=100 in order
    let mut a = MessageChannel::new();
    let mut b = MessageChannel::new();
    let mut queued: u32 = 1;
    let mut received: Vec<u8> = Vec::new();
    let mut seq: u16 = 0;
    let mut rng: u32 = 0x1234_5678;
    while received.len() < 100 {
        while queued <= 100 {
            if a.queue_message(&[queued as u8]).is_err() {
                break;
            }
            queued += 1;
        }
        seq = seq.wrapping_add(1);
        let packet = a.send_packets(seq);
        // xorshift pseudo-random 50 % receive loss
        rng ^= rng << 13;
        rng ^= rng >> 17;
        rng ^= rng << 5;
        if rng & 1 == 0 {
            b.on_receive(packet.as_slice()).unwrap();
            a.on_ack(seq);
        }
        while let Some(msg) = b.receive_message() {
            received.push(msg[0]);
        }
        assert!(seq < 10_000, "did not converge");
    }
    let expected: Vec<u8> = (1..=100u32).map(|v| v as u8).collect();
    assert_eq!(received, expected);
}

#[test]
fn test_three_messages_under_heavy_drop() {
    // queue three messages and rebuild/transmit in a tight loop with a
    // deterministic 80 % drop rate; the receiver must observe exactly
    // them, in order
    let mut a = MessageChannel::new();
    let mut b = MessageChannel::new();
    a.queue_message(b"hello").unwrap();
    a.queue_message(b"world").unwrap();
    a.queue_message(b"!").unwrap();

    let mut received: Vec<Vec<u8>> = Vec::new();
    let mut seq: u16 = 0;
    let mut rng: u32 = 0xDEAD_BEEF;
    while received.len() < 3 {
        seq = seq.wrapping_add(1);
        let packet = a.send_packets(seq);
        rng ^= rng << 13;
        rng ^= rng >> 17;
        rng ^= rng << 5;
        if rng % 5 == 0 {
            b.on_receive(packet.as_slice()).unwrap();
            a.on_ack(seq);
        }
        while let Some(msg) = b.receive_message() {
            received.push(msg);
        }
        assert!(seq < 10_000, "did not converge");
    }
    assert_eq!(received, vec![b"hello".to_vec(), b"world".to_vec(), b"!".to_vec()]);
}

#[test]
fn test_ack_retires_messages() {
    // once any transmission of a message is acked, later builds must not
    // include it
    let mut a = MessageChannel::new();
    a.queue_message(b"first").unwrap();
    a.queue_message(b"second").unwrap();

    let p1 = a.send_packets(10);
    assert!(p1.len() > 1);
    a.on_ack(10);
    assert!(!a.has_unsend_messages());
    let p2 = a.send_packets(11);
    assert_eq!(p2, vec![0u8]);
}

#[test]
fn test_retransmission_under_fresh_sequence() {
    let mut a = MessageChannel::new();
    a.queue_message(b"msg").unwrap();
    let p1 = a.send_packets(5);
    // the first transmission was lost; a rebuild still includes the message
    let p2 = a.send_packets(6);
    assert_eq!(&p1[1..], &p2[1..]);
    // an ack for either transmission retires it
    a.on_ack(5);
    assert!(!a.has_unsend_messages());
}

#[test]
fn test_duplicate_composite_ignored() {
    let mut a = MessageChannel::new();
    let mut b = MessageChannel::new();
    a.queue_message(b"only").unwrap();
    let packet = a.send_packets(1);
    b.on_receive(packet.as_slice()).unwrap();
    // replaying the same composite adds nothing
    b.on_receive(packet.as_slice()).unwrap();
    assert_eq!(b.receive_message(), Some(b"only".to_vec()));
    assert_eq!(b.receive_message(), None);
}

#[test]
fn test_queue_full() {
    let mut a = MessageChannel::new();
    for i in 0..256u32 {
        assert_eq!(a.queue_message(&[i as u8]), Ok(()));
    }
    assert_eq!(a.queue_message(b"x"), Err(ChannelError::Full));
}

#[test]
fn test_malformed_composite() {
    let mut b = MessageChannel::new();
    // claims one record but the record is truncated
    assert_eq!(b.on_receive(&[1, 0]), Err(ChannelError::Malformed));
    // claims a record longer than the remaining bytes
    assert_eq!(b.on_receive(&[1, 0, 1, 5, 0xAA]), Err(ChannelError::Malformed));
    // empty packet
    assert_eq!(b.on_receive(&[]), Err(ChannelError::Malformed));
    // a valid empty composite
    assert_eq!(b.on_receive(&[0]), Ok(()));
}
