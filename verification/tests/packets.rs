use udp_connections::packets::{Packet, ParseError};
use udp_connections::sequencing::SequenceNumberSet;

const SALT: [u8; 4] = 123456u32.to_be_bytes();

#[test]
fn test_packets() {
    let test_cases = [
        Packet::ConnectionRequest,
        Packet::ConnectionAccepted(45),
        Packet::ConnectionDenied,
        Packet::KeepAlive(SequenceNumberSet::new(0)),
        Packet::Disconnect,
        Packet::Payload(0, SequenceNumberSet::new(0), vec![1, 2, 3]),
    ];

    for test in test_cases {
        let bin = test.write(&SALT);
        let rev = Packet::from(bin.as_slice(), &SALT).unwrap();
        assert_eq!(test, rev);
    }
}

#[test]
#[should_panic]
fn test_packet_crc() {
    let test = Packet::ConnectionRequest;
    let mut bin = test.write(&SALT);
    bin[4] += 1;
    Packet::from(bin.as_slice(), &SALT).unwrap();
}

#[test]
fn test_wrong_salt() {
    let other: [u8; 4] = 654321u32.to_be_bytes();
    let test_cases = [
        Packet::ConnectionRequest,
        Packet::ConnectionAccepted(45),
        Packet::KeepAlive(SequenceNumberSet::new(7)),
        Packet::Payload(3, SequenceNumberSet::new(2), vec![0xAA, 0xBB]),
    ];
    for test in test_cases {
        let bin = test.write(&SALT);
        assert_eq!(Packet::from(bin.as_slice(), &other), Err(ParseError::BadChecksum));
    }
}

#[test]
fn test_single_byte_corruption() {
    let test = Packet::Payload(9, SequenceNumberSet::from_bitfield(9, 0b101), vec![1, 2, 3, 4]);
    let bin = test.write(&SALT);
    for i in 0..bin.len() {
        let mut copy = bin.clone();
        copy[i] ^= 0x40;
        let parsed = Packet::from(copy.as_slice(), &SALT);
        assert!(
            parsed == Err(ParseError::BadChecksum) || parsed == Err(ParseError::UnknownKind),
            "corrupted byte {} was not rejected",
            i
        );
    }
}

#[test]
fn test_parse_errors() {
    // too short for a checksum
    assert_eq!(Packet::from(&[1, 2, 3], &SALT), Err(ParseError::WrongLength));
    // valid checksum over an unknown kind byte
    let mut frame = vec![0u8; 4];
    frame.push(0x2A);
    let crc = crc32fast::hash(&[&SALT[..], &frame[4..]].concat());
    frame[0..4].copy_from_slice(&crc.to_be_bytes());
    assert_eq!(Packet::from(frame.as_slice(), &SALT), Err(ParseError::UnknownKind));
    // a Payload whose declared length disagrees with the remaining bytes
    let bin = Packet::Payload(0, SequenceNumberSet::new(0), vec![1, 2, 3]).write(&SALT);
    let mut short = bin.clone();
    short.truncate(bin.len() - 1);
    let crc = crc32fast::hash(&[&SALT[..], &short[4..]].concat());
    short[0..4].copy_from_slice(&crc.to_be_bytes());
    assert_eq!(Packet::from(short.as_slice(), &SALT), Err(ParseError::WrongLength));
}

#[test]
fn test_checksum_matches_crc32() {
    // the leading four bytes of a frame are the big-endian CRC-32 of the
    // salt followed by the body
    let bin = Packet::ConnectionAccepted(7).write(&SALT);
    let expected = crc32fast::hash(&[&SALT[..], &bin[4..]].concat());
    assert_eq!(&bin[0..4], expected.to_be_bytes());
}
