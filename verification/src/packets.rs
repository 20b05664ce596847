//! Wire framing: six packet kinds, big-endian encoding, and a CRC-32 over a
//! salt-prefixed body that ties a frame to one application.

use vstd::prelude::*;
use vstd::slice::{slice_subrange, slice_to_vec};
use crate::bytes::{
    lemma_u16_be_round_trip,
    lemma_u32_be_round_trip,
    push_u32_be,
    read_u16_be,
    read_u32_be,
    u16_be_bytes,
    u16_from_be,
    u32_be_bytes,
    u32_from_be,
    push_u16_be,
};
use crate::constants::{HEADER_SIZE, MAX_PAYLOAD_SIZE};
use crate::sequencing::{SequenceNumber, SequenceNumberSet};

verus! {

/// The CRC-32 (IEEE) checksum of a byte string; a function of the bytes
/// alone.
pub uninterp spec fn crc32_of(data: Seq<u8>) -> u32;

/// Relies on crc32fast::hash: the IEEE CRC-32 of the byte slice, depending
/// on the bytes alone.
#[verifier::external_body]
fn crc32(data: &Vec<u8>) -> (r: u32)
    ensures
        r == crc32_of(data@),
{
    crc32fast::hash(data.as_slice())
}

/// Why an incoming datagram was not a packet.
#[derive(Copy, Clone, Debug, PartialEq, Eq, Structural)]
pub enum ParseError {
    BadChecksum,
    UnknownKind,
    WrongLength,
}

/// One frame of the protocol.
#[derive(Debug, PartialEq)]
pub enum Packet {
    ConnectionRequest,
    ConnectionAccepted(u16),
    ConnectionDenied,
    KeepAlive(SequenceNumberSet),
    Disconnect,
    Payload(SequenceNumber, SequenceNumberSet, Vec<u8>),
}

/// The body of a Payload frame, over the payload's bytes alone.
pub open spec fn spec_payload_body(seqn: u16, ack: SequenceNumberSet, data: Seq<u8>) -> Seq<u8> {
    seq![0x05u8] + u16_be_bytes(seqn) + u16_be_bytes(ack.spec_latest()) + u32_be_bytes(
        ack.spec_bitfield(),
    ) + u16_be_bytes(data.len() as u16) + data
}

/// The body of a frame: kind byte followed by the kind's payload.
pub open spec fn spec_body(p: Packet) -> Seq<u8> {
    match p {
        Packet::ConnectionRequest => seq![0x00u8],
        Packet::ConnectionAccepted(id) => seq![0x01u8] + u16_be_bytes(id),
        Packet::ConnectionDenied => seq![0x02u8],
        Packet::KeepAlive(ack) => seq![0x03u8] + u16_be_bytes(ack.spec_latest()) + u32_be_bytes(
            ack.spec_bitfield(),
        ),
        Packet::Disconnect => seq![0x04u8],
        Packet::Payload(seqn, ack, data) => spec_payload_body(seqn, ack, data@),
    }
}

/// A frame around any body: the CRC of the salted body, then the body.
pub open spec fn spec_frame_bytes(body: Seq<u8>, salt: Seq<u8>) -> Seq<u8> {
    u32_be_bytes(crc32_of(salt + body)) + body
}

/// A whole frame: the CRC of the salted body, then the body.
pub open spec fn spec_frame(p: Packet, salt: Seq<u8>) -> Seq<u8> {
    spec_frame_bytes(spec_body(p), salt)
}

/// A Payload's bytes fit the length field and the maximum datagram size.
pub open spec fn payload_fits(p: Packet) -> bool {
    match p {
        Packet::Payload(_, _, data) => data@.len() <= MAX_PAYLOAD_SIZE,
        _ => true,
    }
}

/// The first four bytes carry the CRC of the salt followed by the rest.
pub open spec fn checksum_ok(data: Seq<u8>, salt: Seq<u8>) -> bool {
    u32_from_be(data[0], data[1], data[2], data[3]) == crc32_of(salt + data.skip(4))
}

/// The error parsing yields on `data`, or `None` when it yields a packet.
pub open spec fn spec_parse_err(data: Seq<u8>, salt: Seq<u8>) -> Option<ParseError> {
    if data.len() < 4 {
        Some(ParseError::WrongLength)
    } else if !checksum_ok(data, salt) {
        Some(ParseError::BadChecksum)
    } else if data.len() < 5 {
        Some(ParseError::WrongLength)
    } else if data[4] > 5 {
        Some(ParseError::UnknownKind)
    } else if data[4] == 1 && data.len() < 7 {
        Some(ParseError::WrongLength)
    } else if data[4] == 3 && data.len() < 11 {
        Some(ParseError::WrongLength)
    } else if data[4] == 5 && (data.len() < HEADER_SIZE || u16_from_be(data[13], data[14])
        != data.len() - HEADER_SIZE) {
        Some(ParseError::WrongLength)
    } else {
        None
    }
}

/// What packet the bytes of a well-formed frame describe.
pub open spec fn parses_to(data: Seq<u8>, p: Packet) -> bool {
    match p {
        Packet::ConnectionRequest => data[4] == 0,
        Packet::ConnectionAccepted(id) => data[4] == 1 && id == u16_from_be(data[5], data[6]),
        Packet::ConnectionDenied => data[4] == 2,
        Packet::KeepAlive(ack) => data[4] == 3 && ack.spec_latest() == u16_from_be(
            data[5],
            data[6],
        ) && ack.spec_bitfield() == u32_from_be(data[7], data[8], data[9], data[10]),
        Packet::Disconnect => data[4] == 4,
        Packet::Payload(seqn, ack, d) => data[4] == 5 && seqn == u16_from_be(data[5], data[6])
            && ack.spec_latest() == u16_from_be(data[7], data[8]) && ack.spec_bitfield()
            == u32_from_be(data[9], data[10], data[11], data[12]) && d@ == data.skip(
            HEADER_SIZE as int,
        ),
    }
}

/// Two packets with the same wire meaning.
pub open spec fn packet_equiv(p: Packet, q: Packet) -> bool {
    match (p, q) {
        (Packet::ConnectionRequest, Packet::ConnectionRequest) => true,
        (Packet::ConnectionAccepted(a), Packet::ConnectionAccepted(b)) => a == b,
        (Packet::ConnectionDenied, Packet::ConnectionDenied) => true,
        (Packet::KeepAlive(a), Packet::KeepAlive(b)) => a.spec_latest() == b.spec_latest()
            && a.spec_bitfield() == b.spec_bitfield(),
        (Packet::Disconnect, Packet::Disconnect) => true,
        (Packet::Payload(s1, a1, d1), Packet::Payload(s2, a2, d2)) => s1 == s2 && a1.spec_latest()
            == a2.spec_latest() && a1.spec_bitfield() == a2.spec_bitfield() && d1@ == d2@,
        _ => false,
    }
}

impl Packet {
    /// Parse one datagram against the given salt.
    pub fn from(data: &[u8], salt: &[u8]) -> (r: Result<Packet, ParseError>)
        ensures
            match r {
                Ok(p) => spec_parse_err(data@, salt@) is None && parses_to(data@, p),
                Err(e) => spec_parse_err(data@, salt@) == Some(e),
            },
    {
        if data.len() < 4 {
            return Err(ParseError::WrongLength);
        }
        let checksum = read_u32_be(data, 0);
        let rest = slice_subrange(data, 4, data.len());
        let mut salted: Vec<u8> = Vec::new();
        salted.extend_from_slice(salt);
        salted.extend_from_slice(rest);
        proof {
            assert(salted@ =~= salt@ + data@.skip(4));
        }
        let expected = crc32(&salted);
        if checksum != expected {
            return Err(ParseError::BadChecksum);
        }
        if data.len() < 5 {
            return Err(ParseError::WrongLength);
        }
        let kind = *vstd::slice::slice_index_get(data, 4);
        if kind == 0 {
            Ok(Packet::ConnectionRequest)
        } else if kind == 1 {
            if data.len() < 7 {
                return Err(ParseError::WrongLength);
            }
            Ok(Packet::ConnectionAccepted(read_u16_be(data, 5)))
        } else if kind == 2 {
            Ok(Packet::ConnectionDenied)
        } else if kind == 3 {
            if data.len() < 11 {
                return Err(ParseError::WrongLength);
            }
            let ack = SequenceNumberSet::from_bitfield(read_u16_be(data, 5), read_u32_be(data, 7));
            Ok(Packet::KeepAlive(ack))
        } else if kind == 4 {
            Ok(Packet::Disconnect)
        } else if kind == 5 {
            if data.len() < HEADER_SIZE {
                return Err(ParseError::WrongLength);
            }
            let declared = read_u16_be(data, 13);
            if declared as usize != data.len() - HEADER_SIZE {
                return Err(ParseError::WrongLength);
            }
            let seqn = read_u16_be(data, 5);
            let ack = SequenceNumberSet::from_bitfield(read_u16_be(data, 7), read_u32_be(data, 9));
            let payload = slice_to_vec(slice_subrange(data, HEADER_SIZE, data.len()));
            Ok(Packet::Payload(seqn, ack, payload))
        } else {
            Err(ParseError::UnknownKind)
        }
    }

    /// Frame this packet against the given salt.
    pub fn write(&self, salt: &[u8]) -> (r: Vec<u8>)
        requires
            payload_fits(*self),
        ensures
            r@ == spec_frame(*self, salt@),
    {
        let mut body: Vec<u8> = Vec::new();
        match self {
            Packet::ConnectionRequest => {
                body.push(0x00);
            },
            Packet::ConnectionAccepted(id) => {
                body.push(0x01);
                push_u16_be(&mut body, *id);
            },
            Packet::ConnectionDenied => {
                body.push(0x02);
            },
            Packet::KeepAlive(ack) => {
                body.push(0x03);
                push_u16_be(&mut body, ack.latest());
                push_u32_be(&mut body, ack.bitfield());
            },
            Packet::Disconnect => {
                body.push(0x04);
            },
            Packet::Payload(seqn, ack, data) => {
                body.push(0x05);
                push_u16_be(&mut body, *seqn);
                push_u16_be(&mut body, ack.latest());
                push_u32_be(&mut body, ack.bitfield());
                push_u16_be(&mut body, data.len() as u16);
                body.extend_from_slice(data.as_slice());
            },
        }
        proof {
            assert(body@ =~= spec_body(*self));
        }
        let mut salted: Vec<u8> = Vec::new();
        salted.extend_from_slice(salt);
        salted.extend_from_slice(body.as_slice());
        proof {
            assert(salted@ =~= salt@ + body@);
        }
        let crc = crc32(&salted);
        let mut out: Vec<u8> = Vec::new();
        push_u32_be(&mut out, crc);
        out.append(&mut body);
        proof {
            assert(out@ =~= spec_frame(*self, salt@));
        }
        out
    }
}

/// A frame written with a salt parses back, under the same salt, to a packet
/// with the same wire meaning.
pub proof fn lemma_frame_round_trip(p: Packet, salt: Seq<u8>)
    requires
        payload_fits(p),
    ensures
        spec_parse_err(spec_frame(p, salt), salt) is None,
        parses_to(spec_frame(p, salt), p),
{
    let body = spec_body(p);
    let data = spec_frame(p, salt);
    let crc = crc32_of(salt + body);
    assert(data.skip(4) =~= body);
    lemma_u32_be_round_trip(crc);
    assert(checksum_ok(data, salt));
    match p {
        Packet::ConnectionRequest => {
        },
        Packet::ConnectionAccepted(id) => {
            lemma_u16_be_round_trip(id);
        },
        Packet::ConnectionDenied => {
        },
        Packet::KeepAlive(ack) => {
            lemma_u16_be_round_trip(ack.spec_latest());
            lemma_u32_be_round_trip(ack.spec_bitfield());
        },
        Packet::Disconnect => {
        },
        Packet::Payload(seqn, ack, d) => {
            lemma_u16_be_round_trip(seqn);
            lemma_u16_be_round_trip(ack.spec_latest());
            lemma_u32_be_round_trip(ack.spec_bitfield());
            lemma_u16_be_round_trip(d@.len() as u16);
            assert(data.len() == HEADER_SIZE + d@.len());
            assert(data.skip(HEADER_SIZE as int) =~= d@);
        },
    }
}

/// One well-formed frame describes only one packet, up to wire meaning.
pub proof fn lemma_parses_to_unique(data: Seq<u8>, p: Packet, q: Packet)
    requires
        data.len() >= 5,
        parses_to(data, p),
        parses_to(data, q),
    ensures
        packet_equiv(p, q),
{
}

} // verus!
