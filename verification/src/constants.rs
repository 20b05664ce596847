//! Protocol-wide sizes and timing constants.

use vstd::prelude::*;

verus! {

/// The largest datagram ever sent or accepted.
pub const MAX_PACKET_SIZE: usize = 1500;

/// Checksum, kind byte, sequence number, ack set and length field of a
/// Payload frame.
pub const HEADER_SIZE: usize = 15;

/// The most payload bytes that fit in one Payload frame.
pub const MAX_PAYLOAD_SIZE: usize = 1485;

/// A peer silent for this long is considered gone.
pub const CONNECTION_TIMEOUT_MS: u64 = 5000;

/// A keep-alive goes out when nothing was sent for this long.
pub const KEEPALIVE_INTERVAL_MS: u64 = 500;

/// In-flight packets this far behind a newly acked sequence count as lost.
pub const PACKET_LOST_CUTOFF: u16 = 40;

} // verus!
