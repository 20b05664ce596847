//! A reliable, ordered-acknowledgement session layer over unreliable
//! datagrams: wrap-safe sequencing, CRC-framed packets, client and server
//! connection state machines, and a reliable message channel.
//!
//! The endpoints are pure protocol engines: the caller supplies a
//! monotonic clock reading and the incoming datagrams, and receives the
//! outgoing datagrams back, so everything the protocol decides is checked
//! here while the sockets stay outside.

pub mod bytes;
pub mod client;
pub mod connection;
pub mod constants;
pub mod error;
pub mod packets;
pub mod reliable;
pub mod sequencing;
pub mod server;
pub mod socket;

pub use client::{Client, ClientDisconnectReason, ClientEvent};
pub use constants::MAX_PACKET_SIZE;
pub use error::ConnectionError;
pub use reliable::MessageChannel;
pub use sequencing::{sequence_greater_than, sequence_less_than, SequenceNumber};
pub use server::{Server, ServerDisconnectReason, ServerEvent};
pub use socket::{Datagram, Endpoint, NetworkAddr};
