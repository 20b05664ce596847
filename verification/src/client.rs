//! The initiator endpoint: a connection state machine bound to one peer.
//!
//! The client is a pure protocol engine.  It never touches a socket: time
//! comes in as an argument, incoming datagrams are handed to
//! [`Client::handle_datagram`], and every method that would transmit hands
//! back the framed datagrams for the caller to put on the wire.

use vstd::prelude::*;
use std::collections::VecDeque;
use crate::connection::{ack_notes_ok, classify, elapsed_ms, SequenceResult, VirtualConnection};
use crate::constants::{CONNECTION_TIMEOUT_MS, KEEPALIVE_INTERVAL_MS, MAX_PAYLOAD_SIZE};
use crate::error::ConnectionError;
use crate::packets::{spec_frame, spec_frame_bytes, spec_parse_err, spec_payload_body, Packet};
use crate::sequencing::{spec_greater_than, SequenceNumber, SequenceNumberSet};
use crate::socket::{Datagram, NetworkAddr};

verus! {

/// Why the client lost or never gained its connection.
#[derive(Debug, Clone, Copy, PartialEq, Eq, Structural)]
pub enum ClientDisconnectReason {
    /// The peer or the local side closed the connection.
    Disconnected,
    /// The peer went silent for longer than the connection timeout.
    TimedOut,
    /// The server had no free slot.
    ConnectionDenied,
    /// The transport failed; the raw OS error code is carried along.
    SocketError(i32),
}

/// What the client reports to its host.
#[derive(Debug, PartialEq)]
pub enum ClientEvent {
    Connected(u16),
    Disconnected(ClientDisconnectReason),
    /// A payload arrived; the flag says whether it bore the newest
    /// sequence number seen so far.
    PacketReceived(bool, Vec<u8>),
    PacketAcknowledged(SequenceNumber),
    PacketLost(SequenceNumber),
}

/// The client's connection lifecycle.
pub enum ClientState {
    Disconnected,
    /// Destination and the time the attempt started.
    Connecting(NetworkAddr, u64),
    Connected(VirtualConnection),
    /// A disconnect reason waiting to be reported.
    Disconnecting(ClientDisconnectReason),
}

/// The initiator endpoint.
pub struct Client {
    salt: Vec<u8>,
    state: ClientState,
    ack_queue: VecDeque<(SequenceNumber, bool)>,
}

impl Client {
    /// The application identifier bytes mixed into every frame's checksum.
    pub closed spec fn spec_salt(self) -> Seq<u8> {
        self.salt@
    }

    pub closed spec fn spec_state(self) -> ClientState {
        self.state
    }

    /// Pending acknowledged (`true`) / lost (`false`) notifications.
    pub closed spec fn spec_queue(self) -> Seq<(SequenceNumber, bool)> {
        self.ack_queue@
    }

    pub open spec fn wf(self) -> bool {
        match self.spec_state() {
            ClientState::Connected(vc) => vc.wf(),
            _ => true,
        }
    }

    /// A fresh, disconnected client for the application identified by the
    /// given bytes.
    pub fn new(identifier: &[u8]) -> (r: Self)
        ensures
            r.wf(),
            r.spec_salt() == identifier@,
            r.spec_state() is Disconnected,
            r.spec_queue() == Seq::<(SequenceNumber, bool)>::empty(),
    {
        Self {
            salt: crate::bytes::copy_bytes(identifier),
            state: ClientState::Disconnected,
            ack_queue: VecDeque::new(),
        }
    }

    pub fn is_connected(&self) -> (r: bool)
        ensures
            r == (self.spec_state() is Connected),
    {
        match self.state {
            ClientState::Connected(_) => true,
            _ => false,
        }
    }

    pub fn is_disconnected(&self) -> (r: bool)
        ensures
            r == (self.spec_state() is Disconnected),
    {
        match self.state {
            ClientState::Disconnected => true,
            _ => false,
        }
    }

    /// The peer this client is bound to, while it has one.
    pub fn remote_addr(&self) -> (r: Option<NetworkAddr>)
        ensures
            r == match self.spec_state() {
                ClientState::Disconnected => None::<NetworkAddr>,
                ClientState::Connecting(a, _) => Some(a),
                ClientState::Connected(vc) => Some(vc.spec_addrs()),
                ClientState::Disconnecting(_) => None::<NetworkAddr>,
            },
    {
        match &self.state {
            ClientState::Disconnected => None,
            ClientState::Connecting(a, _) => Some(*a),
            ClientState::Connected(vc) => Some(vc.addrs()),
            ClientState::Disconnecting(_) => None,
        }
    }

    /// The live connection, if fully established.
    pub fn connection(&self) -> (r: Result<&VirtualConnection, ConnectionError>)
        ensures
            match r {
                Ok(vc) => self.spec_state() matches ClientState::Connected(c) && *vc == c,
                Err(e) => !(self.spec_state() is Connected) && e == (match self.spec_state() {
                    ClientState::Disconnected => ConnectionError::Disconnected,
                    _ => ConnectionError::ConnectionNotReady,
                }),
            },
    {
        match &self.state {
            ClientState::Connected(vc) => Ok(vc),
            ClientState::Disconnected => Err(ConnectionError::Disconnected),
            _ => Err(ConnectionError::ConnectionNotReady),
        }
    }

    /// The sequence number the next sent payload will carry, without
    /// consuming it.
    pub fn next_sequence_number(&self) -> (r: Result<SequenceNumber, ConnectionError>)
        ensures
            match r {
                Ok(s) => self.spec_state() matches ClientState::Connected(vc) && s
                    == vc.spec_sent().spec_next(),
                Err(e) => !(self.spec_state() is Connected) && e == (match self.spec_state() {
                    ClientState::Disconnected => ConnectionError::Disconnected,
                    _ => ConnectionError::ConnectionNotReady,
                }),
            },
    {
        match &self.state {
            ClientState::Connected(vc) => Ok(vc.peek_next_sequence_number()),
            ClientState::Disconnected => Err(ConnectionError::Disconnected),
            _ => Err(ConnectionError::ConnectionNotReady),
        }
    }

    /// Start connecting to a server.
    pub fn connect(&mut self, addrs: NetworkAddr, now: u64)
        ensures
            final(self).wf(),
            final(self).spec_state() == ClientState::Connecting(addrs, now),
            final(self).spec_salt() == old(self).spec_salt(),
            final(self).spec_queue() == old(self).spec_queue(),
    {
        self.state = ClientState::Connecting(addrs, now);
    }

    /// The transport reported a send failure; the connection is torn down
    /// and the next event reports it.
    pub fn on_socket_error(&mut self, code: i32)
        ensures
            final(self).wf(),
            final(self).spec_state() == ClientState::Disconnecting(
                ClientDisconnectReason::SocketError(code),
            ),
            final(self).spec_salt() == old(self).spec_salt(),
            final(self).spec_queue() == old(self).spec_queue(),
    {
        self.state = ClientState::Disconnecting(ClientDisconnectReason::SocketError(code));
    }

    /// Periodic maintenance: while connecting, re-send the request or give
    /// up after the timeout; while connected, keep the link alive and
    /// detect a silent peer.
    pub fn update(&mut self, now: u64) -> (r: Vec<Datagram>)
        requires
            old(self).wf(),
        ensures
            final(self).wf(),
            final(self).spec_salt() == old(self).spec_salt(),
            final(self).spec_queue() == old(self).spec_queue(),
            match old(self).spec_state() {
                ClientState::Connecting(addr, t) => if elapsed_ms(now, t)
                    > CONNECTION_TIMEOUT_MS {
                    &&& final(self).spec_state() == ClientState::Disconnecting(
                        ClientDisconnectReason::TimedOut,
                    )
                    &&& r@.len() == 0
                } else {
                    &&& final(self).spec_state() == old(self).spec_state()
                    &&& r@.len() == 1
                    &&& r@[0].dest == addr
                    &&& r@[0].data@ == spec_frame(Packet::ConnectionRequest, old(self).spec_salt())
                },
                ClientState::Connected(vc) => {
                    let ka = elapsed_ms(now, vc.spec_last_send()) > KEEPALIVE_INTERVAL_MS;
                    let to = elapsed_ms(now, vc.spec_last_recv()) > CONNECTION_TIMEOUT_MS;
                    &&& (ka ==> r@.len() == 1 && r@[0].dest == vc.spec_addrs() && r@[0].data@
                        == spec_frame(Packet::KeepAlive(vc.spec_received()), old(self).spec_salt()))
                    &&& (!ka ==> r@.len() == 0)
                    &&& (to ==> final(self).spec_state() == ClientState::Disconnecting(
                        ClientDisconnectReason::TimedOut,
                    ))
                    &&& (!to ==> ((final(self).spec_state() matches ClientState::Connected(vc2)
                        && vc2.spec_addrs() == vc.spec_addrs() && vc2.spec_id() == vc.spec_id()
                        && vc2.spec_received() == vc.spec_received() && vc2.spec_sent()
                        == vc.spec_sent() && vc2.spec_last_recv() == vc.spec_last_recv()
                        && vc2.spec_last_send() == (if ka {
                        now
                    } else {
                        vc.spec_last_send()
                    }))))
                },
                _ => final(self).spec_state() == old(self).spec_state() && r@.len() == 0,
            },
    {
        let mut out: Vec<Datagram> = Vec::new();
        match &mut self.state {
            ClientState::Connecting(remote, start) => {
                let timed_out = (if now >= *start {
                    now - *start
                } else {
                    0
                }) > CONNECTION_TIMEOUT_MS;
                if timed_out {
                    self.state = ClientState::Disconnecting(ClientDisconnectReason::TimedOut);
                } else {
                    let frame = Packet::ConnectionRequest.write(self.salt.as_slice());
                    out.push(Datagram { dest: *remote, data: frame });
                }
            },
            ClientState::Connected(vc) => {
                let last_send = vc.last_packet_send();
                if (if now >= last_send {
                    now - last_send
                } else {
                    0
                }) > KEEPALIVE_INTERVAL_MS {
                    let frame = Packet::KeepAlive(vc.received_set()).write(self.salt.as_slice());
                    out.push(Datagram { dest: vc.addrs(), data: frame });
                    vc.on_send(now);
                }
                let last_recv = vc.last_packet_received();
                if (if now >= last_recv {
                    now - last_recv
                } else {
                    0
                }) > CONNECTION_TIMEOUT_MS {
                    self.state = ClientState::Disconnecting(ClientDisconnectReason::TimedOut);
                }
            },
            _ => {},
        }
        out
    }

    /// The next pending event: queued ack and loss notifications first,
    /// then a pending disconnect.
    pub fn next_event(&mut self) -> (r: Option<ClientEvent>)
        requires
            old(self).wf(),
        ensures
            final(self).wf(),
            final(self).spec_salt() == old(self).spec_salt(),
            if old(self).spec_queue().len() > 0 {
                &&& r == Some(
                    if old(self).spec_queue()[0].1 {
                        ClientEvent::PacketAcknowledged(old(self).spec_queue()[0].0)
                    } else {
                        ClientEvent::PacketLost(old(self).spec_queue()[0].0)
                    },
                )
                &&& final(self).spec_queue() == old(self).spec_queue().skip(1)
                &&& final(self).spec_state() == old(self).spec_state()
            } else if old(self).spec_state() is Disconnecting {
                &&& r == Some(
                    ClientEvent::Disconnected(old(self).spec_state()->Disconnecting_0),
                )
                &&& final(self).spec_state() is Disconnected
                &&& final(self).spec_queue() == old(self).spec_queue()
            } else {
                &&& r is None
                &&& final(self).spec_state() == old(self).spec_state()
                &&& final(self).spec_queue() == old(self).spec_queue()
            },
    {
        match self.ack_queue.pop_front() {
            Some((seq, acked)) => {
                if acked {
                    return Some(ClientEvent::PacketAcknowledged(seq));
                } else {
                    return Some(ClientEvent::PacketLost(seq));
                }
            },
            None => {},
        }
        let pending: Option<ClientDisconnectReason> = match &self.state {
            ClientState::Disconnecting(reason) => Some(*reason),
            _ => None,
        };
        match pending {
            Some(reason) => {
                self.state = ClientState::Disconnected;
                Some(ClientEvent::Disconnected(reason))
            },
            None => None,
        }
    }

    /// Send one payload over the connection; hands back the assigned
    /// sequence number and the framed datagram to transmit.
    pub fn send(&mut self, payload: &[u8], now: u64) -> (r: Result<
        (SequenceNumber, Datagram),
        ConnectionError,
    >)
        requires
            old(self).wf(),
            payload@.len() <= MAX_PAYLOAD_SIZE,
        ensures
            final(self).wf(),
            final(self).spec_salt() == old(self).spec_salt(),
            final(self).spec_queue() == old(self).spec_queue(),
            match old(self).spec_state() {
                ClientState::Connected(vc) => {
                    &&& r matches Ok((s, dg))
                    &&& r->Ok_0.0 == vc.spec_sent().spec_next()
                    &&& r->Ok_0.1.dest == vc.spec_addrs()
                    &&& r->Ok_0.1.data@ == spec_frame_bytes(
                        spec_payload_body(vc.spec_sent().spec_next(), vc.spec_received(), payload@),
                        old(self).spec_salt(),
                    )
                    &&& final(self).spec_state() matches ClientState::Connected(vc2)
                    &&& ({
                        let vc2 = final(self).spec_state()->Connected_0;
                        &&& vc2.spec_addrs() == vc.spec_addrs()
                        &&& vc2.spec_id() == vc.spec_id()
                        &&& vc2.spec_received() == vc.spec_received()
                        &&& vc2.spec_last_send() == now
                        &&& vc2.spec_last_recv() == vc.spec_last_recv()
                        &&& vc2.spec_sent().spec_newest() == vc.spec_sent().spec_next()
                        &&& vc2.spec_sent().spec_contains(vc.spec_sent().spec_next())
                        &&& vc2.spec_sent().spec_at(vc.spec_sent().spec_next()).send_time == now
                    })
                },
                ClientState::Disconnected => r == Err::<(SequenceNumber, Datagram),
                    ConnectionError,
                >(ConnectionError::Disconnected) && final(self).spec_state() == old(self).spec_state(),
                _ => r == Err::<(SequenceNumber, Datagram), ConnectionError>(
                    ConnectionError::ConnectionNotReady,
                ) && final(self).spec_state() == old(self).spec_state(),
            },
    {
        match &mut self.state {
            ClientState::Connected(vc) => {
                let seq = vc.next_sequence_number(now);
                let ack = vc.received_set();
                let data = crate::bytes::copy_bytes(payload);
                let frame = Packet::Payload(seq, ack, data).write(self.salt.as_slice());
                vc.on_send(now);
                Ok((seq, Datagram { dest: vc.addrs(), data: frame }))
            },
            ClientState::Disconnected => Err(ConnectionError::Disconnected),
            _ => Err(ConnectionError::ConnectionNotReady),
        }
    }

    /// Feed one incoming datagram through the state machine.  Unparsable
    /// frames, frames from an unexpected source, and frames that do not
    /// apply to the current state are silently dropped.  A replayed or
    /// ancient Payload updates nothing visible and emits no event.
    pub fn handle_datagram(&mut self, now: u64, data: &[u8], src: NetworkAddr) -> (r: Option<
        ClientEvent,
    >)
        requires
            old(self).wf(),
        ensures
            final(self).wf(),
            final(self).spec_salt() == old(self).spec_salt(),
            spec_parse_err(data@, old(self).spec_salt()) is Some ==> (r is None && final(self).spec_state() == old(self).spec_state() && final(self).spec_queue() == old(self).spec_queue()),
            spec_parse_err(data@, old(self).spec_salt()) is None ==> match old(self).spec_state() {
                ClientState::Connecting(remote, t) => if src == remote {
                    if data@[4] == 1 {
                        let id = crate::bytes::u16_from_be(data@[5], data@[6]);
                        &&& r == Some(ClientEvent::Connected(id))
                        &&& final(self).spec_state() matches ClientState::Connected(vc)
                        &&& ({
                            let vc = final(self).spec_state()->Connected_0;
                            &&& vc.spec_addrs() == src
                            &&& vc.spec_id() == id
                            &&& vc.spec_last_recv() == now
                            &&& vc.spec_last_send() == now
                            &&& forall|q: u16| !vc.spec_sent().spec_contains(q)
                            &&& forall|q: u16| vc.spec_received().spec_contains(q) <==> q == 0
                        })
                        &&& final(self).spec_queue() == old(self).spec_queue()
                    } else if data@[4] == 2 {
                        &&& r == Some(
                            ClientEvent::Disconnected(ClientDisconnectReason::ConnectionDenied),
                        )
                        &&& final(self).spec_state() is Disconnected
                        &&& final(self).spec_queue() == old(self).spec_queue()
                    } else {
                        r is None && final(self).spec_state() == old(self).spec_state() && final(self).spec_queue() == old(self).spec_queue()
                    }
                } else {
                    r is None && final(self).spec_state() == old(self).spec_state() && final(self).spec_queue() == old(self).spec_queue()
                },
                ClientState::Connected(vc0) => if src == vc0.spec_addrs() {
                    if data@[4] == 5 {
                        let seqn = crate::bytes::u16_from_be(data@[5], data@[6]);
                        let wire_ack = SequenceNumberSet::spec_from_bitfield(
                            crate::bytes::u16_from_be(data@[7], data@[8]),
                            crate::bytes::u32_from_be(data@[9], data@[10], data@[11], data@[12]),
                        );
                        let cls = classify(vc0.spec_received(), seqn);
                        let accepted = cls is Latest || cls is Fresh;
                        &&& final(self).spec_state() matches ClientState::Connected(vc2)
                        &&& ({
                            let vc2 = final(self).spec_state()->Connected_0;
                            &&& vc2.spec_addrs() == vc0.spec_addrs()
                            &&& vc2.spec_id() == vc0.spec_id()
                            &&& vc2.spec_received().spec_latest() == (if spec_greater_than(
                                seqn,
                                vc0.spec_received().spec_latest(),
                            ) {
                                seqn
                            } else {
                                vc0.spec_received().spec_latest()
                            })
                            &&& (accepted ==> {
                                &&& r is Some
                                &&& r->Some_0 matches ClientEvent::PacketReceived(lt, b)
                                &&& (r->Some_0 matches ClientEvent::PacketReceived(lt, b) ==> (lt
                                    == (cls is Latest)) && b@ == data@.skip(15))
                                &&& vc2.spec_last_recv() == now
                                &&& exists|notes: Seq<(u16, bool)>|
                                    final(self).spec_queue() == old(self).spec_queue() + notes
                                        && #[trigger] ack_notes_ok(
                                        vc0.spec_sent(),
                                        wire_ack,
                                        notes,
                                        vc2.spec_sent(),
                                    )
                            })
                            &&& (!accepted ==> r is None && final(self).spec_queue() == old(self).spec_queue() && vc2.spec_sent() == vc0.spec_sent()
                                && vc2.spec_last_recv() == vc0.spec_last_recv())
                        })
                    } else if data@[4] == 3 {
                        let wire_ack = SequenceNumberSet::spec_from_bitfield(
                            crate::bytes::u16_from_be(data@[5], data@[6]),
                            crate::bytes::u32_from_be(data@[7], data@[8], data@[9], data@[10]),
                        );
                        &&& r is None
                        &&& final(self).spec_state() matches ClientState::Connected(vc2)
                        &&& ({
                            let vc2 = final(self).spec_state()->Connected_0;
                            &&& vc2.spec_addrs() == vc0.spec_addrs()
                            &&& vc2.spec_id() == vc0.spec_id()
                            &&& vc2.spec_received() == vc0.spec_received()
                            &&& vc2.spec_last_recv() == now
                            &&& exists|notes: Seq<(u16, bool)>|
                                final(self).spec_queue() == old(self).spec_queue() + notes
                                    && #[trigger] ack_notes_ok(
                                    vc0.spec_sent(),
                                    wire_ack,
                                    notes,
                                    vc2.spec_sent(),
                                )
                        })
                    } else if data@[4] == 4 {
                        &&& r == Some(
                            ClientEvent::Disconnected(ClientDisconnectReason::Disconnected),
                        )
                        &&& final(self).spec_state() is Disconnected
                        &&& final(self).spec_queue() == old(self).spec_queue()
                    } else {
                        r is None && final(self).spec_state() == old(self).spec_state() && final(self).spec_queue() == old(self).spec_queue()
                    }
                } else {
                    r is None && final(self).spec_state() == old(self).spec_state() && final(self).spec_queue() == old(self).spec_queue()
                },
                _ => r is None && final(self).spec_state() == old(self).spec_state() && final(self).spec_queue() == old(self).spec_queue(),
            },
    {
        let packet = match Packet::from(data, self.salt.as_slice()) {
            Ok(p) => p,
            Err(_) => {
                return None;
            },
        };
        let mut notes: Vec<(SequenceNumber, bool)> = Vec::new();
        let event: Option<ClientEvent> = match &mut self.state {
            ClientState::Connecting(remote, _) => {
                if src == *remote {
                    match packet {
                        Packet::ConnectionAccepted(id) => {
                            self.state = ClientState::Connected(
                                VirtualConnection::new(src, id, now),
                            );
                            Some(ClientEvent::Connected(id))
                        },
                        Packet::ConnectionDenied => {
                            self.state = ClientState::Disconnected;
                            Some(
                                ClientEvent::Disconnected(ClientDisconnectReason::ConnectionDenied),
                            )
                        },
                        _ => None,
                    }
                } else {
                    None
                }
            },
            ClientState::Connected(vc) => {
                if src == vc.addrs() {
                    match packet {
                        Packet::Payload(seqn, ack, payload) => {
                            let cls = vc.handle_seq(seqn);
                            let is_latest: bool = match cls {
                                SequenceResult::Latest => true,
                                _ => false,
                            };
                            let is_fresh: bool = match cls {
                                SequenceResult::Fresh => true,
                                _ => false,
                            };
                            if is_latest || is_fresh {
                                vc.on_receive(now);
                                proof {
                                    SequenceNumberSet::lemma_from_bitfield(
                                        crate::bytes::u16_from_be(data@[7], data@[8]),
                                        crate::bytes::u32_from_be(
                                            data@[9],
                                            data@[10],
                                            data@[11],
                                            data@[12],
                                        ),
                                    );
                                    SequenceNumberSet::lemma_set_ext(
                                        ack,
                                        SequenceNumberSet::spec_from_bitfield(
                                            crate::bytes::u16_from_be(data@[7], data@[8]),
                                            crate::bytes::u32_from_be(
                                                data@[9],
                                                data@[10],
                                                data@[11],
                                                data@[12],
                                            ),
                                        ),
                                    );
                                }
                                let ghost sent_before = vc.spec_sent();
                                notes = vc.handle_ack(ack, now);
                                proof {
                                    assert(ack_notes_ok(sent_before, ack, notes@, vc.spec_sent()));
                                }
                                Some(ClientEvent::PacketReceived(is_latest, payload))
                            } else {
                                None
                            }
                        },
                        Packet::KeepAlive(ack) => {
                            vc.on_receive(now);
                            proof {
                                SequenceNumberSet::lemma_from_bitfield(
                                    crate::bytes::u16_from_be(data@[5], data@[6]),
                                    crate::bytes::u32_from_be(
                                        data@[7],
                                        data@[8],
                                        data@[9],
                                        data@[10],
                                    ),
                                );
                                SequenceNumberSet::lemma_set_ext(
                                    ack,
                                    SequenceNumberSet::spec_from_bitfield(
                                        crate::bytes::u16_from_be(data@[5], data@[6]),
                                        crate::bytes::u32_from_be(
                                            data@[7],
                                            data@[8],
                                            data@[9],
                                            data@[10],
                                        ),
                                    ),
                                );
                            }
                            let ghost sent_before = vc.spec_sent();
                            notes = vc.handle_ack(ack, now);
                            proof {
                                assert(ack_notes_ok(sent_before, ack, notes@, vc.spec_sent()));
                            }
                            None
                        },
                        Packet::Disconnect => {
                            self.state = ClientState::Disconnected;
                            Some(ClientEvent::Disconnected(ClientDisconnectReason::Disconnected))
                        },
                        _ => None,
                    }
                } else {
                    None
                }
            },
            _ => None,
        };
        let ghost q0 = self.ack_queue@;
        let ghost mid = *self;
        let mut i: usize = 0;
        while i < notes.len()
            invariant
                i <= notes@.len(),
                self.ack_queue@ == q0 + notes@.take(i as int),
                self.salt == mid.salt,
                self.state == mid.state,
            decreases notes@.len() - i,
        {
            self.ack_queue.push_back(notes[i]);
            proof {
                assert(self.ack_queue@ =~= q0 + notes@.take(i + 1));
            }
            i = i + 1;
        }
        proof {
            assert(notes@.take(notes@.len() as int) =~= notes@);
        }
        event
    }

    /// Close the connection gracefully: a burst of Disconnect frames goes
    /// out best-effort, and the next event reports the disconnect.
    pub fn disconnect(&mut self) -> (r: Result<Vec<Datagram>, ConnectionError>)
        requires
            old(self).wf(),
        ensures
            final(self).wf(),
            final(self).spec_salt() == old(self).spec_salt(),
            final(self).spec_queue() == old(self).spec_queue(),
            match old(self).spec_state() {
                ClientState::Connected(vc) => {
                    &&& r matches Ok(v)
                    &&& r->Ok_0@.len() == 10
                    &&& forall|i: int|
                        0 <= i < 10 ==> (#[trigger] r->Ok_0@[i]).dest == vc.spec_addrs()
                            && r->Ok_0@[i].data@ == spec_frame(
                            Packet::Disconnect,
                            old(self).spec_salt(),
                        )
                    &&& final(self).spec_state() == ClientState::Disconnecting(
                        ClientDisconnectReason::Disconnected,
                    )
                },
                ClientState::Disconnected => r == Err::<Vec<Datagram>, ConnectionError>(
                    ConnectionError::Disconnected,
                ) && final(self).spec_state() == old(self).spec_state(),
                _ => r == Err::<Vec<Datagram>, ConnectionError>(ConnectionError::ConnectionNotReady)
                    && final(self).spec_state() == old(self).spec_state(),
            },
    {
        let dest: NetworkAddr = match &self.state {
            ClientState::Connected(vc) => vc.addrs(),
            ClientState::Disconnected => {
                return Err(ConnectionError::Disconnected);
            },
            _ => {
                return Err(ConnectionError::ConnectionNotReady);
            },
        };
        let mut out: Vec<Datagram> = Vec::new();
        let mut i: usize = 0;
        while i < 10
            invariant
                i <= 10,
                out@.len() == i,
                forall|k: int|
                    0 <= k < i ==> (#[trigger] out@[k]).dest == dest && out@[k].data@ == spec_frame(
                        Packet::Disconnect,
                        old(self).spec_salt(),
                    ),
                self.spec_salt() == old(self).spec_salt(),
                self.spec_state() == old(self).spec_state(),
                self.spec_queue() == old(self).spec_queue(),
                self.wf(),
            decreases 10 - i,
        {
            let frame = Packet::Disconnect.write(self.salt.as_slice());
            out.push(Datagram { dest, data: frame });
            i = i + 1;
        }
        self.state = ClientState::Disconnecting(ClientDisconnectReason::Disconnected);
        Ok(out)
    }
}

} // verus!
