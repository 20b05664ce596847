//! The acceptor endpoint: a fixed roster of per-peer connection state
//! machines indexed by slot id.
//!
//! Like the client, the server is a pure protocol engine: time is an
//! argument, datagrams come in through [`Server::handle_datagram`], and
//! outgoing frames are handed back to the caller.

use vstd::prelude::*;
use std::collections::VecDeque;
use crate::connection::{ack_notes_ok, classify, elapsed_ms, SequenceResult, VirtualConnection};
use crate::constants::{CONNECTION_TIMEOUT_MS, KEEPALIVE_INTERVAL_MS, MAX_PAYLOAD_SIZE};
use crate::error::ConnectionError;
use crate::packets::{spec_frame, spec_frame_bytes, spec_parse_err, spec_payload_body, Packet};
use crate::sequencing::{spec_greater_than, SequenceNumber, SequenceNumberSet};
use crate::socket::{Datagram, NetworkAddr};

verus! {

/// Why a client's slot was torn down.
#[derive(Debug, Clone, Copy, PartialEq, Eq, Structural)]
pub enum ServerDisconnectReason {
    /// The peer or the local side closed the connection.
    Disconnected,
    /// The peer went silent for longer than the connection timeout.
    TimedOut,
    /// The transport failed for this peer; the raw OS error code is
    /// carried along.
    SocketError(i32),
}

/// What the server reports to its host.
#[derive(Debug, PartialEq)]
pub enum ServerEvent {
    ClientConnected(u16),
    ClientDisconnected(u16, ServerDisconnectReason),
    /// A payload arrived from the slot; the flag says whether it bore the
    /// newest sequence number seen from that peer.
    PacketReceived(u16, bool, Vec<u8>),
    PacketAcknowledged(u16, SequenceNumber),
}

/// One roster slot's lifecycle; the server is passive, so there is no
/// connecting phase.
pub enum ClientState {
    Disconnected,
    Connected(VirtualConnection),
    /// A disconnect reason waiting to be reported.
    Disconnecting(ServerDisconnectReason),
}

/// Whether slot `i` holds the connected peer at address `a`.
pub open spec fn conn_at(slots: Seq<ClientState>, i: int, a: NetworkAddr) -> bool {
    slots[i] matches ClientState::Connected(vc) && vc.spec_addrs() == a
}

/// The first connected slot for address `a`, searching from `i`.
pub open spec fn spec_find_from(slots: Seq<ClientState>, a: NetworkAddr, i: int) -> Option<int>
    decreases slots.len() - i,
{
    if i < 0 || i >= slots.len() {
        None
    } else if conn_at(slots, i, a) {
        Some(i)
    } else {
        spec_find_from(slots, a, i + 1)
    }
}

/// The slot of the connected peer at address `a`, if any.
pub open spec fn spec_find(slots: Seq<ClientState>, a: NetworkAddr) -> Option<int> {
    spec_find_from(slots, a, 0)
}

/// The first free slot, searching from `i`.
pub open spec fn spec_free_from(slots: Seq<ClientState>, i: int) -> Option<int>
    decreases slots.len() - i,
{
    if i < 0 || i >= slots.len() {
        None
    } else if slots[i] is Disconnected {
        Some(i)
    } else {
        spec_free_from(slots, i + 1)
    }
}

/// The slot a new connection would be admitted into, if any.
pub open spec fn spec_free(slots: Seq<ClientState>) -> Option<int> {
    spec_free_from(slots, 0)
}

/// The first slot with a pending disconnect, searching from `i`.
pub open spec fn spec_disconnecting_from(slots: Seq<ClientState>, i: int) -> Option<int>
    decreases slots.len() - i,
{
    if i < 0 || i >= slots.len() {
        None
    } else if slots[i] is Disconnecting {
        Some(i)
    } else {
        spec_disconnecting_from(slots, i + 1)
    }
}

/// The ack-queue entries a batch of notifications adds for slot `id`:
/// only the acknowledged ones, keyed by the slot.
pub open spec fn acked_pairs(id: u16, notes: Seq<(u16, bool)>) -> Seq<(u16, u16)>
    decreases notes.len(),
{
    if notes.len() == 0 {
        Seq::empty()
    } else {
        let rest = acked_pairs(id, notes.drop_last());
        if notes.last().1 {
            rest.push((id, notes.last().0))
        } else {
            rest
        }
    }
}

/// Every connected slot holds a well-formed connection carrying its own
/// slot id, and no two connected slots share an address.
pub open spec fn slots_wf(slots: Seq<ClientState>) -> bool {
    &&& forall|i: int|
        0 <= i < slots.len() ==> ((#[trigger] slots[i]) matches ClientState::Connected(vc)
            ==> vc.wf() && vc.spec_id() == i)
    &&& forall|i: int, j: int|
        #![trigger slots[i], slots[j]]
        (0 <= i < j < slots.len() && (slots[i] matches ClientState::Connected(v1) && (slots[j]
            matches ClientState::Connected(v2) && v1.spec_addrs() == v2.spec_addrs()))) ==> false
}

/// An unmatched search from `i` means no slot from `i` on matches.
pub proof fn lemma_find_none(slots: Seq<ClientState>, a: NetworkAddr, i: int)
    requires
        spec_find_from(slots, a, i) is None,
        0 <= i,
    ensures
        forall|j: int| i <= j < slots.len() ==> !conn_at(slots, j, a),
    decreases slots.len() - i,
{
    if i < slots.len() {
        lemma_find_none(slots, a, i + 1);
    }
}

/// A found slot matches, and nothing before it does.
pub proof fn lemma_find_some(slots: Seq<ClientState>, a: NetworkAddr, i: int, j: int)
    requires
        spec_find_from(slots, a, i) == Some(j),
        0 <= i,
    ensures
        i <= j < slots.len(),
        conn_at(slots, j, a),
        forall|k: int| i <= k < j ==> !conn_at(slots, k, a),
    decreases slots.len() - i,
{
    if i < slots.len() && !conn_at(slots, i, a) {
        lemma_find_some(slots, a, i + 1, j);
    }
}

/// A found free slot is free.
pub proof fn lemma_free_some(slots: Seq<ClientState>, i: int, j: int)
    requires
        spec_free_from(slots, i) == Some(j),
        0 <= i,
    ensures
        i <= j < slots.len(),
        slots[j] is Disconnected,
    decreases slots.len() - i,
{
    if i < slots.len() && !(slots[i] is Disconnected) {
        lemma_free_some(slots, i + 1, j);
    }
}

/// Replacing one slot keeps the roster well-formed when the replacement is
/// not connected, keeps the previous occupant's address, or brings an
/// address no other slot holds.
pub proof fn lemma_slots_wf_update(slots: Seq<ClientState>, i: int, st: ClientState)
    requires
        slots_wf(slots),
        0 <= i < slots.len(),
        st matches ClientState::Connected(vc) ==> vc.wf() && vc.spec_id() == i && ((slots[i]
            matches ClientState::Connected(v0) && v0.spec_addrs() == vc.spec_addrs()) || (forall|
            k: int,
        |
            0 <= k < slots.len() ==> !conn_at(slots, k, vc.spec_addrs()))),
    ensures
        slots_wf(slots.update(i, st)),
{
    let slots2 = slots.update(i, st);
    assert forall|a: int|
        0 <= a < slots2.len() implies ((#[trigger] slots2[a]) matches ClientState::Connected(vc)
        ==> vc.wf() && vc.spec_id() == a) by {
        if a != i {
            assert(slots2[a] == slots[a]);
        }
    }
    assert forall|a: int, b: int|
        #![trigger slots2[a], slots2[b]]
        (0 <= a < b < slots2.len() && (slots2[a] matches ClientState::Connected(v1) && (slots2[b]
            matches ClientState::Connected(v2) && v1.spec_addrs() == v2.spec_addrs())))
        implies false by {
        if a != i && b != i {
            assert(slots2[a] == slots[a] && slots2[b] == slots[b]);
        } else {
            let o = if a == i {
                b
            } else {
                a
            };
            assert(slots2[o] == slots[o]);
            assert(conn_at(slots, o, st->Connected_0.spec_addrs()));
        }
    }
}

/// The keep-alive frames one maintenance pass emits, in slot order: the
/// destination and bytes for every connected slot whose send timer is due.
pub open spec fn due_keepalives(slots: Seq<ClientState>, now: u64, salt: Seq<u8>) -> Seq<
    (NetworkAddr, Seq<u8>),
>
    decreases slots.len(),
{
    if slots.len() == 0 {
        Seq::empty()
    } else {
        let rest = due_keepalives(slots.drop_last(), now, salt);
        if slot_due(slots.last(), now) {
            rest.push(
                (
                    slots.last()->Connected_0.spec_addrs(),
                    spec_frame(Packet::KeepAlive(slots.last()->Connected_0.spec_received()), salt),
                ),
            )
        } else {
            rest
        }
    }
}

/// Whether a keep-alive is due for the slot.
pub open spec fn slot_due(s: ClientState, now: u64) -> bool {
    s matches ClientState::Connected(vc) && elapsed_ms(now, vc.spec_last_send())
        > KEEPALIVE_INTERVAL_MS
}

/// How one maintenance pass changes a slot: a silent peer's slot starts
/// disconnecting; a live one stays, with its send timer refreshed when a
/// keep-alive went out.
pub open spec fn slot_updated(pre: ClientState, post: ClientState, now: u64) -> bool {
    match pre {
        ClientState::Connected(vc) => {
            let ka = elapsed_ms(now, vc.spec_last_send()) > KEEPALIVE_INTERVAL_MS;
            let to = elapsed_ms(now, vc.spec_last_recv()) > CONNECTION_TIMEOUT_MS;
            if to {
                post == ClientState::Disconnecting(ServerDisconnectReason::TimedOut)
            } else {
                &&& post is Connected
                &&& post->Connected_0.spec_addrs() == vc.spec_addrs()
                &&& post->Connected_0.spec_id() == vc.spec_id()
                &&& post->Connected_0.spec_received() == vc.spec_received()
                &&& post->Connected_0.spec_sent() == vc.spec_sent()
                &&& post->Connected_0.spec_last_recv() == vc.spec_last_recv()
                &&& post->Connected_0.spec_last_send() == (if ka {
                    now
                } else {
                    vc.spec_last_send()
                })
                &&& post->Connected_0.spec_rtt() == vc.spec_rtt()
                &&& post->Connected_0.spec_packet_loss() == vc.spec_packet_loss()
            }
        },
        _ => post == pre,
    }
}

/// The acceptor endpoint.
pub struct Server {
    salt: Vec<u8>,
    clients: Vec<ClientState>,
    ack_queue: VecDeque<(u16, SequenceNumber)>,
}

impl Server {
    /// The application identifier bytes mixed into every frame's checksum.
    pub closed spec fn spec_salt(self) -> Seq<u8> {
        self.salt@
    }

    /// The roster, one state per slot id.
    pub closed spec fn spec_slots(self) -> Seq<ClientState> {
        self.clients@
    }

    /// Pending (slot, sequence) acknowledgement notifications.
    pub closed spec fn spec_queue(self) -> Seq<(u16, SequenceNumber)> {
        self.ack_queue@
    }

    /// Every connected slot holds a well-formed connection carrying its
    /// own slot id, and no two connected slots share an address.
    pub open spec fn wf(self) -> bool {
        &&& self.spec_slots().len() <= 0xFFFF
        &&& slots_wf(self.spec_slots())
    }

    /// A fresh server with an empty roster of `max_clients` slots.
    pub fn new(identifier: &[u8], max_clients: u16) -> (r: Self)
        ensures
            r.wf(),
            r.spec_salt() == identifier@,
            r.spec_slots().len() == max_clients as int,
            forall|i: int| 0 <= i < max_clients as int ==> r.spec_slots()[i] is Disconnected,
            r.spec_queue() == Seq::<(u16, SequenceNumber)>::empty(),
    {
        let mut clients: Vec<ClientState> = Vec::new();
        let mut i: usize = 0;
        while i < max_clients as usize
            invariant
                i <= max_clients as usize,
                clients@.len() == i as int,
                forall|j: int| 0 <= j < i ==> clients@[j] is Disconnected,
            decreases max_clients as usize - i,
        {
            clients.push(ClientState::Disconnected);
            i = i + 1;
        }
        Self { salt: crate::bytes::copy_bytes(identifier), clients, ack_queue: VecDeque::new() }
    }

    /// The ids of all currently connected clients, ascending.
    pub fn connected_clients(&self) -> (r: Vec<u16>)
        requires
            self.wf(),
        ensures
            forall|k: int|
                0 <= k < r@.len() ==> self.spec_slots()[#[trigger] r@[k] as int] is Connected,
            forall|i: int|
                0 <= i < self.spec_slots().len() && self.spec_slots()[i] is Connected
                    ==> r@.contains(i as u16),
            forall|k1: int, k2: int| 0 <= k1 < k2 < r@.len() ==> r@[k1] < r@[k2],
    {
        let mut out: Vec<u16> = Vec::new();
        let mut i: usize = 0;
        while i < self.clients.len()
            invariant
                self.wf(),
                i <= self.spec_slots().len(),
                forall|k: int|
                    0 <= k < out@.len() ==> (#[trigger] out@[k]) < i
                        && self.spec_slots()[out@[k] as int] is Connected,
                forall|j: int|
                    0 <= j < i && self.spec_slots()[j] is Connected ==> out@.contains(j as u16),
                forall|k1: int, k2: int| 0 <= k1 < k2 < out@.len() ==> out@[k1] < out@[k2],
            decreases self.spec_slots().len() - i,
        {
            let ghost prev = out@;
            let connected: bool = match &self.clients[i] {
                ClientState::Connected(_) => true,
                _ => false,
            };
            if connected {
                out.push(i as u16);
                proof {
                    assert(out@[out@.len() - 1] == i as u16);
                }
            }
            proof {
                assert forall|j: int|
                    0 <= j < i + 1 && self.spec_slots()[j] is Connected implies out@.contains(
                    j as u16,
                ) by {
                    if j < i {
                        let k = choose|k: int| 0 <= k < prev.len() && #[trigger] prev[k] == j as u16;
                        assert(out@[k] == j as u16);
                    }
                }
            }
            i = i + 1;
        }
        out
    }

    /// The live connection in a slot.
    pub fn connection(&self, client_id: u16) -> (r: Result<&VirtualConnection, ConnectionError>)
        ensures
            match r {
                Ok(vc) => ({
                    &&& (client_id as int) < self.spec_slots().len()
                    &&& (self.spec_slots()[client_id as int] matches ClientState::Connected(c)
                        && *vc == c)
                }),
                Err(e) => ((client_id as int) >= self.spec_slots().len() || !(self.spec_slots()[client_id as int] is Connected)) && e == (
                if (client_id as int) >= self.spec_slots().len() || self.spec_slots()[client_id as int] is Disconnected {
                    ConnectionError::Disconnected
                } else {
                    ConnectionError::ConnectionNotReady
                }),
            },
    {
        if client_id as usize >= self.clients.len() {
            return Err(ConnectionError::Disconnected);
        }
        match &self.clients[client_id as usize] {
            ClientState::Connected(vc) => Ok(vc),
            ClientState::Disconnected => Err(ConnectionError::Disconnected),
            _ => Err(ConnectionError::ConnectionNotReady),
        }
    }

    /// The sequence number the next payload to this client will carry.
    pub fn next_sequence_number(&self, client_id: u16) -> (r: Result<
        SequenceNumber,
        ConnectionError,
    >)
        ensures
            match r {
                Ok(s) => ({
                    &&& (client_id as int) < self.spec_slots().len()
                    &&& (self.spec_slots()[client_id as int] matches ClientState::Connected(c)
                        && s == c.spec_sent().spec_next())
                }),
                Err(_) => (client_id as int) >= self.spec_slots().len() || !(self.spec_slots()[client_id as int] is Connected),
            },
    {
        match self.connection(client_id) {
            Ok(vc) => Ok(vc.peek_next_sequence_number()),
            Err(e) => Err(e),
        }
    }

    /// The transport failed when sending to this slot; it is torn down and
    /// the next event reports it.
    pub fn on_socket_error(&mut self, client_id: u16, code: i32)
        requires
            old(self).wf(),
            (client_id as int) < old(self).spec_slots().len(),
        ensures
            final(self).wf(),
            final(self).spec_salt() == old(self).spec_salt(),
            final(self).spec_queue() == old(self).spec_queue(),
            final(self).spec_slots() == old(self).spec_slots().update(
                client_id as int,
                ClientState::Disconnecting(ServerDisconnectReason::SocketError(code)),
            ),
    {
        self.clients.set(
            client_id as usize,
            ClientState::Disconnecting(ServerDisconnectReason::SocketError(code)),
        );
    }

    /// The slot holding the connected peer at the given address.
    fn find_by_addrs(&self, addrs: NetworkAddr) -> (r: Option<usize>)
        ensures
            match r {
                Some(i) => spec_find(self.spec_slots(), addrs) == Some(i as int),
                None => spec_find(self.spec_slots(), addrs) is None,
            },
    {
        let mut i: usize = 0;
        while i < self.clients.len()
            invariant
                i <= self.spec_slots().len(),
                spec_find(self.spec_slots(), addrs) == spec_find_from(
                    self.spec_slots(),
                    addrs,
                    i as int,
                ),
            decreases self.spec_slots().len() - i,
        {
            let hit: bool = match &self.clients[i] {
                ClientState::Connected(vc) => vc.addrs() == addrs,
                _ => false,
            };
            if hit {
                return Some(i);
            }
            i = i + 1;
        }
        None
    }

    /// The first free slot.
    fn find_free(&self) -> (r: Option<usize>)
        ensures
            match r {
                Some(i) => spec_free(self.spec_slots()) == Some(i as int),
                None => spec_free(self.spec_slots()) is None,
            },
    {
        let mut i: usize = 0;
        while i < self.clients.len()
            invariant
                i <= self.spec_slots().len(),
                spec_free(self.spec_slots()) == spec_free_from(self.spec_slots(), i as int),
            decreases self.spec_slots().len() - i,
        {
            let free: bool = match &self.clients[i] {
                ClientState::Disconnected => true,
                _ => false,
            };
            if free {
                return Some(i);
            }
            i = i + 1;
        }
        None
    }

    /// Periodic maintenance over every slot: keep live links alive and
    /// tear down silent peers.
    #[verifier::rlimit(100)]
    pub fn update(&mut self, now: u64) -> (r: Vec<Datagram>)
        requires
            old(self).wf(),
        ensures
            final(self).wf(),
            final(self).spec_salt() == old(self).spec_salt(),
            final(self).spec_queue() == old(self).spec_queue(),
            final(self).spec_slots().len() == old(self).spec_slots().len(),
            forall|i: int|
                0 <= i < old(self).spec_slots().len() ==> slot_updated(
                    old(self).spec_slots()[i],
                    #[trigger] final(self).spec_slots()[i],
                    now,
                ),
            ({
                let views = due_keepalives(old(self).spec_slots(), now, old(self).spec_salt());
                &&& r@.len() == views.len()
                &&& forall|k: int|
                    0 <= k < r@.len() ==> ((#[trigger] r@[k]).dest, r@[k].data@) == views[k]
            }),
    {
        let ghost slots0 = old(self).spec_slots();
        let mut out: Vec<Datagram> = Vec::new();
        let mut i: usize = 0;
        while i < self.clients.len()
            invariant
                old(self).wf(),
                slots0 == old(self).spec_slots(),
                self.spec_salt() == old(self).spec_salt(),
                self.spec_queue() == old(self).spec_queue(),
                self.spec_slots().len() == slots0.len(),
                i <= slots0.len(),
                self.wf(),
                forall|j: int|
                    0 <= j < i ==> slot_updated(slots0[j], #[trigger] self.spec_slots()[j], now),
                forall|j: int| i <= j < slots0.len() ==> self.spec_slots()[j] == slots0[j],
                ({
                    let views = due_keepalives(
                        slots0.take(i as int),
                        now,
                        old(self).spec_salt(),
                    );
                    &&& out@.len() == views.len()
                    &&& forall|k: int|
                        0 <= k < out@.len() ==> ((#[trigger] out@[k]).dest, out@[k].data@)
                            == views[k]
                }),
            decreases slots0.len() - i,
        {
            let ghost out_prev = out@;
            let ghost prev_slots = self.spec_slots();
            match &mut self.clients[i] {
                ClientState::Connected(vc) => {
                    let last_send = vc.last_packet_send();
                    if (if now >= last_send {
                        now - last_send
                    } else {
                        0
                    }) > KEEPALIVE_INTERVAL_MS {
                        let frame = Packet::KeepAlive(vc.received_set()).write(
                            self.salt.as_slice(),
                        );
                        out.push(Datagram { dest: vc.addrs(), data: frame });
                        vc.on_send(now);
                    }
                    let last_recv = vc.last_packet_received();
                    if (if now >= last_recv {
                        now - last_recv
                    } else {
                        0
                    }) > CONNECTION_TIMEOUT_MS {
                        self.clients.set(
                            i,
                            ClientState::Disconnecting(ServerDisconnectReason::TimedOut),
                        );
                    }
                },
                _ => {},
            }
            proof {
                assert(self.spec_slots() =~= prev_slots.update(
                    i as int,
                    self.spec_slots()[i as int],
                ));
                lemma_slots_wf_update(prev_slots, i as int, self.spec_slots()[i as int]);
                assert(slots0.take(i + 1).drop_last() =~= slots0.take(i as int));
                assert(slots0.take(i + 1).last() == slots0[i as int]);
            }
            i = i + 1;
        }
        proof {
            assert(slots0.take(slots0.len() as int) =~= slots0);
        }
        out
    }

    /// Feed one incoming datagram through the roster.  Unparsable frames
    /// and frames from unknown sources are dropped; a connection request
    /// is admitted, re-acknowledged, or denied; payloads, keep-alives and
    /// disconnects drive the sender's slot.  Replayed or ancient payloads
    /// update nothing visible and emit no event.
    pub fn handle_datagram(&mut self, now: u64, data: &[u8], src: NetworkAddr) -> (r: (
        Vec<Datagram>,
        Option<ServerEvent>,
    ))
        requires
            old(self).wf(),
        ensures
            final(self).wf(),
            final(self).spec_salt() == old(self).spec_salt(),
            final(self).spec_slots().len() == old(self).spec_slots().len(),
            spec_parse_err(data@, old(self).spec_salt()) is Some ==> (r.1 is None && r.0@.len()
                == 0 && final(self).spec_slots() == old(self).spec_slots() && final(self).spec_queue() == old(self).spec_queue()),
            spec_parse_err(data@, old(self).spec_salt()) is None ==> ({
                let slots0 = old(self).spec_slots();
                let found = spec_find(slots0, src);
                if data@[4] == 0 {
                    match found {
                        Some(i) => {
                            &&& r.1 is None
                            &&& r.0@.len() == 1
                            &&& r.0@[0].dest == src
                            &&& r.0@[0].data@ == spec_frame(
                                Packet::ConnectionAccepted(i as u16),
                                old(self).spec_salt(),
                            )
                            &&& final(self).spec_queue() == old(self).spec_queue()
                            &&& forall|j: int|
                                0 <= j < slots0.len() && j != i ==> final(self).spec_slots()[j]
                                    == #[trigger] slots0[j]
                            &&& final(self).spec_slots()[i] matches ClientState::Connected(vc2)
                            &&& ({
                                let vc0 = slots0[i]->Connected_0;
                                let vc2 = final(self).spec_slots()[i]->Connected_0;
                                &&& vc2.spec_addrs() == vc0.spec_addrs()
                                &&& vc2.spec_id() == vc0.spec_id()
                                &&& vc2.spec_last_recv() == now
                                &&& vc2.spec_last_send() == now
                                &&& vc2.spec_received() == vc0.spec_received()
                                &&& vc2.spec_sent() == vc0.spec_sent()
                            })
                        },
                        None => match spec_free(slots0) {
                            Some(j) => {
                                &&& r.1 == Some(ServerEvent::ClientConnected(j as u16))
                                &&& r.0@.len() == 1
                                &&& r.0@[0].dest == src
                                &&& r.0@[0].data@ == spec_frame(
                                    Packet::ConnectionAccepted(j as u16),
                                    old(self).spec_salt(),
                                )
                                &&& final(self).spec_queue() == old(self).spec_queue()
                                &&& forall|k: int|
                                    0 <= k < slots0.len() && k != j ==> final(self).spec_slots()[k] == #[trigger] slots0[k]
                                &&& final(self).spec_slots()[j] matches ClientState::Connected(
                                    vc2,
                                )
                                &&& ({
                                    let vc2 = final(self).spec_slots()[j]->Connected_0;
                                    &&& vc2.spec_addrs() == src
                                    &&& vc2.spec_id() == j as u16
                                    &&& vc2.spec_last_recv() == now
                                    &&& vc2.spec_last_send() == now
                                })
                            },
                            None => {
                                &&& r.1 is None
                                &&& r.0@.len() == 1
                                &&& r.0@[0].dest == src
                                &&& r.0@[0].data@ == spec_frame(
                                    Packet::ConnectionDenied,
                                    old(self).spec_salt(),
                                )
                                &&& final(self).spec_slots() == slots0
                                &&& final(self).spec_queue() == old(self).spec_queue()
                            },
                        },
                    }
                } else if data@[4] == 5 {
                    match found {
                        Some(i) => {
                            let vc0 = slots0[i]->Connected_0;
                            let seqn = crate::bytes::u16_from_be(data@[5], data@[6]);
                            let wire_ack = SequenceNumberSet::spec_from_bitfield(
                                crate::bytes::u16_from_be(data@[7], data@[8]),
                                crate::bytes::u32_from_be(
                                    data@[9],
                                    data@[10],
                                    data@[11],
                                    data@[12],
                                ),
                            );
                            let cls = classify(vc0.spec_received(), seqn);
                            let accepted = cls is Latest || cls is Fresh;
                            &&& r.0@.len() == 0
                            &&& forall|j: int|
                                0 <= j < slots0.len() && j != i ==> final(self).spec_slots()[j]
                                    == #[trigger] slots0[j]
                            &&& final(self).spec_slots()[i] matches ClientState::Connected(vc2)
                            &&& ({
                                let vc2 = final(self).spec_slots()[i]->Connected_0;
                                &&& vc2.spec_addrs() == vc0.spec_addrs()
                                &&& vc2.spec_id() == vc0.spec_id()
                                &&& (accepted ==> {
                                    &&& r.1 is Some
                                    &&& (r.1->Some_0 matches ServerEvent::PacketReceived(
                                        id,
                                        lt,
                                        b,
                                    ) ==> id == i as u16 && lt == (cls is Latest) && b@
                                        == data@.skip(15))
                                    &&& (r.1->Some_0 is PacketReceived)
                                    &&& vc2.spec_last_recv() == now
                                    &&& exists|notes: Seq<(u16, bool)>|
                                        final(self).spec_queue() == old(self).spec_queue()
                                            + acked_pairs(i as u16, notes) && #[trigger] ack_notes_ok(
                                            vc0.spec_sent(),
                                            wire_ack,
                                            notes,
                                            vc2.spec_sent(),
                                        )
                                })
                                &&& (!accepted ==> r.1 is None && final(self).spec_queue() == old(self).spec_queue() && vc2.spec_sent() == vc0.spec_sent()
                                    && vc2.spec_last_recv() == vc0.spec_last_recv())
                            })
                        },
                        None => {
                            &&& r.1 is None
                            &&& r.0@.len() == 0
                            &&& final(self).spec_slots() == slots0
                            &&& final(self).spec_queue() == old(self).spec_queue()
                        },
                    }
                } else if data@[4] == 3 {
                    match found {
                        Some(i) => {
                            let vc0 = slots0[i]->Connected_0;
                            let wire_ack = SequenceNumberSet::spec_from_bitfield(
                                crate::bytes::u16_from_be(data@[5], data@[6]),
                                crate::bytes::u32_from_be(data@[7], data@[8], data@[9], data@[10]),
                            );
                            &&& r.1 is None
                            &&& r.0@.len() == 0
                            &&& forall|j: int|
                                0 <= j < slots0.len() && j != i ==> final(self).spec_slots()[j]
                                    == #[trigger] slots0[j]
                            &&& final(self).spec_slots()[i] matches ClientState::Connected(vc2)
                            &&& ({
                                let vc2 = final(self).spec_slots()[i]->Connected_0;
                                &&& vc2.spec_addrs() == vc0.spec_addrs()
                                &&& vc2.spec_id() == vc0.spec_id()
                                &&& vc2.spec_received() == vc0.spec_received()
                                &&& vc2.spec_last_recv() == now
                                &&& exists|notes: Seq<(u16, bool)>|
                                    final(self).spec_queue() == old(self).spec_queue()
                                        + acked_pairs(i as u16, notes) && #[trigger] ack_notes_ok(
                                        vc0.spec_sent(),
                                        wire_ack,
                                        notes,
                                        vc2.spec_sent(),
                                    )
                            })
                        },
                        None => {
                            &&& r.1 is None
                            &&& r.0@.len() == 0
                            &&& final(self).spec_slots() == slots0
                            &&& final(self).spec_queue() == old(self).spec_queue()
                        },
                    }
                } else if data@[4] == 4 {
                    match found {
                        Some(i) => {
                            &&& r.1 == Some(
                                ServerEvent::ClientDisconnected(
                                    i as u16,
                                    ServerDisconnectReason::Disconnected,
                                ),
                            )
                            &&& r.0@.len() == 0
                            &&& final(self).spec_slots() == slots0.update(
                                i,
                                ClientState::Disconnected,
                            )
                            &&& final(self).spec_queue() == old(self).spec_queue()
                        },
                        None => {
                            &&& r.1 is None
                            &&& r.0@.len() == 0
                            &&& final(self).spec_slots() == slots0
                            &&& final(self).spec_queue() == old(self).spec_queue()
                        },
                    }
                } else {
                    &&& r.1 is None
                    &&& r.0@.len() == 0
                    &&& final(self).spec_slots() == slots0
                    &&& final(self).spec_queue() == old(self).spec_queue()
                }
            }),
    {
        let packet = match Packet::from(data, self.salt.as_slice()) {
            Ok(p) => p,
            Err(_) => {
                return (Vec::new(), None);
            },
        };
        let found = self.find_by_addrs(src);
        let mut out: Vec<Datagram> = Vec::new();
        let mut notes: Vec<(u16, bool)> = Vec::new();
        let mut slot_id: u16 = 0;
        let ghost prev_slots = self.spec_slots();
        let event: Option<ServerEvent> = match packet {
            Packet::ConnectionRequest => {
                match found {
                    Some(i) => {
                        proof {
                            lemma_find_some(prev_slots, src, 0, i as int);
                        }
                        let ev: Option<ServerEvent> = match &mut self.clients[i] {
                            ClientState::Connected(vc) => {
                                vc.on_receive(now);
                                vc.on_send(now);
                                let frame = Packet::ConnectionAccepted(vc.id()).write(
                                    self.salt.as_slice(),
                                );
                                out.push(Datagram { dest: src, data: frame });
                                None
                            },
                            _ => {
                                proof {
                                    assert(false);
                                }
                                None
                            },
                        };
                        proof {
                            assert(self.spec_slots() =~= prev_slots.update(
                                i as int,
                                self.spec_slots()[i as int],
                            ));
                            lemma_slots_wf_update(prev_slots, i as int, self.spec_slots()[i as int]);
                        }
                        ev
                    },
                    None => {
                        proof {
                            lemma_find_none(prev_slots, src, 0);
                        }
                        match self.find_free() {
                            Some(j) => {
                                proof {
                                    lemma_free_some(prev_slots, 0, j as int);
                                }
                                let vc = VirtualConnection::new(src, j as u16, now);
                                let frame = Packet::ConnectionAccepted(j as u16).write(
                                    self.salt.as_slice(),
                                );
                                out.push(Datagram { dest: src, data: frame });
                                self.clients.set(j, ClientState::Connected(vc));
                                proof {
                                    lemma_slots_wf_update(
                                        prev_slots,
                                        j as int,
                                        self.spec_slots()[j as int],
                                    );
                                }
                                Some(ServerEvent::ClientConnected(j as u16))
                            },
                            None => {
                                let frame = Packet::ConnectionDenied.write(self.salt.as_slice());
                                out.push(Datagram { dest: src, data: frame });
                                None
                            },
                        }
                    },
                }
            },
            Packet::Payload(seqn, ack, payload) => {
                match found {
                    Some(i) => {
                        proof {
                            lemma_find_some(prev_slots, src, 0, i as int);
                        }
                        let ev: Option<ServerEvent> = match &mut self.clients[i] {
                            ClientState::Connected(vc) => {
                                let cls = vc.handle_seq(seqn);
                                let is_latest: bool = match cls {
                                    SequenceResult::Latest => true,
                                    _ => false,
                                };
                                let is_fresh: bool = match cls {
                                    SequenceResult::Fresh => true,
                                    _ => false,
                                };
                                if is_latest || is_fresh {
                                    vc.on_receive(now);
                                    proof {
                                        SequenceNumberSet::lemma_from_bitfield(
                                            crate::bytes::u16_from_be(data@[7], data@[8]),
                                            crate::bytes::u32_from_be(
                                                data@[9],
                                                data@[10],
                                                data@[11],
                                                data@[12],
                                            ),
                                        );
                                        SequenceNumberSet::lemma_set_ext(
                                            ack,
                                            SequenceNumberSet::spec_from_bitfield(
                                                crate::bytes::u16_from_be(data@[7], data@[8]),
                                                crate::bytes::u32_from_be(
                                                    data@[9],
                                                    data@[10],
                                                    data@[11],
                                                    data@[12],
                                                ),
                                            ),
                                        );
                                    }
                                    notes = vc.handle_ack(ack, now);
                                    slot_id = vc.id();
                                    Some(
                                        ServerEvent::PacketReceived(vc.id(), is_latest, payload),
                                    )
                                } else {
                                    None
                                }
                            },
                            _ => {
                                proof {
                                    assert(false);
                                }
                                None
                            },
                        };
                        proof {
                            assert(self.spec_slots() =~= prev_slots.update(
                                i as int,
                                self.spec_slots()[i as int],
                            ));
                            lemma_slots_wf_update(prev_slots, i as int, self.spec_slots()[i as int]);
                        }
                        ev
                    },
                    None => None,
                }
            },
            Packet::KeepAlive(ack) => {
                match found {
                    Some(i) => {
                        proof {
                            lemma_find_some(prev_slots, src, 0, i as int);
                        }
                        let ev: Option<ServerEvent> = match &mut self.clients[i] {
                            ClientState::Connected(vc) => {
                                vc.on_receive(now);
                                proof {
                                    SequenceNumberSet::lemma_from_bitfield(
                                        crate::bytes::u16_from_be(data@[5], data@[6]),
                                        crate::bytes::u32_from_be(
                                            data@[7],
                                            data@[8],
                                            data@[9],
                                            data@[10],
                                        ),
                                    );
                                    SequenceNumberSet::lemma_set_ext(
                                        ack,
                                        SequenceNumberSet::spec_from_bitfield(
                                            crate::bytes::u16_from_be(data@[5], data@[6]),
                                            crate::bytes::u32_from_be(
                                                data@[7],
                                                data@[8],
                                                data@[9],
                                                data@[10],
                                            ),
                                        ),
                                    );
                                }
                                notes = vc.handle_ack(ack, now);
                                slot_id = vc.id();
                                None
                            },
                            _ => {
                                proof {
                                    assert(false);
                                }
                                None
                            },
                        };
                        proof {
                            assert(self.spec_slots() =~= prev_slots.update(
                                i as int,
                                self.spec_slots()[i as int],
                            ));
                            lemma_slots_wf_update(prev_slots, i as int, self.spec_slots()[i as int]);
                        }
                        ev
                    },
                    None => None,
                }
            },
            Packet::Disconnect => {
                match found {
                    Some(i) => {
                        proof {
                            lemma_find_some(prev_slots, src, 0, i as int);
                        }
                        self.clients.set(i, ClientState::Disconnected);
                        proof {
                            lemma_slots_wf_update(
                                prev_slots,
                                i as int,
                                ClientState::Disconnected,
                            );
                        }
                        Some(
                            ServerEvent::ClientDisconnected(
                                i as u16,
                                ServerDisconnectReason::Disconnected,
                            ),
                        )
                    },
                    None => None,
                }
            },
            _ => None,
        };
        let ghost q0 = self.ack_queue@;
        let ghost mid = *self;
        let mut k: usize = 0;
        while k < notes.len()
            invariant
                k <= notes@.len(),
                self.ack_queue@ == q0 + acked_pairs(slot_id, notes@.take(k as int)),
                self.salt == mid.salt,
                self.clients == mid.clients,
            decreases notes@.len() - k,
        {
            let (s, acked) = notes[k];
            proof {
                assert(notes@.take(k + 1).drop_last() =~= notes@.take(k as int));
                assert(notes@.take(k + 1).last() == notes@[k as int]);
            }
            if acked {
                self.ack_queue.push_back((slot_id, s));
            }
            k = k + 1;
        }
        proof {
            assert(notes@.take(notes@.len() as int) =~= notes@);
        }
        (out, event)
    }

    /// Send one payload to a connected client; hands back the assigned
    /// sequence number and the framed datagram to transmit.
    pub fn send(&mut self, client_id: u16, payload: &[u8], now: u64) -> (r: Result<
        (SequenceNumber, Datagram),
        ConnectionError,
    >)
        requires
            old(self).wf(),
            payload@.len() <= MAX_PAYLOAD_SIZE,
        ensures
            final(self).wf(),
            final(self).spec_salt() == old(self).spec_salt(),
            final(self).spec_queue() == old(self).spec_queue(),
            final(self).spec_slots().len() == old(self).spec_slots().len(),
            if (client_id as int) < old(self).spec_slots().len() && old(self).spec_slots()[client_id as int] is Connected {
                let vc = old(self).spec_slots()[client_id as int]->Connected_0;
                &&& r matches Ok((s, dg))
                &&& r->Ok_0.0 == vc.spec_sent().spec_next()
                &&& r->Ok_0.1.dest == vc.spec_addrs()
                &&& r->Ok_0.1.data@ == spec_frame_bytes(
                    spec_payload_body(vc.spec_sent().spec_next(), vc.spec_received(), payload@),
                    old(self).spec_salt(),
                )
                &&& forall|j: int|
                    0 <= j < old(self).spec_slots().len() && j != client_id as int ==> final(self).spec_slots()[j] == #[trigger] old(self).spec_slots()[j]
                &&& final(self).spec_slots()[client_id as int] matches ClientState::Connected(vc2)
                &&& ({
                    let vc2 = final(self).spec_slots()[client_id as int]->Connected_0;
                    &&& vc2.spec_addrs() == vc.spec_addrs()
                    &&& vc2.spec_id() == vc.spec_id()
                    &&& vc2.spec_received() == vc.spec_received()
                    &&& vc2.spec_last_send() == now
                    &&& vc2.spec_last_recv() == vc.spec_last_recv()
                    &&& vc2.spec_sent().spec_newest() == vc.spec_sent().spec_next()
                })
            } else {
                &&& final(self).spec_slots() == old(self).spec_slots()
                &&& r == Err::<(SequenceNumber, Datagram), ConnectionError>(
                    if (client_id as int) >= old(self).spec_slots().len() || old(self).spec_slots()[client_id as int] is Disconnected {
                        ConnectionError::Disconnected
                    } else {
                        ConnectionError::ConnectionNotReady
                    },
                )
            },
    {
        if client_id as usize >= self.clients.len() {
            return Err(ConnectionError::Disconnected);
        }
        let ghost prev_slots = self.spec_slots();
        let i = client_id as usize;
        let r = match &mut self.clients[i] {
            ClientState::Connected(vc) => {
                let seq = vc.next_sequence_number(now);
                let ack = vc.received_set();
                let data = crate::bytes::copy_bytes(payload);
                let frame = Packet::Payload(seq, ack, data).write(self.salt.as_slice());
                vc.on_send(now);
                Ok((seq, Datagram { dest: vc.addrs(), data: frame }))
            },
            ClientState::Disconnected => Err(ConnectionError::Disconnected),
            _ => Err(ConnectionError::ConnectionNotReady),
        };
        proof {
            assert(self.spec_slots() =~= prev_slots.update(i as int, self.spec_slots()[i as int]));
            lemma_slots_wf_update(prev_slots, i as int, self.spec_slots()[i as int]);
        }
        r
    }

    /// Close one client's connection gracefully: a burst of Disconnect
    /// frames goes out best-effort, and the next event reports it.
    pub fn disconnect(&mut self, client_id: u16) -> (r: Result<Vec<Datagram>, ConnectionError>)
        requires
            old(self).wf(),
        ensures
            final(self).wf(),
            final(self).spec_salt() == old(self).spec_salt(),
            final(self).spec_queue() == old(self).spec_queue(),
            if (client_id as int) < old(self).spec_slots().len() && old(self).spec_slots()[client_id as int] is Connected {
                let vc = old(self).spec_slots()[client_id as int]->Connected_0;
                &&& r matches Ok(v)
                &&& r->Ok_0@.len() == 10
                &&& forall|k: int|
                    0 <= k < 10 ==> (#[trigger] r->Ok_0@[k]).dest == vc.spec_addrs()
                        && r->Ok_0@[k].data@ == spec_frame(
                        Packet::Disconnect,
                        old(self).spec_salt(),
                    )
                &&& final(self).spec_slots() == old(self).spec_slots().update(
                    client_id as int,
                    ClientState::Disconnecting(ServerDisconnectReason::Disconnected),
                )
            } else {
                &&& final(self).spec_slots() == old(self).spec_slots()
                &&& r == Err::<Vec<Datagram>, ConnectionError>(
                    if (client_id as int) >= old(self).spec_slots().len() || old(self).spec_slots()[client_id as int] is Disconnected {
                        ConnectionError::Disconnected
                    } else {
                        ConnectionError::ConnectionNotReady
                    },
                )
            },
    {
        if client_id as usize >= self.clients.len() {
            return Err(ConnectionError::Disconnected);
        }
        let i = client_id as usize;
        let dest: NetworkAddr = match &self.clients[i] {
            ClientState::Connected(vc) => vc.addrs(),
            ClientState::Disconnected => {
                return Err(ConnectionError::Disconnected);
            },
            _ => {
                return Err(ConnectionError::ConnectionNotReady);
            },
        };
        let mut out: Vec<Datagram> = Vec::new();
        let mut k: usize = 0;
        while k < 10
            invariant
                k <= 10,
                out@.len() == k,
                forall|j: int|
                    0 <= j < k ==> (#[trigger] out@[j]).dest == dest && out@[j].data@ == spec_frame(
                        Packet::Disconnect,
                        old(self).spec_salt(),
                    ),
                self.spec_salt() == old(self).spec_salt(),
                self.spec_slots() == old(self).spec_slots(),
                self.spec_queue() == old(self).spec_queue(),
                self.wf(),
            decreases 10 - k,
        {
            let frame = Packet::Disconnect.write(self.salt.as_slice());
            out.push(Datagram { dest, data: frame });
            k = k + 1;
        }
        let ghost prev_slots = self.spec_slots();
        self.clients.set(i, ClientState::Disconnecting(ServerDisconnectReason::Disconnected));
        proof {
            lemma_slots_wf_update(prev_slots, i as int, self.spec_slots()[i as int]);
        }
        Ok(out)
    }

    /// The next pending event: queued acknowledgements first, then any
    /// slot with a pending disconnect.
    pub fn next_event(&mut self) -> (r: Option<ServerEvent>)
        requires
            old(self).wf(),
        ensures
            final(self).wf(),
            final(self).spec_salt() == old(self).spec_salt(),
            if old(self).spec_queue().len() > 0 {
                &&& r == Some(
                    ServerEvent::PacketAcknowledged(
                        old(self).spec_queue()[0].0,
                        old(self).spec_queue()[0].1,
                    ),
                )
                &&& final(self).spec_queue() == old(self).spec_queue().skip(1)
                &&& final(self).spec_slots() == old(self).spec_slots()
            } else {
                match spec_disconnecting_from(old(self).spec_slots(), 0) {
                    Some(i) => {
                        &&& r == Some(
                            ServerEvent::ClientDisconnected(
                                i as u16,
                                old(self).spec_slots()[i]->Disconnecting_0,
                            ),
                        )
                        &&& final(self).spec_slots() == old(self).spec_slots().update(
                            i,
                            ClientState::Disconnected,
                        )
                        &&& final(self).spec_queue() == old(self).spec_queue()
                    },
                    None => {
                        &&& r is None
                        &&& final(self).spec_slots() == old(self).spec_slots()
                        &&& final(self).spec_queue() == old(self).spec_queue()
                    },
                }
            },
    {
        match self.ack_queue.pop_front() {
            Some((id, seq)) => {
                proof {
                    assert(self.ack_queue@ =~= old(self).spec_queue().skip(1));
                }
                return Some(ServerEvent::PacketAcknowledged(id, seq));
            },
            None => {},
        }
        let mut i: usize = 0;
        while i < self.clients.len()
            invariant
                old(self).wf(),
                self.spec_salt() == old(self).spec_salt(),
                self.spec_slots() == old(self).spec_slots(),
                self.spec_queue() == old(self).spec_queue(),
                old(self).spec_queue().len() == 0,
                self.wf(),
                i <= self.spec_slots().len(),
                spec_disconnecting_from(self.spec_slots(), 0) == spec_disconnecting_from(
                    self.spec_slots(),
                    i as int,
                ),
            decreases self.spec_slots().len() - i,
        {
            let reason: Option<ServerDisconnectReason> = match &self.clients[i] {
                ClientState::Disconnecting(reason) => Some(*reason),
                _ => None,
            };
            match reason {
                Some(reason) => {
                    proof {
                        assert(spec_disconnecting_from(self.spec_slots(), i as int) == Some(
                            i as int,
                        ));
                    }
                    self.clients.set(i, ClientState::Disconnected);
                    proof {
                        assert(self.spec_slots() == old(self).spec_slots().update(
                            i as int,
                            ClientState::Disconnected,
                        ));
                        assert forall|a: int|
                            0 <= a < self.spec_slots().len() implies ((
                        #[trigger] self.spec_slots()[a]) matches ClientState::Connected(vc)
                            ==> vc.wf() && vc.spec_id() == a) by {
                            if a != i as int {
                                assert(self.spec_slots()[a] == old(self).spec_slots()[a]);
                            }
                        }
                        assert forall|a: int, b: int|
                            #![trigger self.spec_slots()[a], self.spec_slots()[b]]
                            (0 <= a < b < self.spec_slots().len() && (self.spec_slots()[a]
                                matches ClientState::Connected(v1) && (self.spec_slots()[b]
                                matches ClientState::Connected(v2) && v1.spec_addrs()
                                == v2.spec_addrs()))) implies false by {
                            assert(a != i as int && b != i as int);
                            assert(self.spec_slots()[a] == old(self).spec_slots()[a]);
                            assert(self.spec_slots()[b] == old(self).spec_slots()[b]);
                        }
                    }
                    return Some(ServerEvent::ClientDisconnected(i as u16, reason));
                },
                None => {},
            }
            i = i + 1;
        }
        None
    }
}

} // verus!
