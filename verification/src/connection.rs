//! Per-peer connection state: the window of received sequence numbers, the
//! window of in-flight packets, timers, and smoothed link-quality estimates.

use vstd::prelude::*;
use crate::constants::PACKET_LOST_CUTOFF;
use crate::sequencing::{
    seq_sub,
    sequence_greater_than,
    spec_greater_than,
    spec_less_than,
    SequenceBuffer,
    SequenceNumber,
    SequenceNumberSet,
};
use crate::socket::NetworkAddr;

verus! {

/// How an incoming sequence number relates to those already received.
#[derive(Debug, Clone, Copy, PartialEq, Eq, Structural)]
pub enum SequenceResult {
    /// Newer than everything seen; becomes the latest.
    Latest,
    /// Inside the recent window and new; accepted out of order.
    Fresh,
    /// Already seen.
    Duplicate,
    /// Behind the recent window; dropped.
    TooOld,
}

/// What the connection remembers of one in-flight packet.
#[derive(Debug, Clone, Copy)]
pub struct PacketInformation {
    pub send_time: u64,
}

/// How many in-flight packets one connection tracks.
pub const SENT_WINDOW: usize = 1024;

/// RTT moves a tenth of the distance to each new sample.
pub const RTT_SMOOTHING_DIV: u64 = 10;

/// Packet loss moves a fortieth of the distance per signal.
pub const PL_SMOOTHING_DIV: u32 = 40;

/// Packet loss is kept in permille.
pub const PL_MAX: u32 = 1000;

/// How an incoming sequence number is classified against the received set.
pub open spec fn classify(s: SequenceNumberSet, seq: u16) -> SequenceResult {
    if spec_greater_than(seq, s.spec_latest()) {
        SequenceResult::Latest
    } else if seq == s.spec_latest() {
        SequenceResult::Duplicate
    } else if 1 <= seq_sub(s.spec_latest(), seq) <= 32 {
        if s.spec_contains(seq) {
            SequenceResult::Duplicate
        } else {
            SequenceResult::Fresh
        }
    } else {
        SequenceResult::TooOld
    }
}

/// Milliseconds from `then` to `now`, clamped below at zero.
pub open spec fn elapsed_ms(now: u64, then: u64) -> u64 {
    if now >= then {
        (now - then) as u64
    } else {
        0
    }
}

/// One RTT smoothing step toward a sample.
pub open spec fn lerp_rtt(cur: u64, sample: u64) -> u64 {
    if sample >= cur {
        (cur as int + (sample as int - cur as int) / (RTT_SMOOTHING_DIV as int)) as u64
    } else {
        (cur as int - (cur as int - sample as int) / (RTT_SMOOTHING_DIV as int)) as u64
    }
}

/// One packet-loss step toward "everything lost".
pub open spec fn pl_up(p: u32) -> u32 {
    (p as int + (PL_MAX as int - p as int) / (PL_SMOOTHING_DIV as int)) as u32
}

/// One packet-loss step toward "nothing lost".
pub open spec fn pl_down(p: u32) -> u32 {
    (p as int - (p as int) / (PL_SMOOTHING_DIV as int)) as u32
}

/// The RTT and loss estimates after applying a list of ack (`true`) and
/// loss (`false`) notifications in order; an acked sequence number
/// contributes the age of its send record as the RTT sample.
pub open spec fn apply_events(
    rtt: u64,
    pl: u32,
    now: u64,
    sent: SequenceBuffer<PacketInformation>,
    ev: Seq<(u16, bool)>,
) -> (u64, u32)
    decreases ev.len(),
{
    if ev.len() == 0 {
        (rtt, pl)
    } else {
        let prior = apply_events(rtt, pl, now, sent, ev.drop_last());
        let e = ev.last();
        if e.1 {
            (lerp_rtt(prior.0, elapsed_ms(now, sent.spec_at(e.0).send_time)), pl_down(prior.1))
        } else {
            (prior.0, pl_up(prior.1))
        }
    }
}

/// What processing the ack set `ack` against in-flight window `sent0` must
/// yield: `notes` lists each lost (`false`) and acked (`true`) sequence
/// number exactly once, and `sent1` keeps exactly the in-flight packets
/// that were neither acked nor timed out behind the loss cutoff.
pub open spec fn ack_notes_ok(
    sent0: SequenceBuffer<PacketInformation>,
    ack: SequenceNumberSet,
    notes: Seq<(u16, bool)>,
    sent1: SequenceBuffer<PacketInformation>,
) -> bool {
    let cutoff = seq_sub(ack.spec_latest(), PACKET_LOST_CUTOFF);
    &&& forall|q: u16|
        #![trigger sent1.spec_contains(q)]
        sent1.spec_contains(q) <==> (sent0.spec_contains(q) && !spec_less_than(q, cutoff)
            && !ack.spec_contains(q))
    &&& forall|i: int| 0 <= i < notes.len() ==> sent0.spec_contains((#[trigger] notes[i]).0)
    &&& forall|i: int|
        0 <= i < notes.len() ==> (!(#[trigger] notes[i]).1 ==> spec_less_than(notes[i].0, cutoff))
    &&& forall|i: int|
        0 <= i < notes.len() ==> ((#[trigger] notes[i]).1 ==> !spec_less_than(notes[i].0, cutoff)
            && ack.spec_contains(notes[i].0))
    &&& forall|q: u16|
        sent0.spec_contains(q) && spec_less_than(q, cutoff) ==> notes.contains((q, false))
    &&& forall|q: u16|
        sent0.spec_contains(q) && !spec_less_than(q, cutoff) && ack.spec_contains(q)
            ==> notes.contains((q, true))
    &&& forall|i: int, j: int|
        0 <= i < j < notes.len() ==> (#[trigger] notes[i]).0 != (#[trigger] notes[j]).0
}

/// In-memory record of one peer: address, assigned id, sequencing state,
/// timers, and link-quality estimates.
pub struct VirtualConnection {
    addrs: NetworkAddr,
    id: u16,
    last_received_packet: u64,
    last_send_packet: u64,
    received_packets: SequenceNumberSet,
    sent_packets: SequenceBuffer<PacketInformation>,
    rtt_ms: u64,
    packet_loss_permille: u32,
}

impl VirtualConnection {
    pub closed spec fn spec_addrs(self) -> NetworkAddr {
        self.addrs
    }

    pub closed spec fn spec_id(self) -> u16 {
        self.id
    }

    pub closed spec fn spec_last_recv(self) -> u64 {
        self.last_received_packet
    }

    pub closed spec fn spec_last_send(self) -> u64 {
        self.last_send_packet
    }

    pub closed spec fn spec_received(self) -> SequenceNumberSet {
        self.received_packets
    }

    pub closed spec fn spec_sent(self) -> SequenceBuffer<PacketInformation> {
        self.sent_packets
    }

    pub closed spec fn spec_rtt(self) -> u64 {
        self.rtt_ms
    }

    pub closed spec fn spec_packet_loss(self) -> u32 {
        self.packet_loss_permille
    }

    pub open spec fn wf(self) -> bool {
        &&& self.spec_sent().wf()
        &&& self.spec_sent().capacity() == SENT_WINDOW
        &&& self.spec_packet_loss() <= PL_MAX
    }

    pub fn new(addrs: NetworkAddr, id: u16, now: u64) -> (r: Self)
        ensures
            r.wf(),
            r.spec_addrs() == addrs,
            r.spec_id() == id,
            r.spec_last_recv() == now,
            r.spec_last_send() == now,
            r.spec_received().spec_latest() == 0,
            r.spec_received().spec_bitfield() == 0,
            forall|q: u16| r.spec_received().spec_contains(q) <==> q == 0,
            forall|q: u16| !r.spec_sent().spec_contains(q),
            r.spec_sent().spec_newest() == 0,
            r.spec_sent().spec_len() == 0,
            r.spec_rtt() == 0,
            r.spec_packet_loss() == 0,
    {
        Self {
            addrs,
            id,
            last_received_packet: now,
            last_send_packet: now,
            received_packets: SequenceNumberSet::new(0),
            sent_packets: SequenceBuffer::with_capacity(SENT_WINDOW),
            rtt_ms: 0,
            packet_loss_permille: 0,
        }
    }

    pub fn id(&self) -> (r: u16)
        ensures
            r == self.spec_id(),
    {
        self.id
    }

    pub fn addrs(&self) -> (r: NetworkAddr)
        ensures
            r == self.spec_addrs(),
    {
        self.addrs
    }

    /// Smoothed round-trip time in milliseconds.
    pub fn rtt(&self) -> (r: u64)
        ensures
            r == self.spec_rtt(),
    {
        self.rtt_ms
    }

    /// Smoothed packet loss in permille.
    pub fn packet_loss(&self) -> (r: u32)
        ensures
            r == self.spec_packet_loss(),
    {
        self.packet_loss_permille
    }

    /// When the peer was last heard from.
    pub fn last_packet_received(&self) -> (r: u64)
        ensures
            r == self.spec_last_recv(),
    {
        self.last_received_packet
    }

    /// When something was last sent to the peer.
    pub fn last_packet_send(&self) -> (r: u64)
        ensures
            r == self.spec_last_send(),
    {
        self.last_send_packet
    }

    /// Note that the peer was heard from.
    pub fn on_receive(&mut self, now: u64)
        ensures
            final(self).spec_last_recv() == now,
            final(self).spec_last_send() == old(self).spec_last_send(),
            final(self).spec_addrs() == old(self).spec_addrs(),
            final(self).spec_id() == old(self).spec_id(),
            final(self).spec_received() == old(self).spec_received(),
            final(self).spec_sent() == old(self).spec_sent(),
            final(self).spec_rtt() == old(self).spec_rtt(),
            final(self).spec_packet_loss() == old(self).spec_packet_loss(),
    {
        self.last_received_packet = now;
    }

    /// Note that something was sent to the peer.
    pub fn on_send(&mut self, now: u64)
        ensures
            final(self).spec_last_send() == now,
            final(self).spec_last_recv() == old(self).spec_last_recv(),
            final(self).spec_addrs() == old(self).spec_addrs(),
            final(self).spec_id() == old(self).spec_id(),
            final(self).spec_received() == old(self).spec_received(),
            final(self).spec_sent() == old(self).spec_sent(),
            final(self).spec_rtt() == old(self).spec_rtt(),
            final(self).spec_packet_loss() == old(self).spec_packet_loss(),
    {
        self.last_send_packet = now;
    }

    /// The received window as carried on outgoing packets.
    pub fn received_set(&self) -> (r: SequenceNumberSet)
        ensures
            r == self.spec_received(),
    {
        self.received_packets
    }

    /// Record an incoming sequence number and classify it.  A replayed or
    /// ancient sequence number reports `Duplicate` or `TooOld`, on which
    /// the caller delivers nothing.
    pub fn handle_seq(&mut self, seq: SequenceNumber) -> (r: SequenceResult)
        ensures
            r == classify(old(self).spec_received(), seq),
            final(self).spec_received().spec_latest() == if spec_greater_than(
                seq,
                old(self).spec_received().spec_latest(),
            ) {
                seq
            } else {
                old(self).spec_received().spec_latest()
            },
            forall|q: u16|
                final(self).spec_received().spec_contains(q) <==> if spec_greater_than(
                    seq,
                    old(self).spec_received().spec_latest(),
                ) {
                    q == seq || (old(self).spec_received().spec_contains(q) && seq_sub(seq, q)
                        <= 32)
                } else {
                    old(self).spec_received().spec_contains(q) || (q == seq && 1 <= seq_sub(
                        old(self).spec_received().spec_latest(),
                        seq,
                    ) <= 32)
                },
            final(self).spec_addrs() == old(self).spec_addrs(),
            final(self).spec_id() == old(self).spec_id(),
            final(self).spec_last_recv() == old(self).spec_last_recv(),
            final(self).spec_last_send() == old(self).spec_last_send(),
            final(self).spec_sent() == old(self).spec_sent(),
            final(self).spec_rtt() == old(self).spec_rtt(),
            final(self).spec_packet_loss() == old(self).spec_packet_loss(),
    {
        let latest = self.received_packets.latest();
        let was_greater = sequence_greater_than(seq, latest);
        let was_contained = self.received_packets.contains(seq);
        self.received_packets.insert(seq);
        if was_greater {
            SequenceResult::Latest
        } else if seq == latest {
            SequenceResult::Duplicate
        } else {
            let off = latest.wrapping_sub(seq);
            if 1 <= off && off <= 32 {
                if was_contained {
                    SequenceResult::Duplicate
                } else {
                    SequenceResult::Fresh
                }
            } else {
                SequenceResult::TooOld
            }
        }
    }

    /// Process the ack set of an incoming packet: in-flight packets far
    /// behind the acked latest are reported lost, acked ones are reported
    /// delivered, and the RTT and loss estimates absorb each signal.  Each
    /// sequence number is reported at most once, losses first.
    pub fn handle_ack(&mut self, ack: SequenceNumberSet, now: u64) -> (r: Vec<
        (SequenceNumber, bool),
    >)
        requires
            old(self).wf(),
        ensures
            final(self).wf(),
            final(self).spec_addrs() == old(self).spec_addrs(),
            final(self).spec_id() == old(self).spec_id(),
            final(self).spec_last_recv() == old(self).spec_last_recv(),
            final(self).spec_last_send() == old(self).spec_last_send(),
            final(self).spec_received() == old(self).spec_received(),
            ack_notes_ok(old(self).spec_sent(), ack, r@, final(self).spec_sent()),
            (final(self).spec_rtt(), final(self).spec_packet_loss()) == apply_events(
                old(self).spec_rtt(),
                old(self).spec_packet_loss(),
                now,
                old(self).spec_sent(),
                r@,
            ),
    {
        let ghost sent0 = old(self).spec_sent();
        let ghost rtt0 = old(self).spec_rtt();
        let ghost pl0 = old(self).spec_packet_loss();
        let ghost cutoff_s = seq_sub(ack.spec_latest(), PACKET_LOST_CUTOFF);
        let cutoff = ack.latest().wrapping_sub(PACKET_LOST_CUTOFF);
        let mut out: Vec<(SequenceNumber, bool)> = Vec::new();
        let lost = self.sent_packets.drain_older(cutoff);
        let ghost mid = *self;
        proof {
            assert(cutoff == cutoff_s);
            assert forall|q: u16|
                self.sent_packets.spec_contains(q) <==> (sent0.spec_contains(q)
                    && !spec_less_than(q, cutoff_s)) by {
                assert(self.sent_packets.spec_contains(q) <==> (sent0.spec_contains(q)
                    && !spec_less_than(q, cutoff)));
            }
        }
        let mut i: usize = 0;
        while i < lost.len()
            invariant
                i <= lost@.len(),
                out@.len() == i,
                forall|k: int| 0 <= k < i ==> #[trigger] out@[k] == (lost@[k].0, false),
                self.packet_loss_permille <= PL_MAX,
                (self.rtt_ms, self.packet_loss_permille) == apply_events(
                    rtt0,
                    pl0,
                    now,
                    sent0,
                    out@,
                ),
                self.addrs == mid.addrs,
                self.id == mid.id,
                self.last_received_packet == mid.last_received_packet,
                self.last_send_packet == mid.last_send_packet,
                self.received_packets == mid.received_packets,
                self.sent_packets == mid.sent_packets,
            decreases lost@.len() - i,
        {
            let s = lost[i].0;
            let ghost prev_out = out@;
            out.push((s, false));
            self.packet_loss_permille = self.packet_loss_permille + (PL_MAX
                - self.packet_loss_permille) / PL_SMOOTHING_DIV;
            proof {
                assert(out@.drop_last() =~= prev_out);
                assert(out@.last() == (s, false));
            }
            i = i + 1;
        }
        proof {
            assert(forall|k: int|
                0 <= k < out@.len() ==> !(#[trigger] out@[k]).1 && sent0.spec_contains(out@[k].0)
                    && spec_less_than(out@[k].0, cutoff_s));
            assert(forall|q: u16|
                sent0.spec_contains(q) && spec_less_than(q, cutoff_s) ==> out@.contains(
                    (q, false),
                )) by {
                assert forall|q: u16|
                    sent0.spec_contains(q) && spec_less_than(q, cutoff_s) implies out@.contains(
                    (q, false),
                ) by {
                    let k = choose|k: int| 0 <= k < lost@.len() && #[trigger] lost@[k].0 == q;
                    assert(out@[k] == (q, false));
                }
            }
            assert forall|i1: int, j1: int| 0 <= i1 < j1 < out@.len() implies (
            #[trigger] out@[i1]).0 != (#[trigger] out@[j1]).0 by {
                assert(spec_greater_than(lost@[j1].0, lost@[i1].0));
            }
        }
        let ghost lost_len = out@.len();
        let members = ack.iter();
        proof {
            assert(members@.take(0) =~= Seq::<u16>::empty());
            assert(forall|q: u16| !members@.take(0).contains(q));
            assert(forall|q: u16|
                self.sent_packets.spec_contains(q) <==> (sent0.spec_contains(q)
                    && !spec_less_than(q, cutoff_s) && !members@.take(0).contains(q)));
        }
        let mut j: usize = 0;
        while j < members.len()
            invariant
                j <= members@.len(),
                forall|q: u16| members@.contains(q) <==> ack.spec_contains(q),
                forall|i1: int, j1: int|
                    0 <= i1 < j1 < members@.len() ==> spec_greater_than(
                        members@[j1],
                        members@[i1],
                    ),
                self.sent_packets.wf(),
                self.sent_packets.capacity() == SENT_WINDOW,
                self.packet_loss_permille <= PL_MAX,
                (self.rtt_ms, self.packet_loss_permille) == apply_events(
                    rtt0,
                    pl0,
                    now,
                    sent0,
                    out@,
                ),
                forall|q: u16|
                    #![trigger sent0.spec_contains(q)]
                    self.sent_packets.spec_contains(q) <==> (sent0.spec_contains(q)
                        && !spec_less_than(q, cutoff_s) && !members@.take(j as int).contains(q)),
                forall|q: u16|
                    self.sent_packets.spec_contains(q) ==> self.sent_packets.spec_at(q)
                        == sent0.spec_at(q),
                out@.len() >= lost_len,
                forall|k: int|
                    0 <= k < lost_len ==> !(#[trigger] out@[k]).1 && sent0.spec_contains(
                        out@[k].0,
                    ) && spec_less_than(out@[k].0, cutoff_s),
                forall|k: int|
                    lost_len <= k < out@.len() ==> (#[trigger] out@[k]).1 && sent0.spec_contains(
                        out@[k].0,
                    ) && !spec_less_than(out@[k].0, cutoff_s) && ack.spec_contains(out@[k].0),
                forall|q: u16|
                    sent0.spec_contains(q) && spec_less_than(q, cutoff_s) ==> out@.contains(
                        (q, false),
                    ),
                forall|q: u16|
                    sent0.spec_contains(q) && !spec_less_than(q, cutoff_s) && members@.take(
                        j as int,
                    ).contains(q) ==> out@.contains((q, true)),
                forall|i1: int, j1: int|
                    0 <= i1 < j1 < out@.len() ==> (#[trigger] out@[i1]).0 != (
                    #[trigger] out@[j1]).0,
                forall|k: int|
                    lost_len <= k < out@.len() ==> members@.take(j as int).contains(
                        (#[trigger] out@[k]).0,
                    ),
                self.addrs == mid.addrs,
                self.id == mid.id,
                self.last_received_packet == mid.last_received_packet,
                self.last_send_packet == mid.last_send_packet,
                self.received_packets == mid.received_packets,
            decreases members@.len() - j,
        {
            let s = members[j];
            let ghost prev_out = out@;
            let ghost prev_sent = self.sent_packets;
            proof {
                assert(members@.take(j + 1) =~= members@.take(j as int).push(s));
                assert forall|q: u16|
                    members@.take(j + 1).contains(q) <==> (members@.take(j as int).contains(q) || q
                        == s) by {
                    if members@.take(j + 1).contains(q) {
                        let k = choose|k: int|
                            0 <= k < j + 1 && #[trigger] members@.take(j + 1)[k] == q;
                        if k < j {
                            assert(members@.take(j as int)[k] == q);
                        }
                    }
                    if members@.take(j as int).contains(q) {
                        let k = choose|k: int|
                            0 <= k < j && #[trigger] members@.take(j as int)[k] == q;
                        assert(members@.take(j + 1)[k] == q);
                    }
                    if q == s {
                        assert(members@.take(j + 1)[j as int] == s);
                    }
                }
                assert(!members@.take(j as int).contains(s)) by {
                    if members@.take(j as int).contains(s) {
                        let k = choose|k: int|
                            0 <= k < j && #[trigger] members@.take(j as int)[k] == s;
                        assert(spec_greater_than(members@[j as int], members@[k]));
                    }
                }
            }
            match self.sent_packets.remove(s) {
                Some(info) => {
                    out.push((s, true));
                    let sample = if now >= info.send_time {
                        now - info.send_time
                    } else {
                        0
                    };
                    if sample >= self.rtt_ms {
                        let step = (sample - self.rtt_ms) / RTT_SMOOTHING_DIV;
                        self.rtt_ms = self.rtt_ms + step;
                    } else {
                        let step = (self.rtt_ms - sample) / RTT_SMOOTHING_DIV;
                        self.rtt_ms = self.rtt_ms - step;
                    }
                    self.packet_loss_permille = self.packet_loss_permille
                        - self.packet_loss_permille / PL_SMOOTHING_DIV;
                    proof {
                        assert(out@.drop_last() =~= prev_out);
                        assert(out@.last() == (s, true));
                        assert(info == sent0.spec_at(s));
                        assert(self.rtt_ms == lerp_rtt(
                            apply_events(rtt0, pl0, now, sent0, prev_out).0,
                            elapsed_ms(now, sent0.spec_at(s).send_time),
                        ));
                        assert forall|q: u16|
                            sent0.spec_contains(q) && !spec_less_than(q, cutoff_s)
                                && members@.take(j + 1).contains(q) implies out@.contains(
                            (q, true),
                        ) by {
                            if q == s {
                                assert(out@[out@.len() - 1] == (q, true));
                            } else {
                                assert(members@.take(j as int).contains(q));
                                assert(prev_out.contains((q, true)));
                                let k = choose|k: int|
                                    0 <= k < prev_out.len() && #[trigger] prev_out[k] == (q, true);
                                assert(out@[k] == (q, true));
                            }
                        }
                    }
                },
                None => {
                    proof {
                        assert(!prev_sent.spec_contains(s));
                        assert forall|q: u16|
                            sent0.spec_contains(q) && !spec_less_than(q, cutoff_s)
                                && members@.take(j + 1).contains(q) implies out@.contains(
                            (q, true),
                        ) by {
                            if q != s {
                                assert(members@.take(j as int).contains(q));
                            } else {
                                assert(!prev_sent.spec_contains(s));
                            }
                        }
                    }
                },
            }
            proof {
                assert forall|q: u16|
                    self.sent_packets.spec_contains(q) <==> (sent0.spec_contains(q)
                        && !spec_less_than(q, cutoff_s) && !members@.take(j + 1).contains(q)) by {
                    if q == s {
                        assert(members@.take(j + 1).contains(s));
                        assert(!self.sent_packets.spec_contains(s));
                    } else {
                        assert(members@.take(j + 1).contains(q) == members@.take(
                            j as int,
                        ).contains(q));
                        assert(self.sent_packets.spec_contains(q) == prev_sent.spec_contains(q));
                    }
                }
            }
            j = j + 1;
        }
        proof {
            assert forall|q: u16|
                final(self).spec_sent().spec_contains(q) <==> (sent0.spec_contains(q)
                    && !spec_less_than(q, cutoff_s) && !ack.spec_contains(q)) by {
                assert(members@.take(members@.len() as int) =~= members@);
            }
        }
        out
    }

    /// The sequence number the next sent packet will carry, without
    /// consuming it.
    pub fn peek_next_sequence_number(&self) -> (r: SequenceNumber)
        ensures
            r == self.spec_sent().spec_next(),
    {
        self.sent_packets.next_sequence_number()
    }

    /// Assign the next sequence number, recording the send time.  A
    /// displaced record (window overflow) is silently forgotten.
    pub fn next_sequence_number(&mut self, now: u64) -> (r: SequenceNumber)
        requires
            old(self).wf(),
        ensures
            final(self).wf(),
            r == old(self).spec_sent().spec_next(),
            final(self).spec_sent().spec_newest() == r,
            forall|q: u16|
                final(self).spec_sent().spec_contains(q) <==> ((old(self).spec_sent().spec_contains(q) && old(self).spec_sent().spec_colliding() != Some(
                    q,
                )) || q == r),
            final(self).spec_sent().spec_at(r).send_time == now,
            forall|q: u16|
                final(self).spec_sent().spec_contains(q) && q != r ==> final(self).spec_sent().spec_at(q) == old(self).spec_sent().spec_at(q),
            final(self).spec_addrs() == old(self).spec_addrs(),
            final(self).spec_id() == old(self).spec_id(),
            final(self).spec_last_recv() == old(self).spec_last_recv(),
            final(self).spec_last_send() == old(self).spec_last_send(),
            final(self).spec_received() == old(self).spec_received(),
            final(self).spec_rtt() == old(self).spec_rtt(),
            final(self).spec_packet_loss() == old(self).spec_packet_loss(),
    {
        let (seq, _) = self.sent_packets.insert(PacketInformation { send_time: now });
        seq
    }
}

} // verus!
