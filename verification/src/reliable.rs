//! The reliable message channel: numbered outgoing messages retransmitted
//! until acked, and in-order exactly-once delivery of incoming messages.

use vstd::prelude::*;
use vstd::pervasive::VecAdditionalExecFns;
use crate::bytes::{lemma_u16_be_round_trip, push_u16_be, read_u16_be, u16_be_bytes, u16_from_be};
use crate::sequencing::{seq_add, seq_sub, spec_greater_than, SequenceBuffer, SequenceNumber};

verus! {

/// Why the channel refused an operation.
#[derive(Debug, Clone, Copy, PartialEq, Eq, Structural)]
pub enum ChannelError {
    /// The outgoing buffer has no room for another message.
    Full,
    /// An incoming composite payload was shorter than its own framing says.
    Malformed,
}

/// Copy a slice of plain values into a fresh vector.
fn copy_values<T: Copy>(v: &[T]) -> (r: Vec<T>)
    ensures
        r@ == v@,
{
    let mut out: Vec<T> = Vec::new();
    let mut i: usize = 0;
    while i < v.len()
        invariant
            i <= v@.len(),
            out@ == v@.take(i as int),
        decreases v@.len() - i,
    {
        out.push(*vstd::slice::slice_index_get(v, i));
        proof {
            assert(out@ =~= v@.take(i + 1));
        }
        i = i + 1;
    }
    proof {
        assert(v@.take(v@.len() as int) =~= v@);
    }
    out
}

/// A keyed slot store for out-of-order values: each key occupies the slot
/// `key mod capacity`, and a value stays until removed.
pub struct SequenceBuffer2<T> {
    entries: Vec<Option<(u16, T)>>,
}

impl<T> SequenceBuffer2<T> {
    pub closed spec fn capacity(self) -> int {
        self.entries@.len() as int
    }

    closed spec fn slot(self, s: u16) -> int {
        s as int % self.capacity()
    }

    /// Two keys that would occupy the same slot.
    pub closed spec fn same_slot(self, a: u16, b: u16) -> bool {
        self.slot(a) == self.slot(b)
    }

    pub closed spec fn spec_contains(self, s: u16) -> bool {
        match self.entries@[self.slot(s)] {
            Some(p) => p.0 == s,
            None => false,
        }
    }

    pub closed spec fn spec_at(self, s: u16) -> T
        recommends
            self.spec_contains(s),
    {
        match self.entries@[self.slot(s)] {
            Some(p) => p.1,
            None => vstd::pervasive::arbitrary(),
        }
    }

    /// Whether the slot a key would use is empty.
    pub closed spec fn slot_free(self, s: u16) -> bool {
        self.entries@[self.slot(s)] is None
    }

    /// A slot is free when no stored key shares it.
    pub proof fn lemma_free_when_no_collision(self, s: u16)
        requires
            self.wf(),
            forall|q: u16| self.spec_contains(q) ==> !self.same_slot(q, s),
        ensures
            self.slot_free(s),
    {
        if !self.slot_free(s) {
            let p = self.entries@[self.slot(s)]->Some_0;
            assert(self.spec_contains(p.0));
            assert(self.same_slot(p.0, s));
        }
    }

    pub closed spec fn wf(self) -> bool {
        &&& 1 <= self.capacity() <= 0x8000
        &&& forall|i: int|
            0 <= i < self.capacity() ==> match #[trigger] self.entries@[i] {
                Some(p) => p.0 as int % self.capacity() == i,
                None => true,
            }
    }

    /// Keys whose backward distances from a base point both fit inside one
    /// capacity-sized span occupy distinct slots.
    pub proof fn lemma_distinct_slots(self, base: u16, a: u16, b: u16)
        requires
            self.wf(),
            self.capacity() == 256,
            a != b,
            1 <= seq_sub(a, base) <= 256,
            1 <= seq_sub(b, base) <= 256,
        ensures
            !self.same_slot(a, b),
    {
        let da = seq_sub(a, base);
        let db = seq_sub(b, base);
        assert(da != db) by {
            if da == db {
                assert(seq_add(base, da) == a);
                assert(seq_add(base, db) == b);
            }
        }
        if self.slot(a) == self.slot(b) {
            vstd::arithmetic::div_mod::lemma_mod_equivalence(a as int, b as int, 256);
            if da < db {
                assert(seq_sub(b, a) == db - da);
                lemma_mod_256(b, a);
                vstd::arithmetic::div_mod::lemma_small_mod((db - da) as nat, 256nat);
            } else {
                assert(seq_sub(a, b) == da - db);
                lemma_mod_256(a, b);
                vstd::arithmetic::div_mod::lemma_mod_equivalence(b as int, a as int, 256);
                vstd::arithmetic::div_mod::lemma_small_mod((da - db) as nat, 256nat);
            }
        }
    }

    pub fn with_capacity(size: u16) -> (r: Self)
        requires
            1 <= size <= 0x8000,
        ensures
            r.wf(),
            r.capacity() == size as int,
            forall|q: u16| !r.spec_contains(q),
    {
        let mut entries: Vec<Option<(u16, T)>> = Vec::new();
        let mut i: usize = 0;
        while i < size as usize
            invariant
                i <= size as usize,
                entries@.len() == i as int,
                forall|j: int| 0 <= j < i ==> entries@[j] is None,
            decreases size as usize - i,
        {
            entries.push(None);
            i = i + 1;
        }
        Self { entries }
    }

    pub fn contains(&self, sequence: u16) -> (r: bool)
        requires
            self.capacity() >= 1,
        ensures
            r == self.spec_contains(sequence),
    {
        let idx = sequence as usize % self.entries.len();
        match &self.entries[idx] {
            Some(p) => p.0 == sequence,
            None => false,
        }
    }

    /// Store a value under a key whose slot is free.  Returns whether it
    /// was stored.
    pub fn insert(&mut self, sequence: u16, value: T) -> (r: bool)
        requires
            old(self).wf(),
        ensures
            final(self).wf(),
            final(self).capacity() == old(self).capacity(),
            r == old(self).slot_free(sequence),
            forall|q: u16|
                #![trigger final(self).spec_contains(q)]
                final(self).spec_contains(q) <==> (old(self).spec_contains(q) || (r && q
                    == sequence)),
            r ==> final(self).spec_at(sequence) == value,
            forall|q: u16|
                #![trigger final(self).spec_at(q)]
                final(self).spec_contains(q) && q != sequence ==> final(self).spec_at(q) == old(self).spec_at(q),
    {
        let idx = sequence as usize % self.entries.len();
        let free: bool = match &self.entries[idx] {
            Some(_) => false,
            None => true,
        };
        if free {
            self.entries.set(idx, Some((sequence, value)));
            proof {
                assert forall|q: u16|
                    final(self).spec_contains(q) <==> (old(self).spec_contains(q) || q
                        == sequence) by {
                    if self.slot(q) == self.slot(sequence) && q != sequence {
                        assert(!old(self).spec_contains(q));
                    }
                }
            }
            true
        } else {
            false
        }
    }

    /// Remove and return the value stored under a key.
    pub fn remove(&mut self, sequence: u16) -> (r: Option<T>)
        requires
            old(self).wf(),
        ensures
            final(self).wf(),
            final(self).capacity() == old(self).capacity(),
            r == if old(self).spec_contains(sequence) {
                Some(old(self).spec_at(sequence))
            } else {
                None::<T>
            },
            !old(self).spec_contains(sequence) ==> *final(self) == *old(self),
            forall|q: u16|
                #![trigger final(self).spec_contains(q)]
                final(self).spec_contains(q) <==> (old(self).spec_contains(q) && q != sequence),
            forall|q: u16|
                #![trigger final(self).spec_at(q)]
                final(self).spec_contains(q) ==> final(self).spec_at(q) == old(self).spec_at(q),
    {
        let idx = sequence as usize % self.entries.len();
        let hit: bool = match &self.entries[idx] {
            Some(p) => p.0 == sequence,
            None => false,
        };
        if !hit {
            return None;
        }
        let mut taken: Option<(u16, T)> = None;
        self.entries.set_and_swap(idx, &mut taken);
        proof {
            assert forall|q: u16|
                final(self).spec_contains(q) <==> (old(self).spec_contains(q) && q != sequence) by {
                if self.slot(q) == self.slot(sequence) && q != sequence {
                    assert(!old(self).spec_contains(q));
                }
            }
        }
        match taken {
            Some(p) => Some(p.1),
            None => None,
        }
    }
}

/// One message record on the wire: id, length byte, bytes.
pub open spec fn encode_record(id: u16, bytes: Seq<u8>) -> Seq<u8> {
    u16_be_bytes(id) + seq![bytes.len() as u8] + bytes
}

/// The records of a composite payload, in order.
pub open spec fn encode_records(rs: Seq<(u16, Seq<u8>)>) -> Seq<u8>
    decreases rs.len(),
{
    if rs.len() == 0 {
        Seq::empty()
    } else {
        encode_record(rs[0].0, rs[0].1) + encode_records(rs.skip(1))
    }
}

/// Every record's bytes fit its length byte.
pub open spec fn records_wf(rs: Seq<(u16, Seq<u8>)>) -> bool {
    forall|k: int| 0 <= k < rs.len() ==> (#[trigger] rs[k]).1.len() <= 255
}

/// Parse `n` records from offset `i`; extra trailing bytes are ignored.
pub open spec fn spec_records_from(d: Seq<u8>, i: int, n: int) -> Option<Seq<(u16, Seq<u8>)>>
    decreases n,
{
    if n <= 0 {
        Some(Seq::empty())
    } else if i + 3 > d.len() {
        None
    } else {
        let id = u16_from_be(d[i], d[i + 1]);
        let l = d[i + 2] as int;
        if i + 3 + l > d.len() {
            None
        } else {
            match spec_records_from(d, i + 3 + l, n - 1) {
                None => None,
                Some(rest) => Some(seq![(id, d.subrange(i + 3, i + 3 + l))] + rest),
            }
        }
    }
}

/// What a composite payload carries: a record count, then that many
/// records.
pub open spec fn spec_records(d: Seq<u8>) -> Option<Seq<(u16, Seq<u8>)>> {
    if d.len() < 1 {
        None
    } else {
        spec_records_from(d, 1, d[0] as int)
    }
}

/// Appending one record to an encoding appends its bytes.
proof fn lemma_encode_records_push(rs: Seq<(u16, Seq<u8>)>, id: u16, bytes: Seq<u8>)
    ensures
        encode_records(rs.push((id, bytes))) == encode_records(rs) + encode_record(id, bytes),
    decreases rs.len(),
{
    let whole = rs.push((id, bytes));
    if rs.len() == 0 {
        assert(whole.skip(1) =~= Seq::<(u16, Seq<u8>)>::empty());
        assert(whole[0] == (id, bytes));
        assert(encode_records(whole.skip(1)) =~= Seq::<u8>::empty());
        assert(encode_records(whole) == encode_record(id, bytes) + encode_records(whole.skip(1)));
        assert(encode_records(whole) =~= encode_records(rs) + encode_record(id, bytes));
    } else {
        assert(whole.skip(1) =~= rs.skip(1).push((id, bytes)));
        lemma_encode_records_push(rs.skip(1), id, bytes);
        assert(whole[0] == rs[0]);
        assert(encode_records(whole) == encode_record(rs[0].0, rs[0].1) + (encode_records(
            rs.skip(1),
        ) + encode_record(id, bytes)));
        assert(encode_records(rs) + encode_record(id, bytes) == (encode_record(rs[0].0, rs[0].1)
            + encode_records(rs.skip(1))) + encode_record(id, bytes));
        assert(encode_record(rs[0].0, rs[0].1) + (encode_records(rs.skip(1)) + encode_record(
            id,
            bytes,
        )) =~= (encode_record(rs[0].0, rs[0].1) + encode_records(rs.skip(1))) + encode_record(
            id,
            bytes,
        ));
    }
}

/// Parsing an encoding embedded at offset `i` yields the records back.
proof fn lemma_records_round_trip_from(d: Seq<u8>, i: int, rs: Seq<(u16, Seq<u8>)>)
    requires
        records_wf(rs),
        0 <= i,
        i + encode_records(rs).len() <= d.len(),
        d.subrange(i, i + encode_records(rs).len() as int) == encode_records(rs),
    ensures
        spec_records_from(d, i, rs.len() as int) == Some(rs),
    decreases rs.len(),
{
    if rs.len() == 0 {
    } else {
        let rec = encode_record(rs[0].0, rs[0].1);
        let l = rs[0].1.len() as int;
        let enc = encode_records(rs);
        let enc2 = encode_records(rs.skip(1));
        assert(enc == rec + enc2);
        assert(rec.len() == 3 + l);
        assert forall|k: int| 0 <= k < enc.len() implies d[i + k] == enc[k] by {
            assert(d.subrange(i, i + enc.len() as int)[k] == d[i + k]);
        }
        assert(rec[0] == u16_be_bytes(rs[0].0)[0]);
        assert(rec[1] == u16_be_bytes(rs[0].0)[1]);
        assert(rec[2] == bytes_len_byte(rs[0].1));
        assert((rec + enc2)[0] == rec[0]);
        assert((rec + enc2)[1] == rec[1]);
        assert((rec + enc2)[2] == rec[2]);
        assert(d[i + 0] == enc[0]);
        assert(d[i + 1] == enc[1]);
        assert(d[i + 2] == enc[2]);
        assert(d[i] == rec[0] && d[i + 1] == rec[1] && d[i + 2] == rec[2]);
        lemma_u16_be_round_trip(rs[0].0);
        assert(u16_from_be(d[i], d[i + 1]) == rs[0].0);
        assert(d[i + 2] as int == l);
        assert forall|k: int| 0 <= k < l implies d.subrange(i + 3, i + 3 + l)[k] == rs[0].1[k] by {
            assert(d[i + 3 + k] == enc[3 + k]);
            assert(enc[3 + k] == rec[3 + k]);
            assert(rec[3 + k] == rs[0].1[k]);
        }
        assert(d.subrange(i + 3, i + 3 + l) =~= rs[0].1);
        assert forall|k: int| 0 <= k < enc2.len() implies d.subrange(
            i + 3 + l,
            i + 3 + l + enc2.len() as int,
        )[k] == enc2[k] by {
            assert(d[i + 3 + l + k] == enc[3 + l + k]);
            assert(enc[3 + l + k] == enc2[k]);
        }
        assert(d.subrange(i + 3 + l, i + 3 + l + enc2.len() as int) =~= enc2);
        lemma_records_round_trip_from(d, i + 3 + l, rs.skip(1));
        assert(seq![(rs[0].0, rs[0].1)] + rs.skip(1) =~= rs);
    }
}

/// The length byte of a record's bytes.
spec fn bytes_len_byte(bytes: Seq<u8>) -> u8 {
    bytes.len() as u8
}

/// A composite payload built from records parses back to exactly them.
pub proof fn lemma_records_round_trip(rs: Seq<(u16, Seq<u8>)>)
    requires
        records_wf(rs),
        rs.len() <= 255,
    ensures
        spec_records(seq![rs.len() as u8] + encode_records(rs)) == Some(rs),
{
    let d = seq![rs.len() as u8] + encode_records(rs);
    assert(d[0] == rs.len() as u8);
    assert(d.subrange(1, 1 + encode_records(rs).len() as int) =~= encode_records(rs));
    lemma_records_round_trip_from(d, 1, rs);
}

/// Whether some record in the list carries the given message id.
pub open spec fn has_record(rs: Seq<(u16, Seq<u8>)>, id: u16) -> bool {
    exists|k: int| 0 <= k < rs.len() && (#[trigger] rs[k]).0 == id
}

/// A message id an incoming record may be buffered under: ahead of the
/// last delivered id by at most the channel window.
pub open spec fn spec_eligible(last_read: u16, id: u16) -> bool {
    1 <= seq_sub(id, last_read) <= 256
}

/// The records of a vector of owned records.
pub open spec fn view_records(v: Seq<(u16, Vec<u8>)>) -> Seq<(u16, Seq<u8>)> {
    Seq::new(v.len(), |k: int| (v[k].0, v[k].1@))
}

/// One queued outgoing message with the transport sequence numbers of its
/// transmissions so far.
pub struct Message {
    pub data: Vec<u8>,
    pub attempts: Vec<SequenceNumber>,
}

/// How many messages may be queued or buffered per peer.
pub const CHANNEL_WINDOW: u16 = 256;

/// How many message records one composite payload carries at most.
pub const RECORDS_PER_PACKET: usize = 5;

/// The largest message the one-byte length field can carry.
pub const MAX_MESSAGE_SIZE: usize = 255;

/// A per-peer reliable channel: monotonically numbered outgoing messages
/// retransmitted until acked, and buffered incoming messages handed out
/// strictly in order, exactly once.
pub struct MessageChannel {
    outgoing_messages: SequenceBuffer<Message>,
    incoming_messages: SequenceBuffer2<Vec<u8>>,
    last_read_message: SequenceNumber,
}

impl MessageChannel {
    pub closed spec fn spec_outgoing(self) -> SequenceBuffer<Message> {
        self.outgoing_messages
    }

    pub closed spec fn spec_incoming(self) -> SequenceBuffer2<Vec<u8>> {
        self.incoming_messages
    }

    /// The highest message id already handed to the user.
    pub closed spec fn spec_last_read(self) -> u16 {
        self.last_read_message
    }

    pub open spec fn wf(self) -> bool {
        &&& self.spec_outgoing().wf()
        &&& self.spec_outgoing().capacity() == CHANNEL_WINDOW as int
        &&& self.spec_incoming().wf()
        &&& self.spec_incoming().capacity() == CHANNEL_WINDOW as int
        &&& forall|q: u16|
            #[trigger] self.spec_outgoing().spec_contains(q) ==> self.spec_outgoing().spec_at(
                q,
            ).data@.len() <= MAX_MESSAGE_SIZE
        &&& forall|q: u16|
            #[trigger] self.spec_incoming().spec_contains(q) ==> spec_eligible(
                self.spec_last_read(),
                q,
            )
    }

    pub fn new() -> (r: Self)
        ensures
            r.wf(),
            r.spec_last_read() == 0,
            forall|q: u16| !r.spec_outgoing().spec_contains(q),
            forall|q: u16| !r.spec_incoming().spec_contains(q),
            r.spec_outgoing().spec_is_empty(),
            r.spec_outgoing().spec_newest() == 0,
    {
        Self {
            outgoing_messages: SequenceBuffer::with_capacity(CHANNEL_WINDOW as usize),
            incoming_messages: SequenceBuffer2::with_capacity(CHANNEL_WINDOW),
            last_read_message: 0,
        }
    }

    /// Whether any outgoing message is still waiting to be acknowledged.
    pub fn has_unsend_messages(&self) -> (r: bool)
        ensures
            r == !self.spec_outgoing().spec_is_empty(),
    {
        !self.outgoing_messages.is_empty()
    }

    /// Queue a message for delivery to the peer.  Fails exactly when the
    /// outgoing window is full.
    pub fn queue_message(&mut self, msg: &[u8]) -> (r: Result<(), ChannelError>)
        requires
            old(self).wf(),
            msg@.len() <= MAX_MESSAGE_SIZE,
        ensures
            final(self).wf(),
            final(self).spec_incoming() == old(self).spec_incoming(),
            final(self).spec_last_read() == old(self).spec_last_read(),
            match r {
                Ok(()) => {
                    &&& old(self).spec_outgoing().spec_colliding() is None
                    &&& final(self).spec_outgoing().spec_newest() == old(self).spec_outgoing().spec_next()
                    &&& forall|q: u16|
                        #![trigger final(self).spec_outgoing().spec_contains(q)]
                        final(self).spec_outgoing().spec_contains(q) <==> (old(self).spec_outgoing().spec_contains(q) || q == old(self).spec_outgoing().spec_next())
                    &&& final(self).spec_outgoing().spec_at(
                        old(self).spec_outgoing().spec_next(),
                    ).data@ == msg@
                    &&& final(self).spec_outgoing().spec_at(
                        old(self).spec_outgoing().spec_next(),
                    ).attempts@ == Seq::<u16>::empty()
                    &&& forall|q: u16|
                        #![trigger final(self).spec_outgoing().spec_at(q)]
                        final(self).spec_outgoing().spec_contains(q) && q != old(self).spec_outgoing().spec_next() ==> final(self).spec_outgoing().spec_at(q)
                            == old(self).spec_outgoing().spec_at(q)
                },
                Err(e) => {
                    &&& e == ChannelError::Full
                    &&& old(self).spec_outgoing().spec_colliding() is Some
                    &&& *final(self) == *old(self)
                },
            },
    {
        let data = copy_values(msg);
        match self.outgoing_messages.try_insert(Message { data, attempts: Vec::new() }) {
            Some(_) => Ok(()),
            None => Err(ChannelError::Full),
        }
    }

    /// Hand out the next in-order message, if it has arrived.  Message ids
    /// are delivered consecutively: each delivered id is exactly the
    /// successor of the previous one, never repeated and never skipped.
    pub fn receive_message(&mut self) -> (r: Option<Vec<u8>>)
        requires
            old(self).wf(),
        ensures
            final(self).wf(),
            final(self).spec_outgoing() == old(self).spec_outgoing(),
            ({
                let next = seq_add(old(self).spec_last_read(), 1);
                match r {
                    Some(v) => {
                        &&& old(self).spec_incoming().spec_contains(next)
                        &&& v@ == old(self).spec_incoming().spec_at(next)@
                        &&& final(self).spec_last_read() == next
                        &&& forall|q: u16|
                            #![trigger final(self).spec_incoming().spec_contains(q)]
                            final(self).spec_incoming().spec_contains(q) <==> (old(self).spec_incoming().spec_contains(q) && q != next)
                        &&& forall|q: u16|
                            #![trigger final(self).spec_incoming().spec_at(q)]
                            final(self).spec_incoming().spec_contains(q) ==> final(self).spec_incoming().spec_at(q) == old(self).spec_incoming().spec_at(q)
                    },
                    None => {
                        &&& !old(self).spec_incoming().spec_contains(next)
                        &&& *final(self) == *old(self)
                    },
                }
            }),
    {
        let next = self.last_read_message.wrapping_add(1);
        match self.incoming_messages.remove(next) {
            None => None,
            Some(msg) => {
                self.last_read_message = next;
                proof {
                    assert forall|q: u16|
                        #[trigger] final(self).spec_incoming().spec_contains(q) implies
                        spec_eligible(next, q) by {
                        assert(old(self).spec_incoming().spec_contains(q));
                        assert(spec_eligible(old(self).spec_last_read(), q));
                        assert(seq_sub(q, next) == seq_sub(q, old(self).spec_last_read()) - 1);
                    }
                }
                Some(msg)
            },
        }
    }

    /// Retire every outgoing message one of whose transmissions was the
    /// acknowledged transport sequence number: all its copies count as
    /// delivered, and later packet builds no longer include it.
    pub fn on_ack(&mut self, seq: SequenceNumber)
        requires
            old(self).wf(),
        ensures
            final(self).wf(),
            final(self).spec_incoming() == old(self).spec_incoming(),
            final(self).spec_last_read() == old(self).spec_last_read(),
            forall|q: u16|
                #![trigger final(self).spec_outgoing().spec_contains(q)]
                final(self).spec_outgoing().spec_contains(q) <==> (old(self).spec_outgoing().spec_contains(q) && !old(self).spec_outgoing().spec_at(
                    q,
                ).attempts@.contains(seq)),
            forall|q: u16|
                #![trigger final(self).spec_outgoing().spec_at(q)]
                final(self).spec_outgoing().spec_contains(q) ==> final(self).spec_outgoing().spec_at(
                    q,
                ) == old(self).spec_outgoing().spec_at(q),
    {
        let ids = self.outgoing_messages.live_sequences();
        let ghost out0 = old(self).spec_outgoing();
        let mut k: usize = 0;
        while k < ids.len()
            invariant
                k <= ids@.len(),
                forall|q: u16| ids@.contains(q) <==> out0.spec_contains(q),
                forall|i1: int, j1: int|
                    0 <= i1 < j1 < ids@.len() ==> spec_greater_than(ids@[j1], ids@[i1]),
                self.outgoing_messages.wf(),
                self.outgoing_messages.capacity() == out0.capacity(),
                self.incoming_messages == old(self).spec_incoming(),
                self.last_read_message == old(self).spec_last_read(),
                forall|q: u16|
                    #![trigger self.outgoing_messages.spec_contains(q)]
                    self.outgoing_messages.spec_contains(q) <==> (out0.spec_contains(q) && !(
                    ids@.take(k as int).contains(q) && out0.spec_at(q).attempts@.contains(seq))),
                forall|q: u16|
                    #![trigger self.outgoing_messages.spec_at(q)]
                    self.outgoing_messages.spec_contains(q) ==> self.outgoing_messages.spec_at(q)
                        == out0.spec_at(q),
            decreases ids@.len() - k,
        {
            let id = ids[k];
            let ghost head = self.outgoing_messages;
            proof {
                assert(ids@.take(k + 1) =~= ids@.take(k as int).push(id));
                assert forall|q: u16|
                    ids@.take(k + 1).contains(q) <==> (ids@.take(k as int).contains(q) || q
                        == id) by {
                    if ids@.take(k + 1).contains(q) {
                        let kk = choose|kk: int|
                            0 <= kk < k + 1 && #[trigger] ids@.take(k + 1)[kk] == q;
                        if kk < k {
                            assert(ids@.take(k as int)[kk] == q);
                        }
                    }
                    if ids@.take(k as int).contains(q) {
                        let kk = choose|kk: int|
                            0 <= kk < k && #[trigger] ids@.take(k as int)[kk] == q;
                        assert(ids@.take(k + 1)[kk] == q);
                    }
                    if q == id {
                        assert(ids@.take(k + 1)[k as int] == q);
                    }
                }
                assert(!ids@.take(k as int).contains(id)) by {
                    if ids@.take(k as int).contains(id) {
                        let kk = choose|kk: int|
                            0 <= kk < k && #[trigger] ids@.take(k as int)[kk] == id;
                        assert(spec_greater_than(ids@[k as int], ids@[kk]));
                    }
                }
                assert(ids@.contains(id)) by {
                    assert(ids@[k as int] == id);
                }
                assert(out0.spec_contains(id));
                assert(head.spec_contains(id));
                assert(head.spec_at(id) == out0.spec_at(id));
            }
            let hit: bool = match self.outgoing_messages.get(id) {
                Some(m) => contains_u16(&m.attempts, seq),
                None => false,
            };
            if hit {
                self.outgoing_messages.remove(id);
            }
            proof {
                assert forall|q: u16|
                    self.outgoing_messages.spec_contains(q) <==> (out0.spec_contains(q) && !(
                    ids@.take(k + 1).contains(q) && out0.spec_at(q).attempts@.contains(seq))) by {
                    if q == id {
                        assert(hit == out0.spec_at(id).attempts@.contains(seq));
                    } else {
                        assert(self.outgoing_messages.spec_contains(q) == head.spec_contains(q));
                    }
                }
            }
            k = k + 1;
        }
        proof {
            assert(ids@.take(ids@.len() as int) =~= ids@);
        }
    }

    /// Build the composite payload for one transmission: up to
    /// `RECORDS_PER_PACKET` of the oldest queued messages, each recording
    /// `seq` — the transport sequence number the payload will ride on — as
    /// a transmission attempt.  Only live (unretired) messages are ever
    /// included.
    pub fn send_packets(&mut self, seq: SequenceNumber) -> (r: Vec<u8>)
        requires
            old(self).wf(),
        ensures
            final(self).wf(),
            final(self).spec_incoming() == old(self).spec_incoming(),
            final(self).spec_last_read() == old(self).spec_last_read(),
            forall|q: u16|
                #![trigger final(self).spec_outgoing().spec_contains(q)]
                final(self).spec_outgoing().spec_contains(q) == old(self).spec_outgoing().spec_contains(q),
            exists|rs: Seq<(u16, Seq<u8>)>|
                {
                    &&& spec_records(r@) == Some(rs)
                    &&& rs.len() <= RECORDS_PER_PACKET as int
                    &&& (old(self).spec_outgoing().spec_is_empty() ==> rs.len() == 0)
                    &&& (!old(self).spec_outgoing().spec_is_empty() ==> rs.len() >= 1)
                    &&& forall|k: int|
                        0 <= k < rs.len() ==> old(self).spec_outgoing().spec_contains(
                            (#[trigger] rs[k]).0,
                        ) && rs[k].1 == old(self).spec_outgoing().spec_at(rs[k].0).data@
                    &&& forall|k1: int, k2: int|
                        0 <= k1 < k2 < rs.len() ==> spec_greater_than(
                            (#[trigger] rs[k2]).0,
                            (#[trigger] rs[k1]).0,
                        )
                    &&& (rs.len() < RECORDS_PER_PACKET as int ==> forall|q: u16|
                        #[trigger] old(self).spec_outgoing().spec_contains(q) ==> has_record(
                            rs,
                            q,
                        ))
                    &&& forall|q: u16, k: int|
                        #![trigger old(self).spec_outgoing().spec_contains(q), rs[k]]
                        old(self).spec_outgoing().spec_contains(q) && !has_record(rs, q) && 0 <= k
                            < rs.len() ==> spec_greater_than(q, rs[k].0)
                    &&& forall|q: u16|
                        #![trigger final(self).spec_outgoing().spec_at(q)]
                        final(self).spec_outgoing().spec_contains(q) ==> final(self).spec_outgoing().spec_at(q).data@ == old(self).spec_outgoing().spec_at(
                            q,
                        ).data@ && final(self).spec_outgoing().spec_at(q).attempts@ == if has_record(
                            rs,
                            q,
                        ) {
                            old(self).spec_outgoing().spec_at(q).attempts@.push(seq)
                        } else {
                            old(self).spec_outgoing().spec_at(q).attempts@
                        }
                },
    {
        let ghost out0 = old(self).spec_outgoing();
        let ids = self.outgoing_messages.live_sequences();
        let mut packet: Vec<u8> = Vec::new();
        packet.push(0);
        let ghost rs: Seq<(u16, Seq<u8>)> = Seq::empty();
        let mut rs_len: Ghost<Seq<(u16, Seq<u8>)>> = Ghost(rs);
        let mut count: usize = 0;
        proof {
            assert(packet@ =~= seq![0u8] + encode_records(rs_len@));
            if !out0.spec_is_empty() {
                out0.lemma_nonempty_oldest();
                assert(ids@.contains(out0.spec_oldest()));
                assert(ids@.len() >= 1);
            }
        }
        while count < ids.len() && count < RECORDS_PER_PACKET
            invariant
                old(self).wf(),
                out0 == old(self).spec_outgoing(),
                count <= ids@.len(),
                count <= RECORDS_PER_PACKET,
                rs_len@.len() == count as int,
                forall|q: u16| ids@.contains(q) <==> out0.spec_contains(q),
                forall|i1: int, j1: int|
                    0 <= i1 < j1 < ids@.len() ==> spec_greater_than(ids@[j1], ids@[i1]),
                self.outgoing_messages.wf(),
                self.outgoing_messages.capacity() == out0.capacity(),
                self.incoming_messages == old(self).spec_incoming(),
                self.last_read_message == old(self).spec_last_read(),
                forall|q: u16|
                    #![trigger self.outgoing_messages.spec_contains(q)]
                    self.outgoing_messages.spec_contains(q) == out0.spec_contains(q),
                forall|k: int| 0 <= k < count ==> (#[trigger] rs_len@[k]).0 == ids@[k],
                forall|k: int|
                    0 <= k < count ==> out0.spec_contains((#[trigger] rs_len@[k]).0)
                        && rs_len@[k].1 == out0.spec_at(rs_len@[k].0).data@,
                records_wf(rs_len@),
                packet@ == seq![0u8] + encode_records(rs_len@),
                forall|q: u16|
                    #![trigger self.outgoing_messages.spec_at(q)]
                    self.outgoing_messages.spec_contains(q) ==> self.outgoing_messages.spec_at(
                        q,
                    ).data@ == out0.spec_at(q).data@ && self.outgoing_messages.spec_at(
                        q,
                    ).attempts@ == if has_record(rs_len@, q) {
                        out0.spec_at(q).attempts@.push(seq)
                    } else {
                        out0.spec_at(q).attempts@
                    },
                self.outgoing_messages.spec_len() == out0.spec_len(),
                self.outgoing_messages.spec_newest() == out0.spec_newest(),
            decreases ids@.len() - count,
        {
            let id = ids[count];
            let ghost prev_rs = rs_len@;
            proof {
                assert(ids@[count as int] == id);
                assert(ids@.contains(id));
                assert(out0.spec_contains(id));
                assert(!has_record(prev_rs, id)) by {
                    if has_record(prev_rs, id) {
                        let kk = choose|kk: int|
                            0 <= kk < prev_rs.len() && (#[trigger] prev_rs[kk]).0 == id;
                        assert(prev_rs[kk].0 == ids@[kk]);
                        assert(spec_greater_than(ids@[count as int], ids@[kk]));
                    }
                }
            }
            let (data, attempts) = match self.outgoing_messages.get(id) {
                Some(m) => {
                    let d = copy_values(m.data.as_slice());
                    let a = copy_values(m.attempts.as_slice());
                    (d, a)
                },
                None => {
                    proof {
                        assert(false);
                    }
                    (Vec::new(), Vec::new())
                },
            };
            push_u16_be(&mut packet, id);
            packet.push(data.len() as u8);
            packet.extend_from_slice(data.as_slice());
            let mut attempts2 = attempts;
            attempts2.push(seq);
            let ghost data_view = data@;
            self.outgoing_messages.set_at(id, Message { data, attempts: attempts2 });
            proof {
                rs_len@ = prev_rs.push((id, data_view));
                lemma_encode_records_push(prev_rs, id, data_view);
                assert(packet@ =~= seq![0u8] + encode_records(rs_len@));
                assert(data_view.len() <= 255);
                assert forall|kk: int| 0 <= kk < rs_len@.len() implies (
                #[trigger] rs_len@[kk]).1.len() <= 255 by {
                    if kk < prev_rs.len() {
                        assert(rs_len@[kk] == prev_rs[kk]);
                    } else {
                        assert(rs_len@[kk] == (id, data_view));
                    }
                }
                assert forall|q: u16|
                    has_record(rs_len@, q) <==> (has_record(prev_rs, q) || q == id) by {
                    if has_record(rs_len@, q) {
                        let kk = choose|kk: int|
                            0 <= kk < rs_len@.len() && (#[trigger] rs_len@[kk]).0 == q;
                        if kk < prev_rs.len() {
                            assert(prev_rs[kk].0 == q);
                        }
                    }
                    if has_record(prev_rs, q) {
                        let kk = choose|kk: int|
                            0 <= kk < prev_rs.len() && (#[trigger] prev_rs[kk]).0 == q;
                        assert(rs_len@[kk].0 == q);
                    }
                    if q == id {
                        assert(rs_len@[rs_len@.len() - 1].0 == q);
                    }
                }
            }
            count = count + 1;
        }
        packet.set(0, count as u8);
        proof {
            assert(packet@ =~= seq![count as u8] + encode_records(rs_len@));
            lemma_records_round_trip(rs_len@);
            assert(spec_records(packet@) == Some(rs_len@));
            assert forall|k1: int, k2: int|
                0 <= k1 < k2 < rs_len@.len() implies spec_greater_than(
                (#[trigger] rs_len@[k2]).0,
                (#[trigger] rs_len@[k1]).0,
            ) by {
                assert(spec_greater_than(ids@[k2], ids@[k1]));
            }
            assert forall|q: u16, k: int|
                #![trigger out0.spec_contains(q), rs_len@[k]]
                out0.spec_contains(q) && !has_record(rs_len@, q) && 0 <= k
                    < rs_len@.len() implies spec_greater_than(q, rs_len@[k].0) by {
                assert(ids@.contains(q));
                let kq = choose|kq: int| 0 <= kq < ids@.len() && ids@[kq] == q;
                if kq < rs_len@.len() {
                    assert(rs_len@[kq].0 == q);
                }
                assert(spec_greater_than(ids@[kq], ids@[k]));
            }
            if rs_len@.len() < RECORDS_PER_PACKET as int {
                assert(count == ids@.len());
                assert forall|q: u16| out0.spec_contains(q) implies has_record(rs_len@, q) by {
                    assert(ids@.contains(q));
                    let kk = choose|kk: int| 0 <= kk < ids@.len() && ids@[kk] == q;
                    assert(rs_len@[kk].0 == q);
                }
            }
        }
        packet
    }

    /// Absorb one composite payload from the peer: records newer than the
    /// last delivered id and inside the channel window are buffered, the
    /// first record of an id winning; everything else is skipped.  A
    /// payload whose framing is inconsistent is rejected whole.
    pub fn on_receive(&mut self, packet: &[u8]) -> (r: Result<(), ChannelError>)
        requires
            old(self).wf(),
        ensures
            final(self).wf(),
            final(self).spec_outgoing() == old(self).spec_outgoing(),
            final(self).spec_last_read() == old(self).spec_last_read(),
            match r {
                Ok(()) => spec_records(packet@) is Some && ({
                    let rs = spec_records(packet@)->Some_0;
                    let lr = old(self).spec_last_read();
                    &&& forall|q: u16|
                        #![trigger final(self).spec_incoming().spec_contains(q)]
                        final(self).spec_incoming().spec_contains(q) <==> (old(self).spec_incoming().spec_contains(q) || (spec_eligible(lr, q) && has_record(
                            rs,
                            q,
                        )))
                    &&& forall|q: u16|
                        #![trigger final(self).spec_incoming().spec_at(q)]
                        old(self).spec_incoming().spec_contains(q) ==> final(self).spec_incoming().spec_at(q) == old(self).spec_incoming().spec_at(q)
                    &&& forall|q: u16|
                        final(self).spec_incoming().spec_contains(q) && !old(self).spec_incoming().spec_contains(q) ==> exists|k: int|
                            0 <= k < rs.len() && (#[trigger] rs[k]).0 == q && final(self).spec_incoming().spec_at(q)@ == rs[k].1 && (forall|j: int|
                                0 <= j < k ==> rs[j].0 != q)
                }),
                Err(e) => {
                    &&& e == ChannelError::Malformed
                    &&& spec_records(packet@) is None
                    &&& *final(self) == *old(self)
                },
            },
    {
        if packet.len() < 1 {
            return Err(ChannelError::Malformed);
        }
        let n = *vstd::slice::slice_index_get(packet, 0);
        match parse_records(packet, 1, n) {
            None => Err(ChannelError::Malformed),
            Some(records) => {
                let ghost rs = spec_records(packet@)->Some_0;
                proof {
                    assert(rs == view_records(records@));
                }
                let ghost inc0 = old(self).spec_incoming();
                let ghost lr = old(self).spec_last_read();
                let mut k: usize = 0;
                while k < records.len()
                    invariant
                        k <= records@.len(),
                        rs == view_records(records@),
                        self.outgoing_messages == old(self).spec_outgoing(),
                        self.last_read_message == old(self).spec_last_read(),
                        lr == old(self).spec_last_read(),
                        inc0 == old(self).spec_incoming(),
                        inc0.wf(),
                        self.incoming_messages.wf(),
                        self.incoming_messages.capacity() == 256,
                        inc0.capacity() == 256,
                        forall|q: u16|
                            #[trigger] self.incoming_messages.spec_contains(q) ==> spec_eligible(
                                lr,
                                q,
                            ),
                        forall|q: u16|
                            #![trigger self.incoming_messages.spec_contains(q)]
                            self.incoming_messages.spec_contains(q) <==> (inc0.spec_contains(q) || (
                            spec_eligible(lr, q) && has_record(rs.take(k as int), q))),
                        forall|q: u16|
                            #![trigger self.incoming_messages.spec_at(q)]
                            inc0.spec_contains(q) ==> self.incoming_messages.spec_at(q)
                                == inc0.spec_at(q),
                        forall|q: u16|
                            self.incoming_messages.spec_contains(q) && !inc0.spec_contains(q)
                                ==> exists|kk: int|
                                0 <= kk < rs.len() && (#[trigger] rs[kk]).0 == q
                                    && self.incoming_messages.spec_at(q)@ == rs[kk].1 && (forall|
                                    j: int,
                                |
                                    0 <= j < kk ==> rs[j].0 != q),
                    decreases records@.len() - k,
                {
                    let id = records[k].0;
                    let ghost prev_inc = self.incoming_messages;
                    proof {
                        assert(rs[k as int].0 == id);
                        assert(rs.take(k + 1) =~= rs.take(k as int).push(rs[k as int]));
                        assert forall|q: u16|
                            has_record(rs.take(k + 1), q) <==> (has_record(rs.take(k as int), q)
                                || q == id) by {
                            if has_record(rs.take(k + 1), q) {
                                let kk = choose|kk: int|
                                    0 <= kk < k + 1 && (#[trigger] rs.take(k + 1)[kk]).0 == q;
                                if kk < k {
                                    assert(rs.take(k as int)[kk].0 == q);
                                }
                            }
                            if has_record(rs.take(k as int), q) {
                                let kk = choose|kk: int|
                                    0 <= kk < k && (#[trigger] rs.take(k as int)[kk]).0 == q;
                                assert(rs.take(k + 1)[kk].0 == q);
                            }
                            if q == id {
                                assert(rs.take(k + 1)[k as int].0 == q);
                            }
                        }
                    }
                    let d = id.wrapping_sub(self.last_read_message);
                    if 1 <= d && d <= 256 && !self.incoming_messages.contains(id) {
                        let bytes = copy_values(records[k].1.as_slice());
                        proof {
                            assert(spec_eligible(lr, id));
                            assert forall|q: u16|
                                self.incoming_messages.spec_contains(q) implies !self
                                    .incoming_messages
                                    .same_slot(q, id) by {
                                self.incoming_messages.lemma_distinct_slots(lr, q, id);
                            }
                            self.incoming_messages.lemma_free_when_no_collision(id);
                        }
                        let stored = self.incoming_messages.insert(id, bytes);
                        proof {
                            assert(stored);
                            assert(!has_record(rs.take(k as int), id));
                            assert(self.incoming_messages.spec_at(id)@ == rs[k as int].1);
                            assert forall|q: u16|
                                self.incoming_messages.spec_contains(q) && !inc0.spec_contains(
                                    q,
                                ) implies exists|kk: int|
                                0 <= kk < rs.len() && (#[trigger] rs[kk]).0 == q
                                    && self.incoming_messages.spec_at(q)@ == rs[kk].1 && (forall|
                                    j: int,
                                |
                                    0 <= j < kk ==> rs[j].0 != q) by {
                                if q == id {
                                    assert(rs[k as int].0 == id);
                                    assert forall|j: int| 0 <= j < k implies rs[j].0 != id by {
                                        if rs[j].0 == id {
                                            assert(rs.take(k as int)[j].0 == id);
                                            assert(has_record(rs.take(k as int), id));
                                        }
                                    }
                                } else {
                                    assert(prev_inc.spec_contains(q));
                                    assert(self.incoming_messages.spec_at(q) == prev_inc.spec_at(
                                        q,
                                    ));
                                }
                            }
                        }
                    } else {
                        proof {
                            assert forall|q: u16|
                                self.incoming_messages.spec_contains(q) <==> (inc0.spec_contains(
                                    q,
                                ) || (spec_eligible(lr, q) && has_record(rs.take(k + 1), q))) by {
                                if q == id {
                                    if spec_eligible(lr, id) {
                                        assert(1 <= seq_sub(id, lr) <= 256);
                                        assert(d == seq_sub(id, lr));
                                        assert(self.incoming_messages.spec_contains(id));
                                    }
                                }
                            }
                        }
                    }
                    k = k + 1;
                }
                proof {
                    assert(rs.take(rs.len() as int) =~= rs);
                }
                Ok(())
            },
        }
    }
}

/// Parse `n` records from `start`, handing back owned copies.
fn parse_records(data: &[u8], start: usize, n: u8) -> (r: Option<Vec<(u16, Vec<u8>)>>)
    requires
        start <= data@.len(),
    ensures
        match r {
            Some(v) => spec_records_from(data@, start as int, n as int) == Some(view_records(v@)),
            None => spec_records_from(data@, start as int, n as int) is None,
        },
    decreases n,
{
    if n == 0 {
        let empty: Vec<(u16, Vec<u8>)> = Vec::new();
        proof {
            assert(view_records(empty@) =~= Seq::<(u16, Seq<u8>)>::empty());
        }
        return Some(empty);
    }
    let len = data.len();
    if len - start < 3 {
        return None;
    }
    let id = read_u16_be(data, start);
    let l = *vstd::slice::slice_index_get(data, start + 2) as usize;
    if len - (start + 3) < l {
        return None;
    }
    let bytes = copy_values(vstd::slice::slice_subrange(data, start + 3, start + 3 + l));
    match parse_records(data, start + 3 + l, n - 1) {
        None => None,
        Some(rest) => {
            let mut out = rest;
            out.insert(0, (id, bytes));
            proof {
                assert(view_records(out@) =~= seq![(id, bytes@)] + view_records(
                    out@.subrange(1, out@.len() as int),
                ));
                assert(out@.subrange(1, out@.len() as int) =~= out@.skip(1));
            }
            Some(out)
        },
    }
}

/// Whether a vector of sequence numbers holds the given one.
fn contains_u16(v: &Vec<u16>, x: u16) -> (r: bool)
    ensures
        r == v@.contains(x),
{
    let mut i: usize = 0;
    while i < v.len()
        invariant
            i <= v@.len(),
            forall|k: int| 0 <= k < i ==> v@[k] != x,
        decreases v@.len() - i,
    {
        if v[i] == x {
            return true;
        }
        i = i + 1;
    }
    false
}

/// Keys in one 256-wide span differ modulo 256 exactly as their distances
/// do.
proof fn lemma_mod_256(a: u16, b: u16)
    ensures
        (seq_sub(a, b) as int) % 256 == (a as int - b as int) % 256,
{
    if a >= b {
    } else {
        assert(seq_sub(a, b) as int == a - b + 0x10000);
        vstd::arithmetic::div_mod::lemma_mod_multiples_vanish(256, a as int - b as int, 256);
    }
}

} // verus!
