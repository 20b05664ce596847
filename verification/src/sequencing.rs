//! Wrap-safe 16-bit sequence number arithmetic.

use vstd::prelude::*;
use vstd::pervasive::VecAdditionalExecFns;
use vstd::arithmetic::div_mod::{
    lemma_add_mod_noop,
    lemma_fundamental_div_mod,
    lemma_mod_equivalence,
    lemma_mod_multiples_vanish,
    lemma_small_mod,
};

verus! {

/// Sequence numbers are 16-bit and wrap around; all ordering uses the
/// wrap-safe comparison below.
pub type SequenceNumber = u16;

/// Half of the sequence space; the comparison bisects the space at this
/// distance.
pub const SEQUENCE_HALF: u16 = 0x8000;

/// `a` is newer than `b`: either `a` is numerically above `b` by at most half
/// the space, or it wrapped around and is below `b` by more than half.
pub open spec fn spec_greater_than(s1: u16, s2: u16) -> bool {
    (s1 > s2 && s1 - s2 <= SEQUENCE_HALF) || (s1 < s2 && s2 - s1 > SEQUENCE_HALF)
}

pub open spec fn spec_less_than(s1: u16, s2: u16) -> bool {
    spec_greater_than(s2, s1)
}

/// Addition modulo the sequence space.
pub open spec fn seq_add(a: u16, b: u16) -> u16 {
    ((a + b) % 0x10000) as u16
}

/// Subtraction modulo the sequence space: the distance one must step back
/// from `a` to reach `b`.
pub open spec fn seq_sub(a: u16, b: u16) -> u16 {
    if a >= b {
        (a - b) as u16
    } else {
        ((a + 0x10000) - b) as u16
    }
}

/// Wrap-safe "strictly newer than" comparison on sequence numbers.
pub fn sequence_greater_than(s1: SequenceNumber, s2: SequenceNumber) -> (r: bool)
    ensures
        r == spec_greater_than(s1, s2),
{
    ((s1 > s2) && (s1 - s2 <= SEQUENCE_HALF)) || ((s1 < s2) && (s2 - s1 > SEQUENCE_HALF))
}

/// Wrap-safe "strictly older than" comparison on sequence numbers.
pub fn sequence_less_than(s1: SequenceNumber, s2: SequenceNumber) -> (r: bool)
    ensures
        r == spec_less_than(s1, s2),
{
    sequence_greater_than(s2, s1)
}

/// The immediate successor of any sequence number is greater than it.
pub proof fn lemma_successor_greater(s: u16)
    ensures
        spec_greater_than(seq_add(s, 1), s),
{
}

/// A sequence number is never greater than the one half the space ahead of
/// it, as long as it sits in the lower half; the comparison bisects the
/// space there.  (For `s >= 0x8000` the tie at exact half distance is broken
/// the other way, so the claim does not hold of those inputs.)
pub proof fn lemma_half_distance_not_greater(s: u16)
    requires
        s < SEQUENCE_HALF,
    ensures
        !spec_greater_than(s, seq_add(s, SEQUENCE_HALF)),
{
}

/// Exactly one of `a` and `b` is greater when they differ.
pub proof fn lemma_greater_antisymmetric(a: u16, b: u16)
    ensures
        a != b ==> (spec_greater_than(a, b) <==> !spec_greater_than(b, a)),
        !spec_greater_than(a, a),
{
}

/// The wrap-safe order in terms of the backward distance `seq_sub`.
pub proof fn lemma_greater_distance(a: u16, b: u16)
    ensures
        spec_greater_than(a, b) <==> (1 <= seq_sub(a, b) && (seq_sub(a, b) < SEQUENCE_HALF || (
        seq_sub(a, b) == SEQUENCE_HALF && a > b))),
{
}

/// Whether bit `i` (0 = least significant) of `bf` is set.
pub open spec fn nth_bit(bf: u32, i: u32) -> bool
    recommends
        i < 32,
{
    (bf >> i) & 1u32 == 1u32
}

/// The 33-slot window of recently seen sequence numbers: the latest one plus
/// a 32-bit field where bit `i` stands for `latest - 1 - i`.
#[derive(Copy, Clone, Debug, PartialEq, Eq, Structural)]
pub struct SequenceNumberSet {
    latest: SequenceNumber,
    bitfield: u32,
}

impl SequenceNumberSet {
    pub closed spec fn spec_latest(self) -> u16 {
        self.latest
    }

    pub closed spec fn spec_bitfield(self) -> u32 {
        self.bitfield
    }

    /// Membership: the latest itself, or a sequence at backward distance
    /// 1..=32 whose bit is set.
    pub open spec fn spec_contains(self, s: u16) -> bool {
        s == self.spec_latest() || {
            let off = seq_sub(self.spec_latest(), s);
            1 <= off <= 32 && nth_bit(self.spec_bitfield(), (off - 1) as u32)
        }
    }

    /// The set with the given wire representation.
    pub closed spec fn spec_from_bitfield(latest: u16, bitfield: u32) -> SequenceNumberSet {
        SequenceNumberSet { latest, bitfield }
    }

    /// The wire representation determines the set.
    pub proof fn lemma_from_bitfield(latest: u16, bitfield: u32)
        ensures
            Self::spec_from_bitfield(latest, bitfield).spec_latest() == latest,
            Self::spec_from_bitfield(latest, bitfield).spec_bitfield() == bitfield,
    {
    }

    /// Two sets with the same latest and bitfield are the same set.
    pub proof fn lemma_set_ext(a: SequenceNumberSet, b: SequenceNumberSet)
        requires
            a.spec_latest() == b.spec_latest(),
            a.spec_bitfield() == b.spec_bitfield(),
        ensures
            a == b,
    {
    }

    pub fn from_bitfield(latest: SequenceNumber, bitfield: u32) -> (r: Self)
        ensures
            r.spec_latest() == latest,
            r.spec_bitfield() == bitfield,
            r == Self::spec_from_bitfield(latest, bitfield),
    {
        Self { latest, bitfield }
    }

    pub fn new(sequence: SequenceNumber) -> (r: Self)
        ensures
            r.spec_latest() == sequence,
            r.spec_bitfield() == 0,
            forall|q: u16| r.spec_contains(q) <==> q == sequence,
    {
        let r = Self::from_bitfield(sequence, 0);
        proof {
            assert forall|q: u16| r.spec_contains(q) implies q == sequence by {
                if q != sequence {
                    let off = seq_sub(sequence, q);
                    if 1 <= off <= 32 {
                        assert(!nth_bit(0u32, (off - 1) as u32)) by (bit_vector);
                    }
                }
            }
        }
        r
    }

    /// The number of sequence positions the window spans.
    pub fn capacity() -> (r: usize)
        ensures
            r == 33,
    {
        33
    }

    pub fn latest(self) -> (r: SequenceNumber)
        ensures
            r == self.spec_latest(),
    {
        self.latest
    }

    pub fn bitfield(self) -> (r: u32)
        ensures
            r == self.spec_bitfield(),
    {
        self.bitfield
    }

    pub fn contains(self, sequence: SequenceNumber) -> (r: bool)
        ensures
            r == self.spec_contains(sequence),
    {
        if self.latest == sequence {
            true
        } else {
            let off = self.latest.wrapping_sub(sequence);
            if 1 <= off && off <= 32 {
                (self.bitfield >> ((off - 1) as u32)) & 1u32 == 1u32
            } else {
                false
            }
        }
    }

    /// Insert a sequence number.  A newer one becomes the latest and the
    /// window shifts, dropping members that fall more than 32 behind; one
    /// inside the window has its bit set; anything older is ignored.
    /// Returns whether the set changed.
    pub fn insert(&mut self, sequence: SequenceNumber) -> (r: bool)
        ensures
            final(self).spec_latest() == if spec_greater_than(
                sequence,
                old(self).spec_latest(),
            ) {
                sequence
            } else {
                old(self).spec_latest()
            },
            forall|q: u16|
                final(self).spec_contains(q) <==> if spec_greater_than(
                    sequence,
                    old(self).spec_latest(),
                ) {
                    q == sequence || (old(self).spec_contains(q) && seq_sub(sequence, q) <= 32)
                } else {
                    old(self).spec_contains(q) || (q == sequence && 1 <= seq_sub(
                        old(self).spec_latest(),
                        sequence,
                    ) <= 32)
                },
            r == (spec_greater_than(sequence, old(self).spec_latest()) || (1 <= seq_sub(
                old(self).spec_latest(),
                sequence,
            ) <= 32 && !old(self).spec_contains(sequence))),
    {
        let ghost l = self.latest;
        let ghost bf = self.bitfield;
        if sequence_greater_than(sequence, self.latest) {
            let offset = sequence.wrapping_sub(self.latest);
            if offset >= 33 {
                self.bitfield = 0;
            } else {
                self.bitfield = ((self.bitfield << 1u32) | 1u32) << ((offset - 1) as u32);
            }
            self.latest = sequence;
            proof {
                let off = seq_sub(sequence, l);
                assert(off == offset);
                assert(1 <= off <= SEQUENCE_HALF) by {
                    lemma_greater_distance(sequence, l);
                }
                assert forall|q: u16|
                    final(self).spec_contains(q) <==> (q == sequence || (old(
                        self,
                    ).spec_contains(q) && seq_sub(sequence, q) <= 32)) by {
                    if q != sequence {
                        let d = seq_sub(sequence, q);
                        let dl = seq_sub(l, q);
                        assert(d != 0);
                        if d >= off {
                            assert(dl == d - off);
                        } else {
                            assert(dl == d + 0x10000 - off);
                            assert(dl > 32);
                        }
                        if 1 <= d <= 32 {
                            if off <= 32 {
                                lemma_window_shift(bf, offset, d);
                            } else {
                                assert(!nth_bit(0u32, (d - 1) as u32)) by (bit_vector);
                            }
                        }
                    }
                }
            }
            true
        } else {
            let offset = self.latest.wrapping_sub(sequence);
            if 1 <= offset && offset <= 32 {
                let old_bf = self.bitfield;
                self.bitfield = self.bitfield | (1u32 << ((offset - 1) as u32));
                proof {
                    lemma_set_bit(bf, ((offset - 1) as u32));
                    assert forall|q: u16|
                        final(self).spec_contains(q) <==> (old(self).spec_contains(q) || q
                            == sequence) by {
                        if q != sequence && q != l {
                            let dq = seq_sub(l, q);
                            if 1 <= dq <= 32 {
                                assert(dq != offset);
                                assert(nth_bit(final(self).bitfield, (dq - 1) as u32) == nth_bit(
                                    bf,
                                    (dq - 1) as u32,
                                )) by {
                                    lemma_set_bit(bf, ((offset - 1) as u32));
                                }
                            }
                        }
                    }
                }
                self.bitfield != old_bf
            } else {
                false
            }
        }
    }

    /// All members, oldest first.
    pub fn iter(self) -> (r: Vec<SequenceNumber>)
        ensures
            forall|q: u16| r@.contains(q) <==> self.spec_contains(q),
            forall|i: int, j: int|
                0 <= i < j < r@.len() ==> spec_greater_than(r@[j], r@[i]),
            r@.len() <= 33,
    {
        let ghost l = self.spec_latest();
        let mut out: Vec<SequenceNumber> = Vec::new();
        let mut d: usize = 33;
        while d > 0
            invariant
                d <= 33,
                out@.len() <= 33 - d,
                l == self.spec_latest(),
                forall|q: u16|
                    out@.contains(q) <==> (self.spec_contains(q) && seq_sub(l, q) >= d),
                forall|i: int, j: int|
                    0 <= i < j < out@.len() ==> spec_greater_than(out@[j], out@[i]),
                forall|i: int| 0 <= i < out@.len() ==> seq_sub(l, out@[i]) >= d,
            decreases d,
        {
            d = d - 1;
            let du: u16 = d as u16;
            let s = self.latest.wrapping_sub(du);
            let ghost prev = out@;
            proof {
                assert(s == seq_sub(l, du));
                lemma_point_involution(l, du);
                assert(seq_sub(l, s) == du);
            }
            if self.contains(s) {
                proof {
                    assert forall|i: int| 0 <= i < prev.len() implies spec_greater_than(
                        s,
                        prev[i],
                    ) by {
                        let dd = seq_sub(l, prev[i]);
                        assert(self.spec_contains(prev[i]));
                        assert(dd >= d + 1);
                        assert(dd <= 32);
                        lemma_point_order(l, du, dd);
                        assert(seq_sub(l, dd) == prev[i]) by {
                            lemma_point_involution(l, prev[i]);
                        }
                    }
                }
                out.push(s);
            }
            proof {
                assert forall|q: u16|
                    out@.contains(q) <==> (self.spec_contains(q) && seq_sub(l, q) >= d) by {
                    if self.spec_contains(q) && seq_sub(l, q) >= d {
                        if seq_sub(l, q) == du {
                            lemma_point_involution(l, q);
                            assert(q == s);
                            assert(out@[out@.len() - 1] == s);
                        } else {
                            assert(prev.contains(q));
                            let i = choose|i: int| 0 <= i < prev.len() && prev[i] == q;
                            assert(out@[i] == q);
                        }
                    }
                    if out@.contains(q) {
                        let i = choose|i: int| 0 <= i < out@.len() && out@[i] == q;
                        if i < prev.len() {
                            assert(prev[i] == q);
                            assert(prev.contains(q));
                        } else {
                            assert(q == s);
                        }
                    }
                }
            }
        }
        out
    }
}

/// Stepping back by `d` and measuring the backward distance gives `d` again;
/// the map is an involution.
proof fn lemma_point_involution(l: u16, d: u16)
    ensures
        seq_sub(l, seq_sub(l, d)) == d,
{
}

/// Of two points behind `l`, the one at the smaller backward distance is
/// newer (distances up to half the space).
proof fn lemma_point_order(l: u16, d1: u16, d2: u16)
    requires
        d1 < d2,
        d2 <= 0x7fff,
    ensures
        spec_greater_than(seq_sub(l, d1), seq_sub(l, d2)),
{
    assert(seq_sub(seq_sub(l, d1), seq_sub(l, d2)) == d2 - d1);
    lemma_greater_distance(seq_sub(l, d1), seq_sub(l, d2));
    if seq_sub(l, d1) <= seq_sub(l, d2) {
        assert(seq_sub(seq_sub(l, d1), seq_sub(l, d2)) == d2 - d1);
    }
}

/// When the window advances by `off`, the bit for backward distance `d` in
/// the new field comes from distance `d - off` in the old one, with the
/// prior latest entering at distance `off`.
proof fn lemma_window_shift(bf: u32, off: u16, d: u16)
    by (bit_vector)
    requires
        1 <= off <= 32,
        1 <= d <= 32,
    ensures
        d < off ==> !nth_bit(((bf << 1u32) | 1u32) << ((off - 1) as u32), (d - 1) as u32),
        d == off ==> nth_bit(((bf << 1u32) | 1u32) << ((off - 1) as u32), (d - 1) as u32),
        d > off ==> nth_bit(((bf << 1u32) | 1u32) << ((off - 1) as u32), (d - 1) as u32) == nth_bit(
            bf,
            (d - off - 1) as u32,
        ),
{
}

struct Entry<T> {
    seq: u16,
    val: T,
}

/// A bounded sliding-window store for in-flight data, indexed by sequence
/// number modulo the capacity.  `insert` assigns consecutive sequence
/// numbers; the window of live entries ends at the most recently assigned
/// one and spans at most the capacity.
pub struct SequenceBuffer<T> {
    newest_sequence_number: SequenceNumber,
    len: usize,
    entries: Vec<Option<Entry<T>>>,
}

impl<T> SequenceBuffer<T> {
    pub closed spec fn capacity(self) -> int {
        self.entries@.len() as int
    }

    /// The most recently assigned sequence number.
    pub closed spec fn spec_newest(self) -> u16 {
        self.newest_sequence_number
    }

    /// How many consecutive sequence positions the window spans.
    pub closed spec fn spec_len(self) -> int {
        self.len as int
    }

    pub open spec fn spec_is_empty(self) -> bool {
        self.spec_len() == 0
    }

    /// The sequence number the next insertion will be assigned.
    pub open spec fn spec_next(self) -> u16 {
        seq_add(self.spec_newest(), 1)
    }

    /// The oldest position of the window (meaningful when non-empty).
    pub open spec fn spec_oldest(self) -> u16 {
        seq_sub(self.spec_newest(), (self.spec_len() - 1) as u16)
    }

    closed spec fn slot(self, s: u16) -> int {
        s as int % self.capacity()
    }

    /// Whether an entry is stored live under sequence number `s`.
    pub closed spec fn spec_contains(self, s: u16) -> bool {
        match self.entries@[self.slot(s)] {
            Some(p) => p.seq == s,
            None => false,
        }
    }

    /// The value stored under live sequence number `s`.
    pub closed spec fn spec_at(self, s: u16) -> T
        recommends
            self.spec_contains(s),
    {
        match self.entries@[self.slot(s)] {
            Some(p) => p.val,
            None => vstd::pervasive::arbitrary(),
        }
    }

    /// The live sequence number whose slot the next insertion will reuse,
    /// if that slot is occupied.
    pub closed spec fn spec_colliding(self) -> Option<u16> {
        match self.entries@[self.slot(self.spec_next())] {
            Some(p) => Some(p.seq),
            None => None,
        }
    }

    /// Everything but tightness at the old end of the window.
    closed spec fn half_wf(self) -> bool {
        &&& 1 <= self.capacity() <= 0x8000
        &&& 0x8000int % self.capacity() == 0
        &&& self.spec_len() <= self.capacity()
        &&& forall|i: int|
            0 <= i < self.capacity() ==> match #[trigger] self.entries@[i] {
                Some(p) => seq_sub(self.newest_sequence_number, p.seq) < self.len
                    && p.seq as int % self.capacity() == i,
                None => true,
            }
    }

    /// The buffer's invariant: every live entry sits in its own slot inside
    /// the window, and the window is tight at its old end.
    pub closed spec fn wf(self) -> bool {
        &&& self.half_wf()
        &&& self.spec_len() > 0 ==> self.spec_contains(self.spec_oldest())
    }

    /// Every live entry lies in the window ending at `spec_newest`.
    pub proof fn lemma_contained_in_window(self, s: u16)
        requires
            self.wf(),
            self.spec_contains(s),
        ensures
            seq_sub(self.spec_newest(), s) < self.spec_len(),
    {
    }

    /// A non-empty buffer holds an entry at its oldest window position.
    pub proof fn lemma_nonempty_oldest(self)
        requires
            self.wf(),
            !self.spec_is_empty(),
        ensures
            self.spec_contains(self.spec_oldest()),
    {
    }

    /// The slot the next insertion uses is occupied exactly when the window
    /// is full, and then it holds the oldest entry.
    pub proof fn lemma_colliding_iff_full(self)
        requires
            self.wf(),
        ensures
            self.spec_colliding() is Some <==> self.spec_len() == self.capacity(),
            self.spec_len() == self.capacity() ==> self.spec_colliding() == Some(
                self.spec_oldest(),
            ),
    {
        let cap = self.capacity();
        let n = self.spec_newest();
        let ns = self.spec_next();
        if self.spec_colliding() is Some {
            let sp = self.entries@[self.slot(ns)]->Some_0.seq;
            let d = seq_sub(n, sp);
            assert(d < self.spec_len());
            assert(seq_sub(ns, sp) == d + 1);
            lemma_seq_sub_mod(ns, sp, cap);
            lemma_mod_equivalence(ns as int, sp as int, cap);
            assert((d + 1) % cap == 0);
            if d + 1 < cap {
                lemma_small_mod((d + 1) as nat, cap as nat);
            }
            assert(d == cap - 1);
            assert(self.spec_len() == cap);
            assert(sp == self.spec_oldest()) by {
                lemma_point_involution(n, sp);
                lemma_point_involution(n, self.spec_oldest());
                assert(seq_sub(n, self.spec_oldest()) == (self.spec_len() - 1) as u16);
            }
        }
        if self.spec_len() == cap {
            let os = self.spec_oldest();
            assert(self.spec_contains(os));
            assert(seq_sub(n, os) == (cap - 1) as u16) by {
                lemma_point_involution(n, (cap - 1) as u16);
            }
            assert(seq_sub(ns, os) == cap);
            lemma_seq_sub_mod(ns, os, cap);
            lemma_mod_equivalence(ns as int, os as int, cap);
            assert(cap % cap == 0) by {
                lemma_mod_multiples_vanish(1, 0, cap);
            }
            assert(self.slot(ns) == self.slot(os));
            assert(self.spec_colliding() == Some(os));
        }
    }

    /// A fresh buffer.  The capacity must divide the sequence space so that
    /// slot collisions happen exactly on window overflow.
    pub fn with_capacity(size: usize) -> (r: Self)
        requires
            1 <= size <= 0x8000,
            0x8000int % (size as int) == 0,
        ensures
            r.wf(),
            r.capacity() == size as int,
            r.spec_newest() == 0,
            r.spec_len() == 0,
            forall|q: u16| !r.spec_contains(q),
    {
        let mut entries: Vec<Option<Entry<T>>> = Vec::new();
        let mut i: usize = 0;
        while i < size
            invariant
                i <= size,
                entries@.len() == i as int,
                forall|j: int| 0 <= j < i ==> entries@[j] is None,
            decreases size - i,
        {
            entries.push(None);
            i = i + 1;
        }
        Self { newest_sequence_number: 0, len: 0, entries }
    }

    pub fn is_empty(&self) -> (r: bool)
        ensures
            r == self.spec_is_empty(),
    {
        self.len == 0
    }

    /// The sequence number the next insertion will be assigned.
    pub fn next_sequence_number(&self) -> (r: SequenceNumber)
        ensures
            r == self.spec_next(),
    {
        self.newest_sequence_number.wrapping_add(1)
    }

    fn index_of(&self, sequence: SequenceNumber) -> (r: usize)
        requires
            self.capacity() >= 1,
        ensures
            r == self.slot(sequence),
    {
        sequence as usize % self.entries.len()
    }

    /// Restore tightness at the old end of the window by skipping empty
    /// positions.
    fn shrink(&mut self)
        requires
            old(self).half_wf(),
        ensures
            final(self).wf(),
            final(self).entries@ == old(self).entries@,
            final(self).spec_newest() == old(self).spec_newest(),
            final(self).capacity() == old(self).capacity(),
            final(self).spec_len() <= old(self).spec_len(),
    {
        loop
            invariant_except_break
                self.half_wf(),
                self.entries@ == old(self).entries@,
                self.newest_sequence_number == old(self).spec_newest(),
                self.spec_len() <= old(self).spec_len(),
            ensures
                final(self).wf(),
                final(self).entries@ == old(self).entries@,
                final(self).newest_sequence_number == old(self).spec_newest(),
                final(self).spec_len() <= old(self).spec_len(),
            decreases self.len,
        {
            if self.len == 0 {
                break ;
            }
            let os = self.newest_sequence_number.wrapping_sub((self.len - 1) as u16);
            let idx = self.index_of(os);
            let hit: bool = match &self.entries[idx] {
                Some(p) => p.seq == os,
                None => false,
            };
            if hit {
                proof {
                    assert(self.spec_contains(os)) by {
                        assert(self.entries@[self.slot(os)] matches Some(p) && p.seq == os);
                    }
                }
                break ;
            }
            proof {
                assert(forall|i: int|
                    0 <= i < self.capacity() ==> match #[trigger] self.entries@[i] {
                        Some(p) => seq_sub(self.newest_sequence_number, p.seq) < self.len - 1,
                        None => true,
                    }) by {
                    assert forall|i: int|
                        0 <= i < self.capacity() && self.entries@[i] is Some implies seq_sub(
                        self.newest_sequence_number,
                        (#[trigger] self.entries@[i])->Some_0.seq,
                    ) < self.len - 1 by {
                        let p = self.entries@[i]->Some_0;
                        if seq_sub(self.newest_sequence_number, p.seq) == self.len - 1 {
                            lemma_point_involution(self.newest_sequence_number, p.seq);
                            lemma_point_involution(
                                self.newest_sequence_number,
                                (self.len - 1) as u16,
                            );
                            assert(p.seq == os);
                            assert(i == self.slot(os));
                        }
                    }
                }
            }
            self.len = self.len - 1;
        }
    }

    /// Insert at the next sequence number, failing when its slot is
    /// occupied (the window is full).
    pub fn try_insert(&mut self, data: T) -> (r: Option<SequenceNumber>)
        requires
            old(self).wf(),
        ensures
            final(self).wf(),
            final(self).capacity() == old(self).capacity(),
            match r {
                Some(s) => {
                    &&& s == old(self).spec_next()
                    &&& old(self).spec_colliding() is None
                    &&& final(self).spec_newest() == s
                    &&& final(self).spec_len() == old(self).spec_len() + 1
                    &&& forall|q: u16|
                        #![trigger final(self).spec_contains(q)]
                        final(self).spec_contains(q) <==> (old(self).spec_contains(q) || q == s)
                    &&& final(self).spec_at(s) == data
                    &&& forall|q: u16|
                        #![trigger final(self).spec_at(q)]
                        final(self).spec_contains(q) && q != s ==> final(self).spec_at(q) == old(
                            self,
                        ).spec_at(q)
                },
                None => {
                    &&& old(self).spec_colliding() is Some
                    &&& *final(self) == *old(self)
                },
            },
    {
        let ns = self.next_sequence_number();
        let idx = self.index_of(ns);
        let occupied: bool = match &self.entries[idx] {
            Some(_) => true,
            None => false,
        };
        if occupied {
            None
        } else {
            proof {
                self.lemma_colliding_iff_full();
                assert(self.spec_len() < self.capacity());
            }
            let ghost prev = *self;
            self.entries.set(idx, Some(Entry { seq: ns, val: data }));
            self.newest_sequence_number = ns;
            self.len = self.len + 1;
            proof {
                let n = prev.spec_newest();
                assert forall|i: int|
                    0 <= i < self.capacity() && i != idx && (#[trigger] self.entries@[i])
                        is Some implies {
                    let p = self.entries@[i]->Some_0;
                    seq_sub(ns, p.seq) < self.len && p.seq as int % self.capacity() == i
                } by {
                    let p = self.entries@[i]->Some_0;
                    assert(prev.entries@[i] == self.entries@[i]);
                    assert(seq_sub(n, p.seq) < prev.spec_len());
                    assert(seq_sub(ns, p.seq) == seq_sub(n, p.seq) + 1);
                }
                assert(self.half_wf());
                if prev.spec_len() > 0 {
                    assert(seq_sub(ns, prev.spec_oldest()) == prev.spec_len());
                    assert(self.spec_oldest() == prev.spec_oldest());
                    assert(self.spec_contains(self.spec_oldest()));
                } else {
                    assert(self.spec_oldest() == ns);
                }
                assert(self.wf());
                assert forall|q: u16|
                    final(self).spec_contains(q) <==> (prev.spec_contains(q) || q == ns) by {
                    if self.slot(q) == idx {
                        if q != ns && prev.spec_contains(q) {
                            assert(prev.entries@[self.slot(q)] is Some);
                        }
                    }
                }
            }
            Some(ns)
        }
    }

    /// Remove and return the entry stored under `sequence`, if it is live.
    pub fn remove(&mut self, sequence: SequenceNumber) -> (r: Option<T>)
        requires
            old(self).wf(),
        ensures
            final(self).wf(),
            final(self).capacity() == old(self).capacity(),
            final(self).spec_newest() == old(self).spec_newest(),
            r == if old(self).spec_contains(sequence) {
                Some(old(self).spec_at(sequence))
            } else {
                None::<T>
            },
            forall|q: u16|
                #![trigger final(self).spec_contains(q)]
                final(self).spec_contains(q) <==> (old(self).spec_contains(q) && q != sequence),
            forall|q: u16|
                #![trigger final(self).spec_at(q)]
                final(self).spec_contains(q) ==> final(self).spec_at(q) == old(self).spec_at(q),
    {
        proof {
            if old(self).spec_contains(sequence) {
                self.lemma_contained_in_window(sequence);
            }
        }
        if sequence_greater_than(sequence, self.newest_sequence_number) {
            proof {
                if old(self).spec_contains(sequence) {
                    lemma_greater_distance(sequence, self.newest_sequence_number);
                    assert(seq_sub(self.newest_sequence_number, sequence) + seq_sub(
                        sequence,
                        self.newest_sequence_number,
                    ) == 0x10000);
                }
            }
            return None;
        }
        if self.len == 0 {
            return None;
        }
        let os = self.newest_sequence_number.wrapping_sub((self.len - 1) as u16);
        if sequence_less_than(sequence, os) {
            proof {
                if old(self).spec_contains(sequence) {
                    let d = seq_sub(self.newest_sequence_number, sequence);
                    lemma_point_involution(self.newest_sequence_number, (self.len - 1) as u16);
                    if d < self.len - 1 {
                        assert(seq_sub(os, sequence) == 0x10000 - (self.len - 1 - d));
                    } else {
                        assert(seq_sub(os, sequence) == 0);
                    }
                    lemma_greater_distance(os, sequence);
                }
            }
            return None;
        }
        let idx = self.index_of(sequence);
        let hit: bool = match &self.entries[idx] {
            Some(p) => p.seq == sequence,
            None => false,
        };
        if !hit {
            return None;
        }
        let mut taken: Option<Entry<T>> = None;
        self.entries.set_and_swap(idx, &mut taken);
        self.shrink();
        match taken {
            Some(p) => Some(p.val),
            None => None,
        }
    }

    /// Insert at the next sequence number, displacing whatever occupied its
    /// slot; returns the assigned sequence number and the displaced value.
    pub fn insert(&mut self, data: T) -> (r: (SequenceNumber, Option<T>))
        requires
            old(self).wf(),
        ensures
            final(self).wf(),
            final(self).capacity() == old(self).capacity(),
            r.0 == old(self).spec_next(),
            final(self).spec_newest() == r.0,
            r.1 == match old(self).spec_colliding() {
                Some(cs) => Some(old(self).spec_at(cs)),
                None => None::<T>,
            },
            forall|q: u16|
                #![trigger final(self).spec_contains(q)]
                final(self).spec_contains(q) <==> ((old(self).spec_contains(q) && old(
                    self,
                ).spec_colliding() != Some(q)) || q == r.0),
            forall|q: u16|
                #![trigger final(self).spec_at(q)]
                final(self).spec_contains(q) && q != r.0 ==> final(self).spec_at(q) == old(
                    self,
                ).spec_at(q),
            final(self).spec_at(r.0) == data,
            !final(self).spec_is_empty(),
    {
        let ns = self.next_sequence_number();
        let idx = self.index_of(ns);
        let mut taken: Option<Entry<T>> = None;
        self.entries.set_and_swap(idx, &mut taken);
        self.shrink();
        let ghost mid = *self;
        let r2 = self.try_insert(data);
        proof {
            assert(mid.spec_colliding() is None);
            assert(r2 == Some(ns));
            assert forall|q: u16|
                final(self).spec_contains(q) <==> ((old(self).spec_contains(q) && old(
                    self,
                ).spec_colliding() != Some(q)) || q == ns) by {
                if q != ns {
                    if self.slot(q) == self.slot(ns) {
                        assert(!mid.spec_contains(q));
                        if old(self).spec_contains(q) {
                            assert(old(self).spec_colliding() == Some(q));
                        }
                    } else {
                        assert(mid.spec_contains(q) == old(self).spec_contains(q));
                        if old(self).spec_colliding() == Some(q) {
                            assert(old(self).entries@[old(self).slot(old(self).spec_next())]
                                matches Some(p) && p.seq == q);
                            assert(old(self).slot(q) == old(self).slot(ns));
                        }
                    }
                }
            }
        }
        let prev = match taken {
            Some(p) => Some(p.val),
            None => None,
        };
        (ns, prev)
    }

    /// Borrow the entry stored under `sequence`, if it is live.
    pub fn get(&self, sequence: SequenceNumber) -> (r: Option<&T>)
        requires
            self.wf(),
        ensures
            match r {
                Some(t) => self.spec_contains(sequence) && *t == self.spec_at(sequence),
                None => !self.spec_contains(sequence),
            },
    {
        let idx = self.index_of(sequence);
        match &self.entries[idx] {
            Some(p) => {
                if p.seq == sequence {
                    Some(&p.val)
                } else {
                    None
                }
            },
            None => None,
        }
    }

    /// Replace the value stored under a live sequence number.
    pub fn set_at(&mut self, sequence: SequenceNumber, data: T)
        requires
            old(self).wf(),
            old(self).spec_contains(sequence),
        ensures
            final(self).wf(),
            final(self).capacity() == old(self).capacity(),
            final(self).spec_newest() == old(self).spec_newest(),
            final(self).spec_len() == old(self).spec_len(),
            forall|q: u16|
                #![trigger final(self).spec_contains(q)]
                final(self).spec_contains(q) == old(self).spec_contains(q),
            final(self).spec_at(sequence) == data,
            forall|q: u16|
                #![trigger final(self).spec_at(q)]
                final(self).spec_contains(q) && q != sequence ==> final(self).spec_at(q) == old(
                    self,
                ).spec_at(q),
    {
        let idx = self.index_of(sequence);
        self.entries.set(idx, Some(Entry { seq: sequence, val: data }));
    }

    /// Remove and return, oldest first, every live entry strictly older
    /// than `threshold`.
    #[verifier::rlimit(60)]
    pub fn drain_older(&mut self, threshold: SequenceNumber) -> (r: Vec<(SequenceNumber, T)>)
        requires
            old(self).wf(),
        ensures
            final(self).wf(),
            final(self).capacity() == old(self).capacity(),
            final(self).spec_newest() == old(self).spec_newest(),
            forall|q: u16|
                #![trigger final(self).spec_contains(q)]
                final(self).spec_contains(q) <==> (old(self).spec_contains(q) && !spec_less_than(
                    q,
                    threshold,
                )),
            forall|q: u16|
                #![trigger final(self).spec_at(q)]
                final(self).spec_contains(q) ==> final(self).spec_at(q) == old(self).spec_at(q),
            forall|i: int|
                0 <= i < r@.len() ==> old(self).spec_contains(#[trigger] r@[i].0) && spec_less_than(
                    r@[i].0,
                    threshold,
                ) && r@[i].1 == old(self).spec_at(r@[i].0),
            forall|q: u16|
                #![trigger old(self).spec_contains(q), spec_less_than(q, threshold)]
                old(self).spec_contains(q) && spec_less_than(q, threshold) ==> exists|i: int|
                    0 <= i < r@.len() && #[trigger] r@[i].0 == q,
            forall|i: int, j: int|
                0 <= i < j < r@.len() ==> spec_greater_than(r@[j].0, r@[i].0),
    {
        let ghost init = *self;
        let n = self.newest_sequence_number;
        let mut out: Vec<(SequenceNumber, T)> = Vec::new();
        let mut d: usize = self.len;
        while d > 0
            invariant
                init.wf(),
                self.half_wf(),
                self.newest_sequence_number == init.spec_newest(),
                n == init.spec_newest(),
                self.spec_len() == init.spec_len(),
                self.capacity() == init.capacity(),
                d <= self.spec_len(),
                forall|q: u16| #![trigger seq_sub(n, q)]
                    self.spec_contains(q) <==> (init.spec_contains(q) && !(spec_less_than(
                        q,
                        threshold,
                    ) && seq_sub(n, q) >= d)),
                forall|q: u16|
                    self.spec_contains(q) ==> self.spec_at(q) == init.spec_at(q),
                forall|i: int|
                    0 <= i < out@.len() ==> init.spec_contains(#[trigger] out@[i].0)
                        && spec_less_than(out@[i].0, threshold) && out@[i].1 == init.spec_at(
                        out@[i].0,
                    ) && seq_sub(n, out@[i].0) >= d,
                forall|q: u16|
                    init.spec_contains(q) && spec_less_than(q, threshold) && seq_sub(n, q)
                        >= d ==> exists|i: int| 0 <= i < out@.len() && #[trigger] out@[i].0 == q,
                forall|i: int, j: int|
                    0 <= i < j < out@.len() ==> spec_greater_than(out@[j].0, out@[i].0),
            decreases d,
        {
            d = d - 1;
            let du: u16 = d as u16;
            let s = n.wrapping_sub(du);
            let ghost prev_out = out@;
            let ghost prev_self = *self;
            proof {
                lemma_point_involution(n, du);
            }
            let idx = self.index_of(s);
            let hit: bool = match &self.entries[idx] {
                Some(p) => p.seq == s,
                None => false,
            };
            if hit && sequence_less_than(s, threshold) {
                let mut taken: Option<Entry<T>> = None;
                self.entries.set_and_swap(idx, &mut taken);
                match taken {
                    Some(p) => {
                        proof {
                            assert(prev_self.spec_contains(s));
                            assert(p.seq == s && p.val == prev_self.spec_at(s));
                            assert forall|i: int| 0 <= i < prev_out.len() implies
                                spec_greater_than(s, prev_out[i].0) by {
                                let dd = seq_sub(n, prev_out[i].0);
                                assert(dd >= d + 1);
                                init.lemma_contained_in_window(prev_out[i].0);
                                assert(dd < init.spec_len());
                                lemma_point_order(n, du, dd);
                                lemma_point_involution(n, prev_out[i].0);
                            }
                        }
                        out.push((s, p.val));
                        proof {
                            assert(out@[out@.len() - 1].0 == s);
                            assert forall|q: u16|
                                init.spec_contains(q) && spec_less_than(q, threshold) && seq_sub(
                                    n,
                                    q,
                                ) >= d implies exists|i: int|
                                0 <= i < out@.len() && #[trigger] out@[i].0 == q by {
                                if seq_sub(n, q) == du {
                                    lemma_point_involution(n, q);
                                    assert(q == s);
                                    assert(out@[out@.len() - 1].0 == q);
                                } else {
                                    assert(seq_sub(n, q) >= d + 1);
                                    let i = choose|i: int|
                                        0 <= i < prev_out.len() && #[trigger] prev_out[i].0 == q;
                                    assert(out@[i].0 == q);
                                }
                            }
                            assert(self.entries@ =~= prev_self.entries@.update(
                                idx as int,
                                None::<Entry<T>>,
                            ));
                            assert forall|q: u16|
                                self.spec_contains(q) <==> (init.spec_contains(q) && !(
                                spec_less_than(q, threshold) && seq_sub(n, q) >= d)) by {
                                let dd = seq_sub(n, q);
                                if dd == du {
                                    lemma_point_involution(n, q);
                                    assert(q == s);
                                    assert(self.entries@[self.slot(q)] is None);
                                    assert(!self.spec_contains(q));
                                } else {
                                    assert(self.spec_contains(q) == prev_self.spec_contains(q));
                                }
                            }
                        }
                    },
                    None => {
                        proof {
                            assert(false);
                        }
                    },
                }
            } else {
                proof {
                    assert forall|q: u16| #[trigger] self.spec_contains(q) implies !(
                    spec_less_than(q, threshold) && seq_sub(n, q) >= d) by {
                        if seq_sub(n, q) == du {
                            lemma_point_involution(n, q);
                            assert(q == s);
                        }
                    }
                    assert forall|q: u16|
                        (init.spec_contains(q) && spec_less_than(q, threshold) && seq_sub(n, q)
                            >= d) implies exists|i: int|
                        0 <= i < out@.len() && #[trigger] out@[i].0 == q by {
                        if seq_sub(n, q) == du {
                            lemma_point_involution(n, q);
                            assert(q == s);
                            assert(!self.spec_contains(q));
                            assert(false);
                        }
                    }
                }
            }
        }
        self.shrink();
        out
    }

    /// All live sequence numbers, oldest first.
    pub fn live_sequences(&self) -> (r: Vec<SequenceNumber>)
        requires
            self.wf(),
        ensures
            forall|q: u16| r@.contains(q) <==> self.spec_contains(q),
            forall|i: int, j: int|
                0 <= i < j < r@.len() ==> spec_greater_than(r@[j], r@[i]),
            r@.len() <= self.spec_len(),
    {
        let n = self.newest_sequence_number;
        let mut out: Vec<SequenceNumber> = Vec::new();
        let mut d: usize = self.len;
        while d > 0
            invariant
                self.wf(),
                n == self.spec_newest(),
                d <= self.spec_len(),
                out@.len() <= self.spec_len() - d,
                forall|q: u16|
                    out@.contains(q) <==> (self.spec_contains(q) && seq_sub(n, q) >= d),
                forall|i: int, j: int|
                    0 <= i < j < out@.len() ==> spec_greater_than(out@[j], out@[i]),
                forall|i: int| 0 <= i < out@.len() ==> seq_sub(n, #[trigger] out@[i]) >= d,
            decreases d,
        {
            d = d - 1;
            let du: u16 = d as u16;
            let s = n.wrapping_sub(du);
            let ghost prev = out@;
            proof {
                lemma_point_involution(n, du);
            }
            let idx = self.index_of(s);
            let hit: bool = match &self.entries[idx] {
                Some(p) => p.seq == s,
                None => false,
            };
            if hit {
                proof {
                    assert(self.spec_contains(s));
                    assert forall|i: int| 0 <= i < prev.len() implies spec_greater_than(
                        s,
                        prev[i],
                    ) by {
                        let dd = seq_sub(n, prev[i]);
                        assert(dd >= d + 1);
                        assert(prev.contains(prev[i]));
                        self.lemma_contained_in_window(prev[i]);
                        assert(dd < self.spec_len());
                        lemma_point_order(n, du, dd);
                        lemma_point_involution(n, prev[i]);
                    }
                }
                out.push(s);
            }
            proof {
                assert forall|q: u16|
                    out@.contains(q) <==> (self.spec_contains(q) && seq_sub(n, q) >= d) by {
                    if self.spec_contains(q) && seq_sub(n, q) >= d {
                        if seq_sub(n, q) == du {
                            lemma_point_involution(n, q);
                            assert(q == s);
                            if hit {
                                assert(out@[out@.len() - 1] == s);
                            } else {
                                assert(self.entries@[self.slot(s)] matches Some(p) ==> p.seq == s);
                                assert(!self.spec_contains(s));
                            }
                        } else {
                            assert(prev.contains(q));
                            let i = choose|i: int| 0 <= i < prev.len() && prev[i] == q;
                            assert(out@[i] == q);
                        }
                    }
                    if out@.contains(q) {
                        let i = choose|i: int| 0 <= i < out@.len() && out@[i] == q;
                        if i < prev.len() {
                            assert(prev[i] == q);
                            assert(prev.contains(q));
                        } else {
                            assert(q == s);
                        }
                    }
                }
            }
        }
        out
    }
}

/// The capacity divides the whole sequence space.
proof fn lemma_cap_divides(cap: int)
    requires
        1 <= cap <= 0x8000,
        0x8000int % cap == 0,
    ensures
        0x10000int % cap == 0,
{
    lemma_add_mod_noop(0x8000, 0x8000, cap);
    lemma_small_mod(0, cap as nat);
}

/// Backward distance and integer difference agree modulo the capacity.
proof fn lemma_seq_sub_mod(a: u16, b: u16, cap: int)
    requires
        1 <= cap <= 0x8000,
        0x8000int % cap == 0,
    ensures
        (seq_sub(a, b) as int) % cap == (a as int - b as int) % cap,
{
    lemma_cap_divides(cap);
    lemma_fundamental_div_mod(0x10000, cap);
    let m = 0x10000int / cap;
    if a >= b {
    } else {
        assert(seq_sub(a, b) as int == a - b + 0x10000);
        assert(0x10000 == cap * m);
        lemma_mod_multiples_vanish(m, a as int - b as int, cap);
    }
}

/// Two distinct sequence numbers within one capacity-sized window use
/// different slots.
proof fn lemma_distinct_slots(n: u16, s1: u16, s2: u16, cap: int)
    requires
        1 <= cap <= 0x8000,
        0x8000int % cap == 0,
        s1 != s2,
        seq_sub(n, s1) < cap,
        seq_sub(n, s2) < cap,
    ensures
        s1 as int % cap != s2 as int % cap,
{
    let d1 = seq_sub(n, s1);
    let d2 = seq_sub(n, s2);
    lemma_point_involution(n, s1);
    lemma_point_involution(n, s2);
    assert(d1 != d2);
    if s1 as int % cap == s2 as int % cap {
        lemma_mod_equivalence(s1 as int, s2 as int, cap);
        if d1 < d2 {
            assert(seq_sub(s1, s2) == d2 - d1);
            lemma_seq_sub_mod(s1, s2, cap);
            lemma_small_mod((d2 - d1) as nat, cap as nat);
        } else {
            assert(seq_sub(s2, s1) == d1 - d2);
            lemma_seq_sub_mod(s2, s1, cap);
            lemma_mod_equivalence(s2 as int, s1 as int, cap);
            lemma_small_mod((d1 - d2) as nat, cap as nat);
        }
    }
}

/// Setting one bit leaves every other bit alone, and changes the field iff
/// the bit was clear.
proof fn lemma_set_bit(bf: u32, k: u32)
    by (bit_vector)
    requires
        k < 32,
    ensures
        nth_bit(bf | (1u32 << k), k),
        forall|j: u32| j < 32 && j != k ==> nth_bit(bf | (1u32 << k), j) == nth_bit(bf, j),
        ((bf | (1u32 << k)) == bf) <==> nth_bit(bf, k),
{
}

} // verus!

