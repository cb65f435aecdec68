//! Per-channel reliability and sequencing.
//!
//! Each channel tracks two independent monotonically increasing 16-bit
//! sequence counters, one for reliable and one for unreliable traffic, both
//! wrapping modulo 2^16. Incoming packets are deduplicated and reordered per
//! channel over a sliding window covering half the sequence space: a
//! reliable-sequenced packet is delivered only once every lower sequence
//! number on the channel has been delivered; an unreliable-sequenced packet
//! is delivered at once if it is not older than the last one delivered, and
//! dropped otherwise; unsequenced packets bypass the channel entirely.
//! Fragment groups are reassembled keyed by their start sequence number.
//!
//! The ghost delivery log records, for every reliable packet handed to the
//! application, its absolute position in the channel's reliable stream (the
//! packet with absolute position `k` travels under the wire sequence number
//! `(k + 1) % 2^16`). Well-formedness makes that log strictly increasing,
//! which is the ordering and no-duplicates guarantee.

use vstd::prelude::*;

use crate::address::clone_bytes;
use crate::packet::{Packet, PacketMode, PacketView};

verus! {

/// Half the 16-bit sequence space: how far ahead of the next expected
/// sequence number an arrival may run and still count as new.
pub const SEQ_WINDOW: u32 = 0x8000;

/// How far `a` runs ahead of `b` in the wrapping 16-bit sequence space.
pub open spec fn spec_seq_offset(a: u16, b: u16) -> int {
    (a + 0x1_0000 - b) % 0x1_0000
}

/// Whether `a` is newer than `b`: strictly ahead, by less than half the space.
pub open spec fn spec_seq_newer(a: u16, b: u16) -> bool {
    0 < spec_seq_offset(a, b) < SEQ_WINDOW
}

/// `s + k` in the wrapping sequence space.
pub open spec fn spec_seq_add(s: u16, k: u16) -> u16 {
    ((s + k) % 0x1_0000) as u16
}

/// How far `a` runs ahead of `b` in the wrapping 16-bit sequence space.
pub fn seq_offset(a: u16, b: u16) -> (r: u32)
    ensures
        r == spec_seq_offset(a, b),
{
    ((a as u32) + 0x1_0000 - (b as u32)) % 0x1_0000
}

/// `s + k` in the wrapping sequence space.
pub fn seq_add(s: u16, k: u16) -> (r: u16)
    ensures
        r == spec_seq_add(s, k),
{
    (((s as u32) + (k as u32)) % 0x1_0000) as u16
}

/// Stepping a wrapped counter forward by `k` tracks the unwrapped count.
proof fn lemma_seq_add_tracks(a: nat, k: u16)
    ensures
        spec_seq_add((((a + 1) % 0x1_0000) as int) as u16, k) as int == (a + 1 + k) % 0x1_0000,
{
    vstd::arithmetic::div_mod::lemma_add_mod_noop((a + 1) as int, k as int, 0x1_0000);
}

/// One reliable delivery, as the ghost delivery log records it: the packet's
/// absolute position in the stream, the wire sequence number it travelled
/// under, and its bytes.
#[verifier::ext_equal]
pub ghost struct Delivery {
    /// The absolute position in the channel's reliable stream.
    pub pos: nat,
    /// The wire sequence number: always `(pos + 1) % 2^16`.
    pub seq: u16,
    /// The delivered bytes.
    pub data: Seq<u8>,
}

/// The bytes a set of fragment slots reassembles to: the payloads
/// concatenated in index order.
pub open spec fn spec_group_bytes(slots: Seq<Option<Seq<u8>>>) -> Seq<u8> {
    slots.map_values(|o: Option<Seq<u8>>| o->0).flatten()
}

/// Whether every slot of a fragment group is filled.
pub open spec fn spec_slots_complete(slots: Seq<Option<Seq<u8>>>) -> bool {
    forall|i: int| 0 <= i < slots.len() ==> (#[trigger] slots[i]) is Some
}

/// A row of `n` empty fragment slots.
pub open spec fn spec_empty_slots(n: nat) -> Seq<Option<Seq<u8>>> {
    Seq::new(n, |i: int| None::<Seq<u8>>)
}

/// A reliable arrival waiting for every lower sequence number, buffered out
/// of order.
struct ReorderEntry {
    seq: u16,
    payload: Vec<u8>,
}

/// A fragment group under reassembly: the fragments of one oversized packet,
/// keyed by the group's start sequence number, one slot per fragment.
struct FragmentGroup {
    start_seq: u16,
    count: u16,
    slots: Vec<Option<Vec<u8>>>,
}

impl FragmentGroup {
    /// Well-formedness: at least one fragment, one slot per fragment.
    spec fn wf(&self) -> bool {
        &&& self.count >= 1
        &&& self.slots@.len() == self.count
    }

    /// Whether every fragment of the group has arrived.
    spec fn complete(&self) -> bool {
        forall|i: int| 0 <= i < self.slots@.len() ==> (#[trigger] self.slots@[i]) is Some
    }

    /// The fragment payloads in index order, once complete.
    spec fn payloads(&self) -> Seq<Seq<u8>> {
        self.slots@.map_values(|o: Option<Vec<u8>>| o->0@)
    }
}

/// Per-peer, per-index sequencing and reliability state.
pub struct Channel {
    outgoing_reliable_seq: u16,
    outgoing_unreliable_seq: u16,
    incoming_next_reliable: u16,
    incoming_last_unreliable: u16,
    reorder: Vec<ReorderEntry>,
    groups: Vec<FragmentGroup>,
    delivered_log: Ghost<Seq<Delivery>>,
    incoming_abs: Ghost<nat>,
}

impl Channel {
    /// Every reliable packet delivered so far, in delivery order: its
    /// absolute stream position, its wire sequence number, and its bytes.
    pub closed spec fn log(&self) -> Seq<Delivery> {
        self.delivered_log@
    }

    /// The out-of-order arrivals waiting in the reorder buffer: the sequence
    /// number and bytes of each.
    pub closed spec fn buffered(&self) -> Seq<(u16, Seq<u8>)> {
        self.reorder@.map_values(|e: ReorderEntry| (e.seq, e.payload@))
    }

    /// Whether an arrival under `seq` already waits in the reorder buffer.
    pub open spec fn buffered_has(&self, seq: u16) -> bool {
        exists|j: int| 0 <= j < self.buffered().len() && (#[trigger] self.buffered()[j]).0 == seq
    }

    /// The pending fragment group keyed `start_seq`, if any: its fragment
    /// count and its slots, `None` where the fragment has not arrived.
    pub closed spec fn pending_group(&self, start_seq: u16) -> Option<(u16, Seq<Option<Seq<u8>>>)> {
        if exists|j: int|
            0 <= j < self.groups@.len() && (#[trigger] self.groups@[j]).start_seq == start_seq {
            let j = choose|j: int|
                0 <= j < self.groups@.len() && (#[trigger] self.groups@[j]).start_seq == start_seq;
            Some(
                (
                    self.groups@[j].count,
                    self.groups@[j].slots@.map_values(
                        |o: Option<Vec<u8>>|
                            match o {
                                Some(v) => Some(v@),
                                None => None,
                            },
                    ),
                ),
            )
        } else {
            None
        }
    }

    /// Every pending fragment group: its start sequence number, fragment
    /// count and slots, in buffer order.
    pub closed spec fn pending_groups(&self) -> Seq<(u16, u16, Seq<Option<Seq<u8>>>)> {
        self.groups@.map_values(
            |g: FragmentGroup|
                (
                    g.start_seq,
                    g.count,
                    g.slots@.map_values(
                        |o: Option<Vec<u8>>|
                            match o {
                                Some(v) => Some(v@),
                                None => None,
                            },
                    ),
                ),
        )
    }

    /// The sequence number the next in-order reliable arrival must carry.
    pub closed spec fn incoming_next(&self) -> u16 {
        self.incoming_next_reliable
    }

    /// The absolute position of the next reliable packet in the channel's
    /// stream: how many stream positions (packets and fragment slots) have
    /// been consumed. The packet at position `k` travels under the wire
    /// sequence number `(k + 1) % 2^16`.
    pub closed spec fn stream_position(&self) -> nat {
        self.incoming_abs@
    }

    /// The sequence number of the last unreliable-sequenced packet delivered.
    pub closed spec fn last_unreliable(&self) -> u16 {
        self.incoming_last_unreliable
    }

    /// The last reliable sequence number handed out for sending.
    pub closed spec fn out_reliable(&self) -> u16 {
        self.outgoing_reliable_seq
    }

    /// The last unreliable sequence number handed out for sending.
    pub closed spec fn out_unreliable(&self) -> u16 {
        self.outgoing_unreliable_seq
    }

    /// Well-formedness. Inside: the delivery log is strictly increasing and
    /// runs below the absolute position of the next expected packet, every
    /// fragment group is consistent, and nothing deliverable is left sitting
    /// in a buffer.
    pub closed spec fn wf(&self) -> bool {
        &&& self.wf_core()
        &&& self.drained()
    }

    /// The part of well-formedness that holds even midway through a delivery
    /// cascade.
    spec fn wf_core(&self) -> bool {
        &&& (forall|i: int, j: int|
            0 <= i < j < self.delivered_log@.len() ==> self.delivered_log@[i].pos
                < self.delivered_log@[j].pos)
        &&& (forall|i: int|
            0 <= i < self.delivered_log@.len() ==> (#[trigger] self.delivered_log@[i]).pos
                < self.incoming_abs@)
        &&& (forall|i: int|
            0 <= i < self.delivered_log@.len() ==> (#[trigger] self.delivered_log@[i]).seq as int
                == (self.delivered_log@[i].pos + 1) % 0x1_0000)
        &&& (forall|i: int| 0 <= i < self.groups@.len() ==> (#[trigger] self.groups@[i]).wf())
        &&& (forall|i: int, j: int|
            0 <= i < j < self.groups@.len() ==> self.groups@[i].start_seq
                != self.groups@[j].start_seq)
        &&& self.incoming_next_reliable as int == (self.incoming_abs@ + 1) % 0x1_0000
    }

    /// No buffered arrival and no complete fragment group is already in
    /// order: everything deliverable has been delivered.
    spec fn drained(&self) -> bool {
        &&& (forall|i: int|
            0 <= i < self.reorder@.len() ==> (#[trigger] self.reorder@[i]).seq
                != self.incoming_next_reliable)
        &&& (forall|i: int|
            0 <= i < self.groups@.len() && (#[trigger] self.groups@[i]).complete()
                ==> self.groups@[i].start_seq != self.incoming_next_reliable)
    }

    /// A fresh channel: counters at their starting points, nothing buffered,
    /// nothing delivered.
    pub fn new() -> (r: Channel)
        ensures
            r.wf(),
            r.log() == Seq::<Delivery>::empty(),
            r.incoming_next() == 1,
            r.last_unreliable() == 0,
            r.out_reliable() == 0,
            r.out_unreliable() == 0,
    {
        Channel {
            outgoing_reliable_seq: 0,
            outgoing_unreliable_seq: 0,
            incoming_next_reliable: 1,
            incoming_last_unreliable: 0,
            reorder: Vec::new(),
            groups: Vec::new(),
            delivered_log: Ghost(Seq::empty()),
            incoming_abs: Ghost(0),
        }
    }

    /// Hands out the next outgoing reliable sequence number.
    pub fn next_outgoing_reliable(&mut self) -> (r: u16)
        requires
            old(self).wf(),
        ensures
            final(self).wf(),
            r == spec_seq_add(old(self).out_reliable(), 1),
            final(self).out_reliable() == r,
            final(self).out_unreliable() == old(self).out_unreliable(),
            final(self).log() == old(self).log(),
            final(self).incoming_next() == old(self).incoming_next(),
            final(self).last_unreliable() == old(self).last_unreliable(),
    {
        let r = seq_add(self.outgoing_reliable_seq, 1);
        self.outgoing_reliable_seq = r;
        r
    }

    /// Hands out the next outgoing unreliable sequence number.
    pub fn next_outgoing_unreliable(&mut self) -> (r: u16)
        requires
            old(self).wf(),
        ensures
            final(self).wf(),
            r == spec_seq_add(old(self).out_unreliable(), 1),
            final(self).out_unreliable() == r,
            final(self).out_reliable() == old(self).out_reliable(),
            final(self).log() == old(self).log(),
            final(self).incoming_next() == old(self).incoming_next(),
            final(self).last_unreliable() == old(self).last_unreliable(),
    {
        let r = seq_add(self.outgoing_unreliable_seq, 1);
        self.outgoing_unreliable_seq = r;
        r
    }

    /// Takes one unreliable-sequenced arrival. It is delivered at once if it
    /// is newer than the last unreliable packet delivered, and dropped
    /// otherwise — never buffered, never retransmitted.
    pub fn receive_unreliable(&mut self, seq: u16, payload: Vec<u8>) -> (r: Option<Packet>)
        requires
            old(self).wf(),
        ensures
            final(self).wf(),
            final(self).log() == old(self).log(),
            spec_seq_newer(seq, old(self).last_unreliable()) ==> {
                &&& r is Some
                &&& r->0@ == (PacketView {
                    data: payload@,
                    mode: PacketMode::UnreliableSequenced,
                })
                &&& final(self).last_unreliable() == seq
            },
            !spec_seq_newer(seq, old(self).last_unreliable()) ==> {
                &&& r is None
                &&& *final(self) == *old(self)
            },
    {
        let off = seq_offset(seq, self.incoming_last_unreliable);
        if 0 < off && off < SEQ_WINDOW {
            self.incoming_last_unreliable = seq;
            Some(Packet::from_bytes(payload, PacketMode::UnreliableSequenced))
        } else {
            None
        }
    }

    /// Takes one reliable-sequenced arrival; everything it promises is
    /// [`spec_receive_reliable_post`]: an in-order arrival is delivered at
    /// once, followed by everything it unblocks from the buffers; a newer
    /// arrival is buffered verbatim, once; an older or duplicate arrival is
    /// dropped and changes nothing. Every delivery is recorded in the
    /// channel's log with its stream position, wire sequence number and
    /// bytes.
    pub fn receive_reliable(&mut self, seq: u16, payload: Vec<u8>) -> (r: Vec<Packet>)
        requires
            old(self).wf(),
        ensures
            spec_receive_reliable_post(*old(self), *final(self), seq, payload@, r@),
    {
        let off = seq_offset(seq, self.incoming_next_reliable);
        if off == 0 {
            assert(seq == self.incoming_next_reliable);
            // In order: deliver it, then everything it unblocks.
            let ghost pdata = payload@;
            let mut out: Vec<Packet> = Vec::new();
            out.push(Packet::from_bytes(payload, PacketMode::ReliableSequenced));
            proof {
                lemma_seq_add_tracks(self.incoming_abs@, 1);
                self.delivered_log@ = self.delivered_log@.push(
                    Delivery { pos: self.incoming_abs@, seq, data: pdata },
                );
                self.incoming_abs@ = self.incoming_abs@ + 1;
            }
            self.incoming_next_reliable = seq_add(self.incoming_next_reliable, 1);
            let ghost mid = *self;
            let mut rest = self.drain_ready();
            let ghost rest0 = rest@;
            proof {
                assert(mid.log().is_prefix_of(self.log()));
                assert(self.log()[old(self).log().len() as int] == mid.log()[old(
                    self,
                ).log().len() as int]);
            }
            out.append(&mut rest);
            assert forall|i2: int| 0 <= i2 < out@.len() implies out@[i2]@.data == self.log()[old(
                self,
            ).log().len() + i2].data by {
                if i2 >= 1 {
                    assert(out@[i2] == rest0[i2 - 1]);
                    assert(rest0[i2 - 1]@.data == self.log()[mid.log().len() + (i2 - 1)].data);
                }
            }
            out
        } else if off < SEQ_WINDOW {
            // New but early: buffer it once; nothing can be delivered yet.
            match self.find_reorder(seq) {
                None => {
                    let ghost pdata = payload@;
                    assert(!old(self).buffered_has(seq));
                    self.reorder.push(ReorderEntry { seq, payload });
                    assert(self.buffered() =~= old(self).buffered().push((seq, pdata)));
                },
                Some(j) => {
                    assert(old(self).buffered()[j as int].0 == seq);
                    assert(old(self).buffered_has(seq));
                },
            }
            assert(self.pending_groups() =~= old(self).pending_groups());
            Vec::new()
        } else {
            // Old or duplicate: drop it.
            Vec::new()
        }
    }

    /// Takes one fragment of an oversized reliable packet; everything it
    /// promises is [`spec_receive_fragment_post`]: the fragment is slotted
    /// into its group (created on first sight); once the group is complete
    /// and in order, the reassembled packet — the group's payloads
    /// concatenated in index order — is delivered together with everything
    /// it unblocks. Malformed fragments and duplicates are dropped and
    /// change nothing.
    pub fn receive_fragment(
        &mut self,
        start_seq: u16,
        frag_count: u16,
        frag_index: u16,
        payload: Vec<u8>,
    ) -> (r: Vec<Packet>)
        requires
            old(self).wf(),
        ensures
            spec_receive_fragment_post(
                *old(self),
                *final(self),
                start_seq,
                frag_count,
                frag_index,
                payload@,
                r@,
            ),
    {
        proof {
            Channel::lemma_groups_found(*self);
        }
        if frag_count == 0 || frag_index >= frag_count {
            return Vec::new();
        }
        let off = seq_offset(start_seq, self.incoming_next_reliable);
        if off >= SEQ_WINDOW {
            // The whole group is old: already delivered.
            return Vec::new();
        }
        let ghost pdata = payload@;
        let ghost slots1 = spec_fragment_slots_after(
            *old(self),
            start_seq,
            frag_count,
            frag_index,
            pdata,
        );
        let found = self.find_group(start_seq);
        proof {
            if found is None {
                assert(!exists|j: int|
                    0 <= j < old(self).groups@.len() && (#[trigger] old(
                        self,
                    ).groups@[j]).start_seq == start_seq);
                assert(old(self).pending_group(start_seq) is None);
            }
        }
        match found {
            Some(gi) => {
                if self.groups[gi].count != frag_count {
                    // Contradicts the group as first seen: drop it.
                    return Vec::new();
                }
                if self.groups[gi].slots[frag_index as usize].is_some() {
                    // Duplicate fragment.
                    return Vec::new();
                }
                proof {
                    // The group as first seen is the pending group this
                    // start sequence number keys.
                    assert(old(self).pending_group(old(self).groups@[gi as int].start_seq)
                        == Some(
                        (
                            old(self).groups@[gi as int].count,
                            old(self).groups@[gi as int].slots@.map_values(
                                |o: Option<Vec<u8>>|
                                    match o {
                                        Some(v) => Some(v@),
                                        None => None,
                                    },
                            ),
                        ),
                    ));
                }
                self.set_group_slot(gi, frag_index as usize, payload);
                proof {
                    Channel::lemma_groups_found(*self);
                    assert(self.groups@[gi as int].slots@.map_values(
                        |o: Option<Vec<u8>>|
                            match o {
                                Some(v) => Some(v@),
                                None => None,
                            },
                    ) =~= slots1);
                    assert(self.pending_group(self.groups@[gi as int].start_seq) == Some(
                        (self.groups@[gi as int].count, slots1),
                    ));
                    assert(self.pending_group(start_seq) == Some(
                        (frag_count, slots1),
                    ));
                }
            },
            None => {
                let mut slots: Vec<Option<Vec<u8>>> = Vec::new();
                let mut k: usize = 0;
                while k < frag_count as usize
                    invariant
                        slots@.len() == k,
                        k <= frag_count as usize,
                        forall|j: int| 0 <= j < k ==> (#[trigger] slots@[j]) is None,
                    decreases frag_count as usize - k,
                {
                    slots.push(None);
                    k = k + 1;
                }
                let mut g = FragmentGroup { start_seq, count: frag_count, slots };
                g.slots.set(frag_index as usize, Some(payload));
                proof {
                    assert(g.slots@.map_values(
                        |o: Option<Vec<u8>>|
                            match o {
                                Some(v) => Some(v@),
                                None => None,
                            },
                    ) =~= slots1);
                }
                self.push_group(g);
                proof {
                    Channel::lemma_groups_found(*self);
                    let last = self.groups@.len() - 1;
                    assert(self.groups@[last] == g);
                    assert(self.pending_group(self.groups@[last].start_seq) == Some(
                        (
                            self.groups@[last].count,
                            self.groups@[last].slots@.map_values(
                                |o: Option<Vec<u8>>|
                                    match o {
                                        Some(v) => Some(v@),
                                        None => None,
                                    },
                            ),
                        ),
                    ));
                    assert(self.pending_group(start_seq) == Some(
                        (frag_count, slots1),
                    ));
                }
            },
        }
        assert(self.buffered() =~= old(self).buffered());
        let ghost mid = *self;
        proof {
            // Nothing waits at the next expected number in the reorder
            // buffer: the channel was drained on entry and fragments never
            // touch it.
            assert forall|j: int|
                0 <= j < mid.buffered().len() implies (#[trigger] mid.buffered()[j]).0
                    != mid.incoming_next() by {
                assert(mid.buffered()[j].0 == mid.reorder@[j].seq);
            }
            assert(!mid.buffered_has(mid.incoming_next()));
            if start_seq != old(self).incoming_next() {
                // Any group pending at the next expected number is an old,
                // incomplete one: this fragment's group sits elsewhere.
                match mid.pending_group(mid.incoming_next()) {
                    Some(g) => {
                        let j = choose|j: int|
                            0 <= j < mid.groups@.len() && (#[trigger] mid.groups@[j]).start_seq
                                == mid.incoming_next();
                        assert(!mid.groups@[j].complete());
                        let m = choose|m: int|
                            0 <= m < mid.groups@[j].slots@.len() && !((#[trigger] mid.groups@[
                                j
                            ].slots@[m]) is Some);
                        assert(!(g.1[m] is Some));
                        assert(!spec_slots_complete(g.1));
                    },
                    None => {},
                }
            }
        }
        let r = self.drain_ready();
        proof {
            if spec_slots_complete(slots1) && start_seq == old(self).incoming_next() {
                assert(r@.len() >= 1);
            } else {
                assert(r@.len() == 0);
            }
        }
        r
    }

    /// On a channel whose group starts are distinct, a group found by index
    /// is the pending group its start sequence number keys.
    proof fn lemma_groups_found(c: Channel)
        requires
            forall|i: int, j: int|
                0 <= i < j < c.groups@.len() ==> c.groups@[i].start_seq
                    != c.groups@[j].start_seq,
        ensures
            forall|i: int|
                0 <= i < c.groups@.len() ==> #[trigger] c.pending_group(c.groups@[i].start_seq)
                    == Some(
                    (
                        c.groups@[i].count,
                        c.groups@[i].slots@.map_values(
                            |o: Option<Vec<u8>>|
                                match o {
                                    Some(v) => Some(v@),
                                    None => None,
                                },
                        ),
                    ),
                ),
    {
        assert forall|i: int| 0 <= i < c.groups@.len() implies #[trigger] c.pending_group(
            c.groups@[i].start_seq,
        ) == Some(
            (
                c.groups@[i].count,
                c.groups@[i].slots@.map_values(
                    |o: Option<Vec<u8>>|
                        match o {
                            Some(v) => Some(v@),
                            None => None,
                        },
                ),
            ),
        ) by {
            let st = c.groups@[i].start_seq;
            assert(exists|j: int|
                0 <= j < c.groups@.len() && (#[trigger] c.groups@[j]).start_seq == st);
            let j = choose|j: int|
                0 <= j < c.groups@.len() && (#[trigger] c.groups@[j]).start_seq == st;
            assert(j == i);
        }
    }
    /// Finds the buffered arrival carrying `seq`, if any.
    fn find_reorder(&self, seq: u16) -> (r: Option<usize>)
        ensures
            r is Some ==> 0 <= r->0 < self.reorder@.len() && self.reorder@[r->0 as int].seq == seq,
            r is None ==> forall|i: int|
                0 <= i < self.reorder@.len() ==> (#[trigger] self.reorder@[i]).seq != seq,
    {
        let mut i: usize = 0;
        while i < self.reorder.len()
            invariant
                i <= self.reorder@.len(),
                forall|j: int| 0 <= j < i ==> (#[trigger] self.reorder@[j]).seq != seq,
            decreases self.reorder@.len() - i,
        {
            if self.reorder[i].seq == seq {
                return Some(i);
            }
            i = i + 1;
        }
        None
    }

    /// Finds the fragment group keyed by `start_seq`, if any.
    fn find_group(&self, start_seq: u16) -> (r: Option<usize>)
        ensures
            r is Some ==> 0 <= r->0 < self.groups@.len() && self.groups@[r->0 as int].start_seq
                == start_seq,
            r is None ==> forall|i: int|
                0 <= i < self.groups@.len() ==> (#[trigger] self.groups@[i]).start_seq != start_seq,
    {
        let mut i: usize = 0;
        while i < self.groups.len()
            invariant
                i <= self.groups@.len(),
                forall|j: int| 0 <= j < i ==> (#[trigger] self.groups@[j]).start_seq != start_seq,
            decreases self.groups@.len() - i,
        {
            if self.groups[i].start_seq == start_seq {
                return Some(i);
            }
            i = i + 1;
        }
        None
    }

    /// Fills one empty slot of one group, leaving everything else unchanged.
    fn set_group_slot(&mut self, gi: usize, idx: usize, payload: Vec<u8>)
        requires
            old(self).wf_core(),
            old(self).drained(),
            gi < old(self).groups@.len(),
            idx < old(self).groups@[gi as int].slots@.len(),
            old(self).groups@[gi as int].slots@[idx as int] is None,
        ensures
            final(self).wf_core(),
            final(self).delivered_log@ == old(self).delivered_log@,
            final(self).incoming_abs@ == old(self).incoming_abs@,
            final(self).incoming_next_reliable == old(self).incoming_next_reliable,
            final(self).incoming_last_unreliable == old(self).incoming_last_unreliable,
            final(self).outgoing_reliable_seq == old(self).outgoing_reliable_seq,
            final(self).outgoing_unreliable_seq == old(self).outgoing_unreliable_seq,
            final(self).reorder@ == old(self).reorder@,
            final(self).groups@.len() == old(self).groups@.len(),
            forall|i: int|
                0 <= i < final(self).groups@.len() && i != gi ==> final(self).groups@[i]
                    == old(self).groups@[i],
            final(self).groups@[gi as int].start_seq == old(self).groups@[gi as int].start_seq,
            final(self).groups@[gi as int].count == old(self).groups@[gi as int].count,
            final(self).groups@[gi as int].slots@ == old(self).groups@[gi as int].slots@.update(
                idx as int,
                Some(payload),
            ),
    {
        let mut g = self.groups.remove(gi);
        g.slots.set(idx, Some(payload));
        self.groups.insert(gi, g);
        assert(self.groups@ =~= old(self).groups@.update(gi as int, self.groups@[gi as int]));
    }

    /// Delivers everything already in order: buffered arrivals at the next
    /// expected sequence number and complete fragment groups starting there,
    /// until neither exists. Every delivery comes out of the buffers as they
    /// stood on entry, and when a complete group already sits at the next
    /// expected sequence number (with no buffered arrival there), its
    /// reassembly is delivered first.
    fn drain_ready(&mut self) -> (r: Vec<Packet>)
        requires
            old(self).wf_core(),
        ensures
            final(self).wf(),
            old(self).log().is_prefix_of(final(self).log()),
            r@.len() == final(self).log().len() - old(self).log().len(),
            forall|i: int|
                0 <= i < r@.len() ==> {
                    &&& (#[trigger] r@[i])@.mode == PacketMode::ReliableSequenced
                    &&& r@[i]@.data == final(self).log()[old(self).log().len() + i].data
                },
            !old(self).buffered_has(old(self).incoming_next()) && (match old(self).pending_group(
                old(self).incoming_next(),
            ) {
                Some(g) => spec_slots_complete(g.1),
                None => false,
            }) ==> {
                &&& r@.len() >= 1
                &&& final(self).log()[old(self).log().len() as int] == (Delivery {
                    pos: old(self).stream_position(),
                    seq: old(self).incoming_next(),
                    data: spec_group_bytes((old(self).pending_group(old(self).incoming_next())->0).1),
                })
            },
            !old(self).buffered_has(old(self).incoming_next()) && !(match old(
                self,
            ).pending_group(old(self).incoming_next()) {
                Some(g) => spec_slots_complete(g.1),
                None => false,
            }) ==> {
                &&& r@.len() == 0
                &&& final(self).reorder@ == old(self).reorder@
                &&& final(self).groups@ == old(self).groups@
                &&& final(self).log() == old(self).log()
                &&& final(self).incoming_next_reliable == old(self).incoming_next_reliable
                &&& final(self).incoming_abs@ == old(self).incoming_abs@
            },
            final(self).incoming_last_unreliable == old(self).incoming_last_unreliable,
            final(self).outgoing_reliable_seq == old(self).outgoing_reliable_seq,
            final(self).outgoing_unreliable_seq == old(self).outgoing_unreliable_seq,
    {
        let ghost hyp_clear = !old(self).buffered_has(old(self).incoming_next());
        let ghost pend0 = old(self).pending_group(old(self).incoming_next());
        let ghost pend0_complete = match pend0 {
            Some(g) => spec_slots_complete(g.1),
            None => false,
        };
        let mut out: Vec<Packet> = Vec::new();
        proof {
            assert(forall|i: int, j: int|
                0 <= i < j < old(self).groups@.len() ==> old(self).groups@[i].start_seq != old(
                    self,
                ).groups@[j].start_seq);
        }
        loop
            invariant
                hyp_clear == !old(self).buffered_has(old(self).incoming_next()),
                pend0 == old(self).pending_group(old(self).incoming_next()),
                pend0_complete == match pend0 {
                    Some(g) => spec_slots_complete(g.1),
                    None => false,
                },
                self.wf_core(),
                old(self).log().is_prefix_of(self.log()),
                out@.len() == self.log().len() - old(self).log().len(),
                forall|i: int|
                    0 <= i < out@.len() ==> {
                        &&& (#[trigger] out@[i])@.mode == PacketMode::ReliableSequenced
                        &&& out@[i]@.data == self.log()[old(self).log().len() + i].data
                    },
                hyp_clear && pend0_complete && out@.len() >= 1 ==> self.log()[old(
                    self,
                ).log().len() as int] == (Delivery {
                    pos: old(self).stream_position(),
                    seq: old(self).incoming_next(),
                    data: spec_group_bytes((pend0->0).1),
                }),
                out@.len() == 0 ==> (self.reorder@ == old(self).reorder@ && self.groups@ == old(
                    self,
                ).groups@ && self.log() == old(self).log() && self.incoming_next_reliable == old(
                    self,
                ).incoming_next_reliable && self.incoming_abs@ == old(self).incoming_abs@),
                out@.len() >= 1 ==> (old(self).buffered_has(old(self).incoming_next())
                    || pend0_complete),
                self.incoming_last_unreliable == old(self).incoming_last_unreliable,
                self.outgoing_reliable_seq == old(self).outgoing_reliable_seq,
                self.outgoing_unreliable_seq == old(self).outgoing_unreliable_seq,
            ensures
                self.drained(),
                out@.len() == 0 ==> !(hyp_clear && pend0_complete),
            decreases self.reorder@.len() + self.groups@.len(),
        {
            if let Some(i) = self.find_reorder(self.incoming_next_reliable) {
                let ghost seq_now = self.incoming_next_reliable;
                let ghost head_reorder = self.reorder@;
                proof {
                    if out@.len() == 0 {
                        // An arrival waits at the next expected number, so
                        // the buffer was not clear of it on entry.
                        assert(old(self).buffered()[i as int] == (
                            old(self).reorder@[i as int].seq,
                            old(self).reorder@[i as int].payload@,
                        ));
                        assert(old(self).buffered_has(seq_now));
                    }
                }
                let entry = self.reorder.remove(i);
                let ghost edata = entry.payload@;
                out.push(Packet::from_bytes(entry.payload, PacketMode::ReliableSequenced));
                proof {
                    lemma_seq_add_tracks(self.incoming_abs@, 1);
                    self.delivered_log@ = self.delivered_log@.push(
                        Delivery { pos: self.incoming_abs@, seq: seq_now, data: edata },
                    );
                    self.incoming_abs@ = self.incoming_abs@ + 1;
                }
                self.incoming_next_reliable = seq_add(self.incoming_next_reliable, 1);
            } else {
                match self.find_complete_group(self.incoming_next_reliable) {
                    Some(gi) => {
                        let ghost seq_now = self.incoming_next_reliable;
                        let ghost head_groups = self.groups@;
                        let ghost gview = self.groups@[gi as int].slots@.map_values(
                            |o: Option<Vec<u8>>|
                                match o {
                                    Some(v) => Some(v@),
                                    None => None,
                                },
                        );
                        proof {
                            // When nothing has been delivered yet, this is
                            // the group pending at the next expected number
                            // on entry.
                            if out@.len() == 0 {
                                Channel::lemma_groups_found(*old(self));
                                assert(old(self).pending_group(
                                    old(self).groups@[gi as int].start_seq,
                                ) == Some((head_groups[gi as int].count, gview)));
                                assert(old(self).pending_group(seq_now) == Some(
                                    (head_groups[gi as int].count, gview),
                                ));
                                assert(spec_slots_complete(gview));
                            }
                        }
                        let g = self.groups.remove(gi);
                        let data = assemble(&g);
                        proof {
                            assert(g.payloads() =~= gview.map_values(
                                |o: Option<Seq<u8>>| o->0,
                            ));
                            assert(data@ == spec_group_bytes(gview));
                        }
                        let ghost ddata = data@;
                        out.push(Packet::from_bytes(data, PacketMode::ReliableSequenced));
                        proof {
                            lemma_seq_add_tracks(self.incoming_abs@, g.count);
                            self.delivered_log@ = self.delivered_log@.push(
                                Delivery { pos: self.incoming_abs@, seq: seq_now, data: ddata },
                            );
                            self.incoming_abs@ = self.incoming_abs@ + g.count as nat;
                        }
                        self.incoming_next_reliable = seq_add(
                            self.incoming_next_reliable,
                            g.count,
                        );
                    },
                    None => {
                        proof {
                            if out@.len() == 0 && hyp_clear && pend0_complete {
                                // The complete group pending at the next
                                // expected number would have been found.
                                let nxt = old(self).incoming_next();
                                assert(old(self).pending_group(nxt) is Some);
                                assert(exists|j: int|
                                    0 <= j < old(self).groups@.len() && (#[trigger] old(
                                        self,
                                    ).groups@[j]).start_seq == nxt);
                                let j = choose|j: int|
                                    0 <= j < old(self).groups@.len() && (#[trigger] old(
                                        self,
                                    ).groups@[j]).start_seq == nxt;
                                assert(self.groups@[j] == old(self).groups@[j]);
                                assert forall|m: int|
                                    0 <= m < old(self).groups@[j].slots@.len() implies (
                                #[trigger] old(self).groups@[j].slots@[m]) is Some by {
                                    assert(((pend0->0).1)[m] is Some);
                                }
                                assert(self.groups@[j].complete());
                                assert(false);
                            }
                        }
                        break ;
                    },
                }
            }
        }
        out
    }

    /// Finds the complete fragment group keyed by `start_seq`, if any.
    fn find_complete_group(&self, start_seq: u16) -> (r: Option<usize>)
        ensures
            r is Some ==> {
                &&& 0 <= r->0 < self.groups@.len()
                &&& self.groups@[r->0 as int].start_seq == start_seq
                &&& self.groups@[r->0 as int].complete()
            },
            r is None ==> forall|i: int|
                0 <= i < self.groups@.len() && (#[trigger] self.groups@[i]).complete()
                    ==> self.groups@[i].start_seq != start_seq,
    {
        let mut i: usize = 0;
        while i < self.groups.len()
            invariant
                i <= self.groups@.len(),
                forall|j: int|
                    0 <= j < i && (#[trigger] self.groups@[j]).complete() ==> self.groups@[j].start_seq
                        != start_seq,
            decreases self.groups@.len() - i,
        {
            if self.groups[i].start_seq == start_seq && group_is_complete(&self.groups[i]) {
                return Some(i);
            }
            i = i + 1;
        }
        None
    }

    /// Adds a fresh fragment group.
    fn push_group(&mut self, g: FragmentGroup)
        requires
            old(self).wf_core(),
            g.wf(),
            forall|i: int|
                0 <= i < old(self).groups@.len() ==> (#[trigger] old(self).groups@[i]).start_seq
                    != g.start_seq,
        ensures
            final(self).wf_core(),
            final(self).delivered_log@ == old(self).delivered_log@,
            final(self).incoming_abs@ == old(self).incoming_abs@,
            final(self).incoming_next_reliable == old(self).incoming_next_reliable,
            final(self).incoming_last_unreliable == old(self).incoming_last_unreliable,
            final(self).outgoing_reliable_seq == old(self).outgoing_reliable_seq,
            final(self).outgoing_unreliable_seq == old(self).outgoing_unreliable_seq,
            final(self).reorder@ == old(self).reorder@,
            final(self).groups@ == old(self).groups@.push(g),
    {
        self.groups.push(g);
    }
}

/// Whether every fragment of a group has arrived.
fn group_is_complete(g: &FragmentGroup) -> (r: bool)
    ensures
        r == g.complete(),
{
    let mut i: usize = 0;
    while i < g.slots.len()
        invariant
            i <= g.slots@.len(),
            forall|j: int| 0 <= j < i ==> (#[trigger] g.slots@[j]) is Some,
        decreases g.slots@.len() - i,
    {
        if g.slots[i].is_none() {
            return false;
        }
        i = i + 1;
    }
    true
}

/// Reassembles a complete fragment group into the original payload: the
/// fragment payloads concatenated in index order.
fn assemble(g: &FragmentGroup) -> (r: Vec<u8>)
    requires
        g.complete(),
    ensures
        r@ == g.payloads().flatten(),
{
    let mut r: Vec<u8> = Vec::new();
    let mut i: usize = 0;
    assert(g.payloads().subrange(0, 0) =~= Seq::<Seq<u8>>::empty());
    assert(r@ =~= g.payloads().subrange(0, 0).flatten());
    while i < g.slots.len()
        invariant
            g.complete(),
            i <= g.slots@.len(),
            r@ == g.payloads().subrange(0, i as int).flatten(),
        decreases g.slots@.len() - i,
    {
        let ghost prefix = g.payloads().subrange(0, i as int);
        match &g.slots[i] {
            Some(p) => {
                assert(g.payloads()[i as int] == p@);
                let mut chunk = clone_bytes(p);
                r.append(&mut chunk);
                proof {
                    prefix.lemma_flatten_push(g.payloads()[i as int]);
                }
                assert(g.payloads().subrange(0, i + 1) =~= prefix.push(g.payloads()[i as int]));
                assert(r@ == g.payloads().subrange(0, i + 1).flatten());
            },
            None => {
                proof {
                    assert(false);
                }
            },
        }
        i = i + 1;
    }
    assert(g.payloads().subrange(0, g.slots@.len() as int) =~= g.payloads());
    r
}

/// Everything `receive_reliable` promises. An arrival at the next expected
/// sequence number is delivered first, recorded at the current stream
/// position with its own bytes, and every further delivery comes out of the
/// channel's buffers; a newer arrival is buffered verbatim, once; an older or
/// duplicate arrival changes nothing. Delivered packets carry exactly the
/// logged bytes.
pub open spec fn spec_receive_reliable_post(
    pre: Channel,
    post: Channel,
    seq: u16,
    payload: Seq<u8>,
    r: Seq<Packet>,
) -> bool {
    &&& post.wf()
    &&& pre.log().is_prefix_of(post.log())
    &&& r.len() == post.log().len() - pre.log().len()
    &&& (forall|i: int|
        0 <= i < r.len() ==> {
            &&& (#[trigger] r[i])@.mode == PacketMode::ReliableSequenced
            &&& r[i]@.data == post.log()[pre.log().len() + i].data
        })
    &&& (seq == pre.incoming_next() ==> {
        &&& r.len() >= 1
        &&& post.log()[pre.log().len() as int] == (Delivery {
            pos: pre.stream_position(),
            seq,
            data: payload,
        })
    })
    &&& (0 < spec_seq_offset(seq, pre.incoming_next()) < SEQ_WINDOW ==> {
        &&& r.len() == 0
        &&& post.log() == pre.log()
        &&& post.incoming_next() == pre.incoming_next()
        &&& post.stream_position() == pre.stream_position()
        &&& post.pending_groups() == pre.pending_groups()
        &&& post.buffered() == (if pre.buffered_has(seq) {
            pre.buffered()
        } else {
            pre.buffered().push((seq, payload))
        })
    })
    &&& (spec_seq_offset(seq, pre.incoming_next()) >= SEQ_WINDOW ==> {
        &&& r.len() == 0
        &&& post == pre
    })
    &&& post.last_unreliable() == pre.last_unreliable()
    &&& post.out_reliable() == pre.out_reliable()
    &&& post.out_unreliable() == pre.out_unreliable()
}

/// Whether a fragment is acceptable on arrival: a sane index, a group not
/// already delivered, and no contradiction with the group as first seen.
pub open spec fn spec_fragment_admissible(
    pre: Channel,
    start_seq: u16,
    frag_count: u16,
    frag_index: u16,
) -> bool {
    &&& frag_count >= 1
    &&& frag_index < frag_count
    &&& spec_seq_offset(start_seq, pre.incoming_next()) < SEQ_WINDOW
    &&& (match pre.pending_group(start_seq) {
        Some(g) => g.0 == frag_count && g.1[frag_index as int] is None,
        None => true,
    })
}

/// The group's slots once an admissible fragment is slotted in: the pending
/// slots (or a fresh empty row) with this payload at its index.
pub open spec fn spec_fragment_slots_after(
    pre: Channel,
    start_seq: u16,
    frag_count: u16,
    frag_index: u16,
    payload: Seq<u8>,
) -> Seq<Option<Seq<u8>>> {
    (match pre.pending_group(start_seq) {
        Some(g) => g.1,
        None => spec_empty_slots(frag_count as nat),
    }).update(frag_index as int, Some(payload))
}

/// Everything `receive_fragment` promises. An inadmissible fragment changes
/// nothing. An admissible fragment joins its group; when it completes the
/// group at the next expected sequence number, the reassembled packet — the
/// group's payloads concatenated in index order — is delivered first,
/// followed by whatever it unblocks; otherwise nothing is delivered and the
/// group keeps waiting with this slot filled.
pub open spec fn spec_receive_fragment_post(
    pre: Channel,
    post: Channel,
    start_seq: u16,
    frag_count: u16,
    frag_index: u16,
    payload: Seq<u8>,
    r: Seq<Packet>,
) -> bool {
    &&& post.wf()
    &&& pre.log().is_prefix_of(post.log())
    &&& r.len() == post.log().len() - pre.log().len()
    &&& (forall|i: int|
        0 <= i < r.len() ==> {
            &&& (#[trigger] r[i])@.mode == PacketMode::ReliableSequenced
            &&& r[i]@.data == post.log()[pre.log().len() + i].data
        })
    &&& (!spec_fragment_admissible(pre, start_seq, frag_count, frag_index) ==> {
        &&& r.len() == 0
        &&& post == pre
    })
    &&& (spec_fragment_admissible(pre, start_seq, frag_count, frag_index) ==> {
        let slots1 = spec_fragment_slots_after(pre, start_seq, frag_count, frag_index, payload);
        &&& (spec_slots_complete(slots1) && start_seq == pre.incoming_next() ==> {
            &&& r.len() >= 1
            &&& post.log()[pre.log().len() as int] == (Delivery {
                pos: pre.stream_position(),
                seq: start_seq,
                data: spec_group_bytes(slots1),
            })
        })
        &&& (!(spec_slots_complete(slots1) && start_seq == pre.incoming_next()) ==> {
            &&& r.len() == 0
            &&& post.log() == pre.log()
            &&& post.incoming_next() == pre.incoming_next()
            &&& post.buffered() == pre.buffered()
            &&& post.pending_group(start_seq) == Some::<(u16, Seq<Option<Seq<u8>>>)>(
                (frag_count, slots1),
            )
        })
    })
    &&& post.last_unreliable() == pre.last_unreliable()
    &&& post.out_reliable() == pre.out_reliable()
    &&& post.out_unreliable() == pre.out_unreliable()
}

/// Law: on a well-formed channel the reliable deliveries made so far are in
/// strictly increasing stream order — every reliable packet is delivered at
/// most once, and never before a packet that precedes it in the stream — and
/// the sequence number the channel expects next is exactly the wire form of
/// its stream position.
pub proof fn lemma_reliable_delivery_ordered(c: &Channel)
    requires
        c.wf(),
    ensures
        forall|i: int, j: int| 0 <= i < j < c.log().len() ==> c.log()[i].pos < c.log()[j].pos,
        forall|i: int|
            0 <= i < c.log().len() ==> (#[trigger] c.log()[i]).pos < c.stream_position(),
        forall|i: int|
            0 <= i < c.log().len() ==> (#[trigger] c.log()[i]).seq as int == (c.log()[i].pos + 1)
                % 0x1_0000,
        c.incoming_next() as int == (c.stream_position() + 1) % 0x1_0000,
{
}

} // verus!
