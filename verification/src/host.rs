//! The host: one endpoint of the protocol, multiplexing many peers over one
//! datagram socket.
//!
//! The host owns the full peer table and the event and outgoing-datagram
//! queues. The caller owns the socket: it binds it to the host's address,
//! hands every inbound datagram to [`Host::process`], drives housekeeping
//! with [`Host::service`], and sends whatever [`Host::take_outgoing`] hands
//! back.

use vstd::prelude::*;

use crate::Error;
use crate::address::Address;
use crate::packet::Packet;
use crate::peer::{
    MAX_CHANNEL_COUNT, Peer, PeerPacket, PeerState, spec_send_packet_post,
};
use crate::throttle::next_random;
use crate::wire::{Command, CommandView, decode, spec_decode, spec_encode};

verus! {

/// Represents a bandwidth limit or unlimited.
#[derive(Debug, Clone, Copy, PartialEq, Eq, Hash, Structural)]
pub enum BandwidthLimit {
    /// No limit on bandwidth.
    Unlimited,
    /// Bandwidth limit in bytes/second.
    Limited(u32),
}

/// Represents a channel limit or unlimited.
#[derive(Debug, Clone, Copy, PartialEq, Eq, Hash, Structural)]
pub enum ChannelLimit {
    /// The protocol's own maximum limit on the number of channels.
    Maximum,
    /// Channel limit.
    Limited(usize),
}

impl BandwidthLimit {
    /// The raw bytes-per-second figure: zero stands for unlimited.
    pub open spec fn spec_raw(self) -> u32 {
        match self {
            BandwidthLimit::Unlimited => 0,
            BandwidthLimit::Limited(l) => l,
        }
    }

    /// The raw bytes-per-second figure: zero stands for unlimited.
    pub fn to_raw(&self) -> (r: u32)
        ensures
            r == self.spec_raw(),
    {
        match *self {
            BandwidthLimit::Unlimited => 0,
            BandwidthLimit::Limited(l) => l,
        }
    }
}

impl ChannelLimit {
    /// The channel count a limit resolves to: the protocol maximum, or the
    /// given figure held inside `1..=MAX_CHANNEL_COUNT`.
    pub open spec fn spec_count(self) -> usize {
        match self {
            ChannelLimit::Maximum => MAX_CHANNEL_COUNT,
            ChannelLimit::Limited(l) => if l == 0 {
                1usize
            } else if l > MAX_CHANNEL_COUNT {
                MAX_CHANNEL_COUNT
            } else {
                l
            },
        }
    }

    /// The channel count this limit resolves to.
    pub fn to_count(&self) -> (r: usize)
        ensures
            r == self.spec_count(),
            1 <= r <= MAX_CHANNEL_COUNT,
    {
        match *self {
            ChannelLimit::Maximum => MAX_CHANNEL_COUNT,
            ChannelLimit::Limited(l) => {
                if l == 0 {
                    1
                } else if l > MAX_CHANNEL_COUNT {
                    MAX_CHANNEL_COUNT
                } else {
                    l
                }
            },
        }
    }
}

/// A tagged outcome of a service call. The peer is named by its stable index
/// in the host's table.
#[derive(Debug)]
pub enum Event {
    /// A connection was established with the peer.
    Connect(usize),
    /// The peer disconnected; carries the user data of the disconnect notice.
    Disconnect(usize, u32),
    /// A packet arrived from the peer on the given channel.
    Receive {
        /// The peer the packet came from.
        peer: usize,
        /// The channel the packet arrived on.
        channel_id: u8,
        /// The packet itself.
        packet: Packet,
    },
}

/// One datagram ready for the caller's socket.
#[derive(Debug)]
pub struct Datagram {
    /// Where to send it.
    pub to: Address,
    /// The datagram's bytes: one encoded protocol command.
    pub data: Vec<u8>,
}

/// Mathematical model of a [`Datagram`]: destination and bytes.
#[verifier::ext_equal]
pub ghost struct DatagramView {
    /// Where it goes.
    pub to: crate::address::AddressView,
    /// Its bytes.
    pub data: Seq<u8>,
}

/// Whether an event is the receive event for one waiting packet of one peer.
pub open spec fn spec_is_receive_of(e: Event, peer: usize, pp: PeerPacket) -> bool {
    match e {
        Event::Receive { peer: p2, channel_id, packet } => {
            &&& p2 == peer
            &&& channel_id == pp.channel_id
            &&& packet@ == pp.packet@
        },
        _ => false,
    }
}

/// The peer table is unchanged except at slot `i`.
pub open spec fn spec_peers_updated_at<T>(pre: Seq<Peer<T>>, post: Seq<Peer<T>>, i: int) -> bool {
    &&& post.len() == pre.len()
    &&& 0 <= i < pre.len()
    &&& (forall|j: int| 0 <= j < pre.len() && j != i ==> post[j] == pre[j])
}

/// Whether slot `i` holds the live peer standing at the given address.
pub open spec fn spec_live_peer_at<T>(
    peers: Seq<Peer<T>>,
    a: crate::address::AddressView,
    i: int,
) -> bool {
    &&& 0 <= i < peers.len()
    &&& peers[i].spec_remote() == a
    &&& !(peers[i].spec_state() is Disconnected)
}

/// The datagrams one peer's queued commands become: one per command, in
/// order, each addressed to the peer's remote endpoint and carrying the
/// command's encoding.
pub open spec fn spec_peer_datagrams<T>(p: Peer<T>) -> Seq<DatagramView> {
    Seq::new(
        p.spec_outgoing().len(),
        |k: int|
            DatagramView { to: p.spec_remote(), data: spec_encode(p.spec_outgoing()[k]) },
    )
}

/// The datagrams a whole peer table flushes, slot by slot in order.
pub open spec fn spec_flush_datagrams<T>(peers: Seq<Peer<T>>) -> Seq<DatagramView>
    decreases peers.len(),
{
    if peers.len() == 0 {
        Seq::empty()
    } else {
        spec_flush_datagrams(peers.drop_last()) + spec_peer_datagrams(peers.last())
    }
}

/// Flushed-datagram counting extends one slot at a time.
proof fn lemma_flush_datagrams_step<T>(peers: Seq<Peer<T>>, i: int)
    requires
        0 <= i < peers.len(),
    ensures
        spec_flush_datagrams(peers.subrange(0, i + 1)) == spec_flush_datagrams(
            peers.subrange(0, i),
        ) + spec_peer_datagrams(peers[i]),
{
    assert(peers.subrange(0, i + 1).drop_last() =~= peers.subrange(0, i));
    assert(peers.subrange(0, i + 1).last() == peers[i]);
}

/// How many commands sit queued across a peer table, one datagram each when
/// flushed.
pub open spec fn spec_total_queued<T>(peers: Seq<Peer<T>>) -> nat
    decreases peers.len(),
{
    if peers.len() == 0 {
        0
    } else {
        spec_total_queued(peers.drop_last()) + peers.last().spec_outgoing().len()
    }
}

/// Queued-command counting extends one slot at a time.
proof fn lemma_total_queued_step<T>(peers: Seq<Peer<T>>, i: int)
    requires
        0 <= i < peers.len(),
    ensures
        spec_total_queued(peers.subrange(0, i + 1)) == spec_total_queued(peers.subrange(0, i))
            + peers[i].spec_outgoing().len(),
{
    assert(peers.subrange(0, i + 1).drop_last() =~= peers.subrange(0, i));
    assert(peers.subrange(0, i + 1).last() == peers[i]);
}

/// The datagrams one housekeeping tick retransmits for a peer: the encodings
/// of its overdue in-flight commands, in order, addressed to its remote
/// endpoint.
pub open spec fn spec_peer_retx_datagrams<T>(p: Peer<T>, now: u32) -> Seq<DatagramView> {
    Seq::new(
        crate::peer::spec_retransmits(p.spec_sent(), now, p.spec_timeouts().0).len(),
        |k: int|
            DatagramView {
                to: p.spec_remote(),
                data: crate::peer::spec_retransmits(p.spec_sent(), now, p.spec_timeouts().0)[k],
            },
    )
}

/// The retransmissions a whole housekeeping pass emits, slot by slot in order.
pub open spec fn spec_housekeep_datagrams<T>(peers: Seq<Peer<T>>, now: u32) -> Seq<DatagramView>
    decreases peers.len(),
{
    if peers.len() == 0 {
        Seq::empty()
    } else {
        spec_housekeep_datagrams(peers.drop_last(), now) + spec_peer_retx_datagrams(
            peers.last(),
            now,
        )
    }
}

/// Housekeeping-retransmission counting extends one slot at a time.
proof fn lemma_housekeep_datagrams_step<T>(peers: Seq<Peer<T>>, i: int, now: u32)
    requires
        0 <= i < peers.len(),
    ensures
        spec_housekeep_datagrams(peers.subrange(0, i + 1), now) == spec_housekeep_datagrams(
            peers.subrange(0, i),
            now,
        ) + spec_peer_retx_datagrams(peers[i], now),
{
    assert(peers.subrange(0, i + 1).drop_last() =~= peers.subrange(0, i));
    assert(peers.subrange(0, i + 1).last() == peers[i]);
}

/// One appended housekeeping event is accounted for: a disconnect for a slot
/// that exhausted its retransmission limit while established, or a disconnect
/// for a freed zombie slot carrying its stored user data.
pub open spec fn spec_housekeep_event<T>(peers: Seq<Peer<T>>, now: u32, e: Event) -> bool {
    exists|j: int|
        0 <= j < peers.len() && {
            let timed = crate::peer::spec_any_timed_out(
                (#[trigger] peers[j]).spec_sent(),
                now,
                peers[j].spec_timeouts().0,
            );
            ||| (e == Event::Disconnect(j as usize, 0) && timed && !(peers[j].spec_state()
                is Connecting))
            ||| (e == Event::Disconnect(j as usize, peers[j].spec_disconnect_data())
                && peers[j].spec_state() is Zombie && !timed)
        }
}

/// The host's creation-time configuration is untouched: capacity, channel
/// limit, bound address and both bandwidth figures all survive the call.
pub open spec fn spec_config_unchanged<T>(pre: Host<T>, post: Host<T>) -> bool {
    &&& post.spec_peer_limit() == pre.spec_peer_limit()
    &&& post.spec_channel_limit() == pre.spec_channel_limit()
    &&& post.spec_address() == pre.spec_address()
    &&& post.spec_incoming_bandwidth() == pre.spec_incoming_bandwidth()
    &&& post.spec_outgoing_bandwidth() == pre.spec_outgoing_bandwidth()
}

/// No live peer in the table stands at the given address.
pub open spec fn spec_no_live_peer_for<T>(
    peers: Seq<Peer<T>>,
    a: crate::address::AddressView,
) -> bool {
    forall|i: int|
        0 <= i < peers.len() ==> !((#[trigger] peers[i]).spec_remote() == a && !(
        peers[i].spec_state() is Disconnected))
}

/// Some peer in the table stands at the given address, mid-handshake on the
/// accepting side, carrying the request's user data, with the settled
/// channel count, and with exactly the accepting reply queued.
pub open spec fn spec_seated_for<T>(
    peers: Seq<Peer<T>>,
    a: crate::address::AddressView,
    channel_count: u8,
    user_data: u32,
    limit: usize,
) -> bool {
    let settled: int = if (channel_count as int) > (limit as int) {
        limit as int
    } else {
        channel_count as int
    };
    exists|i: int|
        {
            &&& 0 <= i < peers.len()
            &&& (#[trigger] peers[i]).spec_remote() == a
            &&& peers[i].spec_state() is AcknowledgingConnect
            &&& peers[i].spec_event_data() == user_data
            &&& peers[i].spec_channels().len() == settled
            &&& peers[i].spec_outgoing() =~= seq![
                CommandView::ConnectAccept { channel_count: settled as u8 },
            ]
        }
}

impl View for Datagram {
    type V = DatagramView;

    open spec fn view(&self) -> DatagramView {
        DatagramView { to: self.to@, data: self.data@ }
    }
}

/// One endpoint of the protocol: the peer table, the event queue, and the
/// outgoing datagrams, all driven by the caller's socket loop.
pub struct Host<T> {
    address: Address,
    peers: Vec<Peer<T>>,
    peer_limit: usize,
    channel_limit: usize,
    incoming_bandwidth: u32,
    outgoing_bandwidth: u32,
    events: Vec<Event>,
    outgoing: Vec<Datagram>,
    time: u32,
    rng: u32,
}

impl<T> Host<T> {
    /// The peer table: every slot ever used, reusable once disconnected.
    pub closed spec fn spec_peers(&self) -> Seq<Peer<T>> {
        self.peers@
    }

    /// The most peers this host will hold at once.
    pub closed spec fn spec_peer_limit(&self) -> usize {
        self.peer_limit
    }

    /// The channel count allowed to future connections.
    pub closed spec fn spec_channel_limit(&self) -> usize {
        self.channel_limit
    }

    /// The queued lifecycle events not yet returned.
    pub closed spec fn spec_events(&self) -> Seq<Event> {
        self.events@
    }

    /// The datagrams waiting for the caller's socket.
    pub closed spec fn spec_outgoing(&self) -> Seq<Datagram> {
        self.outgoing@
    }

    /// The waiting datagrams, as destination and bytes.
    pub closed spec fn spec_outgoing_views(&self) -> Seq<DatagramView> {
        self.outgoing@.map_values(|d: Datagram| d@)
    }

    /// The address this host stands at.
    pub closed spec fn spec_address(&self) -> crate::address::AddressView {
        self.address@
    }

    /// The configured downstream bandwidth, zero for unlimited.
    pub closed spec fn spec_incoming_bandwidth(&self) -> u32 {
        self.incoming_bandwidth
    }

    /// The configured upstream bandwidth, zero for unlimited.
    pub closed spec fn spec_outgoing_bandwidth(&self) -> u32 {
        self.outgoing_bandwidth
    }

    /// The protocol clock, in milliseconds, as last set by `service`.
    pub closed spec fn spec_time(&self) -> u32 {
        self.time
    }

    /// Well-formedness: a real peer limit, a channel limit on the protocol's
    /// scale, no more peer slots than the limit, and every peer well-formed.
    pub open spec fn wf(&self) -> bool {
        &&& self.spec_peer_limit() >= 1
        &&& 1 <= self.spec_channel_limit() <= MAX_CHANNEL_COUNT
        &&& self.spec_peers().len() == self.spec_peer_limit()
        &&& (forall|i: int|
            0 <= i < self.spec_peers().len() ==> (#[trigger] self.spec_peers()[i]).wf())
    }

    /// Whether a fresh connection could still be seated: a free slot exists
    /// or the table has room to grow.
    pub open spec fn has_room(&self) -> bool {
        ||| self.spec_peers().len() < self.spec_peer_limit()
        ||| exists|i: int|
            0 <= i < self.spec_peers().len() && (#[trigger] self.spec_peers()[i]).spec_state()
                is Disconnected
    }

    /// Creates a host bound to `address`, holding at most `peer_limit` peers.
    /// A zero peer limit is an invalid configuration.
    pub fn new(
        address: Address,
        peer_limit: usize,
        channel_limit: ChannelLimit,
        incoming_bandwidth: BandwidthLimit,
        outgoing_bandwidth: BandwidthLimit,
    ) -> (r: Result<Host<T>, Error>)
        ensures
            peer_limit == 0 <==> r == Err::<Host<T>, Error>(Error::Capacity),
            peer_limit >= 1 ==> {
                &&& r is Ok
                &&& r->Ok_0.wf()
                &&& r->Ok_0.spec_address() == address@
                &&& r->Ok_0.spec_peer_limit() == peer_limit
                &&& r->Ok_0.spec_channel_limit() == channel_limit.spec_count()
                &&& r->Ok_0.spec_incoming_bandwidth() == incoming_bandwidth.spec_raw()
                &&& r->Ok_0.spec_outgoing_bandwidth() == outgoing_bandwidth.spec_raw()
                &&& r->Ok_0.spec_peers().len() == peer_limit
                &&& (forall|j: int|
                    0 <= j < peer_limit ==> (#[trigger] r->Ok_0.spec_peers()[j]).spec_state()
                        is Disconnected)
                &&& (forall|j: int|
                    0 <= j < peer_limit ==> (#[trigger] r->Ok_0.spec_peers()[j]).spec_received().len()
                        == 0)
                &&& r->Ok_0.spec_events() =~= Seq::<Event>::empty()
                &&& r->Ok_0.spec_outgoing() =~= Seq::<Datagram>::empty()
            },
    {
        if peer_limit == 0 {
            return Err(Error::Capacity);
        }
        // The whole table is allocated up front: one reusable slot per
        // allowed peer, as the protocol's arena design asks.
        let mut peers: Vec<Peer<T>> = Vec::new();
        let mut k: usize = 0;
        while k < peer_limit
            invariant
                k <= peer_limit,
                peers@.len() == k,
                forall|j: int|
                    0 <= j < k ==> {
                        &&& (#[trigger] peers@[j]).wf()
                        &&& peers@[j].spec_state() is Disconnected
                        &&& peers@[j].spec_received().len() == 0
                    },
            decreases peer_limit - k,
        {
            peers.push(
                Peer::new(Address::new_v4(0, 0, 0, 0, 0), 1, PeerState::Disconnected, 0, 0, 0),
            );
            k = k + 1;
        }
        Ok(
            Host {
                address,
                peers,
                peer_limit,
                channel_limit: channel_limit.to_count(),
                incoming_bandwidth: incoming_bandwidth.to_raw(),
                outgoing_bandwidth: outgoing_bandwidth.to_raw(),
                events: Vec::new(),
                outgoing: Vec::new(),
                time: 0,
                rng: 0x12345678,
            },
        )
    }

    /// Returns the address of this host.
    pub fn address(&self) -> (r: Address)
        ensures
            r@ == self.spec_address(),
    {
        self.address.duplicate()
    }

    /// Returns the number of peers allocated for this host: the creation-time
    /// capacity, every slot of which `peers` iterates.
    pub fn peer_count(&self) -> (r: usize)
        ensures
            r == self.spec_peer_limit(),
    {
        self.peer_limit
    }

    /// How many peer slots the table holds — the same figure as
    /// `peer_count`, since the whole table is allocated at creation.
    pub fn peer_slots(&self) -> (r: usize)
        ensures
            r == self.spec_peers().len(),
    {
        self.peers.len()
    }

    /// The stable indices of every allocated peer slot, disconnected slots
    /// included: exactly `peer_count()` entries, in arena order.
    pub fn peers(&self) -> (r: Vec<usize>)
        requires
            self.wf(),
        ensures
            r@.len() == self.spec_peer_limit(),
            r@.len() == self.spec_peers().len(),
            forall|k: int| 0 <= k < r@.len() ==> r@[k] == k,
    {
        let mut r: Vec<usize> = Vec::new();
        let mut i: usize = 0;
        while i < self.peers.len()
            invariant
                i <= self.spec_peers().len(),
                r@.len() == i,
                forall|k: int| 0 <= k < i ==> r@[k] == k,
            decreases self.spec_peers().len() - i,
        {
            r.push(i);
            i = i + 1;
        }
        r
    }

    /// A view of one peer slot.
    pub fn peer(&self, i: usize) -> (r: &Peer<T>)
        requires
            i < self.spec_peers().len(),
        ensures
            *r == self.spec_peers()[i as int],
    {
        &self.peers[i]
    }

    /// Returns the downstream bandwidth of this host in bytes/second.
    pub fn incoming_bandwidth(&self) -> (r: u32)
        ensures
            r == self.spec_incoming_bandwidth(),
    {
        self.incoming_bandwidth
    }

    /// Returns the upstream bandwidth of this host in bytes/second.
    pub fn outgoing_bandwidth(&self) -> (r: u32)
        ensures
            r == self.spec_outgoing_bandwidth(),
    {
        self.outgoing_bandwidth
    }

    /// Sets the bandwidth limits for this host.
    pub fn set_bandwith_limits(
        &mut self,
        incoming_bandwith: BandwidthLimit,
        outgoing_bandwidth: BandwidthLimit,
    )
        requires
            old(self).wf(),
        ensures
            final(self).wf(),
            final(self).spec_incoming_bandwidth() == incoming_bandwith.spec_raw(),
            final(self).spec_outgoing_bandwidth() == outgoing_bandwidth.spec_raw(),
            final(self).spec_peers() == old(self).spec_peers(),
            final(self).spec_events() == old(self).spec_events(),
            final(self).spec_outgoing() == old(self).spec_outgoing(),
            final(self).spec_channel_limit() == old(self).spec_channel_limit(),
            final(self).spec_peer_limit() == old(self).spec_peer_limit(),
            final(self).spec_address() == old(self).spec_address(),
            final(self).spec_time() == old(self).spec_time(),
    {
        self.incoming_bandwidth = incoming_bandwith.to_raw();
        self.outgoing_bandwidth = outgoing_bandwidth.to_raw();
    }

    /// Sets the maximum allowed channels of future connections.
    pub fn set_channel_limit(&mut self, max_channel_count: ChannelLimit)
        requires
            old(self).wf(),
        ensures
            final(self).wf(),
            final(self).spec_channel_limit() == max_channel_count.spec_count(),
            final(self).spec_peers() == old(self).spec_peers(),
            final(self).spec_events() == old(self).spec_events(),
            final(self).spec_outgoing() == old(self).spec_outgoing(),
            final(self).spec_incoming_bandwidth() == old(self).spec_incoming_bandwidth(),
            final(self).spec_outgoing_bandwidth() == old(self).spec_outgoing_bandwidth(),
            final(self).spec_peer_limit() == old(self).spec_peer_limit(),
            final(self).spec_address() == old(self).spec_address(),
            final(self).spec_time() == old(self).spec_time(),
    {
        self.channel_limit = max_channel_count.to_count();
    }

    /// Returns the limit of channels per connected peer for this host.
    pub fn channel_limit(&self) -> (r: ChannelLimit)
        requires
            self.wf(),
        ensures
            r == if self.spec_channel_limit() == MAX_CHANNEL_COUNT {
                ChannelLimit::Maximum
            } else {
                ChannelLimit::Limited(self.spec_channel_limit())
            },
    {
        if self.channel_limit == MAX_CHANNEL_COUNT {
            ChannelLimit::Maximum
        } else {
            ChannelLimit::Limited(self.channel_limit)
        }
    }

    /// Finds the slot whose peer stands at `addr` and is not disconnected.
    fn find_peer(&self, addr: &Address) -> (r: Option<usize>)
        ensures
            r is Some ==> {
                &&& 0 <= r->0 < self.spec_peers().len()
                &&& self.spec_peers()[r->0 as int].spec_remote() == addr@
                &&& !(self.spec_peers()[r->0 as int].spec_state() is Disconnected)
            },
            r is None ==> forall|i: int|
                0 <= i < self.spec_peers().len() ==> !((#[trigger] self.spec_peers()[i]).spec_remote()
                    == addr@ && !(self.spec_peers()[i].spec_state() is Disconnected)),
    {
        let mut i: usize = 0;
        while i < self.peers.len()
            invariant
                i <= self.spec_peers().len(),
                forall|j: int|
                    0 <= j < i ==> !((#[trigger] self.spec_peers()[j]).spec_remote() == addr@ && !(
                    self.spec_peers()[j].spec_state() is Disconnected)),
            decreases self.spec_peers().len() - i,
        {
            let matches_addr = self.peers[i].address().same_as(addr);
            let live = !matches!(self.peers[i].state(), PeerState::Disconnected);
            if matches_addr && live {
                return Some(i);
            }
            i = i + 1;
        }
        None
    }

    /// Finds a reusable disconnected slot.
    fn find_free_slot(&self) -> (r: Option<usize>)
        ensures
            r is Some ==> 0 <= r->0 < self.spec_peers().len() && self.spec_peers()[
                r->0 as int
            ].spec_state() is Disconnected,
            r is None ==> forall|i: int|
                0 <= i < self.spec_peers().len() ==> !((#[trigger] self.spec_peers()[i]).spec_state()
                    is Disconnected),
    {
        let mut i: usize = 0;
        while i < self.peers.len()
            invariant
                i <= self.spec_peers().len(),
                forall|j: int|
                    0 <= j < i ==> !((#[trigger] self.spec_peers()[j]).spec_state()
                        is Disconnected),
            decreases self.spec_peers().len() - i,
        {
            if matches!(self.peers[i].state(), PeerState::Disconnected) {
                return Some(i);
            }
            i = i + 1;
        }
        None
    }

    /// Initiates a connection to a foreign host: seats a peer in the
    /// handshake state and queues the connection request. Returns the peer's
    /// stable index. The connection is done once a connect event for this
    /// peer arrives. Fails with a capacity error — and changes nothing — when
    /// the channel count is outside the host's limit or the peer table is
    /// full.
    #[verifier::rlimit(60)]
    pub fn connect(&mut self, address: &Address, channel_count: usize, user_data: u32) -> (r:
        Result<usize, Error>)
        requires
            old(self).wf(),
        ensures
            final(self).wf(),
            spec_config_unchanged(*old(self), *final(self)),
            r is Err <==> (channel_count == 0 || channel_count > old(self).spec_channel_limit()
                || !old(self).has_room()),
            r is Err ==> r == Err::<usize, Error>(Error::Capacity) && *final(self) == *old(self),
            r is Ok ==> {
                &&& (r->Ok_0 as int) < final(self).spec_peers().len()
                &&& final(self).spec_peers()[r->Ok_0 as int].spec_state() == PeerState::Connecting
                &&& final(self).spec_peers()[r->Ok_0 as int].spec_remote() == address@
                &&& final(self).spec_peers()[r->Ok_0 as int].spec_channels().len()
                    == channel_count
                &&& final(self).spec_peers()[r->Ok_0 as int].spec_outgoing() =~= seq![
                    CommandView::Connect {
                        channel_count: channel_count as u8,
                        user_data,
                    },
                ]
                &&& final(self).spec_events() == old(self).spec_events()
            },
    {
        if channel_count == 0 || channel_count > self.channel_limit {
            return Err(Error::Capacity);
        }
        let slot = self.find_free_slot();
        if slot.is_none() && self.peers.len() >= self.peer_limit {
            return Err(Error::Capacity);
        }
        self.rng = next_random(self.rng);
        let mut fresh: Peer<T> = Peer::new(
            address.duplicate(),
            channel_count,
            PeerState::Connecting,
            user_data,
            self.time,
            self.rng,
        );
        fresh.start_connect(channel_count as u8, user_data);
        match slot {
            Some(i) => {
                let ghost prev = self.peers@;
                let _old_peer = self.peers.remove(i);
                self.peers.insert(i, fresh);
                assert(self.peers@ =~= prev.update(i as int, self.peers@[i as int]));
                Ok(i)
            },
            None => {
                self.peers.push(fresh);
                Ok(self.peers.len() - 1)
            },
        }
    }

    /// Queues a packet to be sent to the peer in slot `i`; actual
    /// transmission happens during `service` or `flush`.
    pub fn send_packet(&mut self, i: usize, packet: Packet, channel_id: u8) -> (r: Result<
        (),
        Error,
    >)
        requires
            old(self).wf(),
            i < old(self).spec_peers().len(),
        ensures
            final(self).wf(),
            spec_config_unchanged(*old(self), *final(self)),
            final(self).spec_peers().len() == old(self).spec_peers().len(),
            forall|j: int|
                0 <= j < old(self).spec_peers().len() && j != i ==> final(self).spec_peers()[j]
                    == old(self).spec_peers()[j],
            spec_send_packet_post(
                old(self).spec_peers()[i as int],
                final(self).spec_peers()[i as int],
                packet@,
                channel_id,
                r,
            ),
            final(self).spec_events() == old(self).spec_events(),
            final(self).spec_outgoing() == old(self).spec_outgoing(),
    {
        let ghost prev = self.peers@;
        let mut p = self.peers.remove(i);
        let r = p.send_packet(packet, channel_id);
        self.peers.insert(i, p);
        assert(self.peers@ =~= prev.update(i as int, self.peers@[i as int]));
        r
    }

    /// Dequeues one packet already delivered by the peer in slot `i`.
    pub fn peer_receive(&mut self, i: usize) -> (r: Option<PeerPacket>)
        requires
            old(self).wf(),
            i < old(self).spec_peers().len(),
        ensures
            final(self).wf(),
            spec_config_unchanged(*old(self), *final(self)),
            final(self).spec_peers().len() == old(self).spec_peers().len(),
            forall|j: int|
                0 <= j < old(self).spec_peers().len() && j != i ==> final(self).spec_peers()[j]
                    == old(self).spec_peers()[j],
            ({
                let pre = old(self).spec_peers()[i as int];
                let post = final(self).spec_peers()[i as int];
                if pre.spec_received().len() == 0 {
                    r is None && post == pre
                } else {
                    &&& r is Some
                    &&& r->0 == pre.spec_received()[0]
                    &&& post.spec_received() == pre.spec_received().drop_first()
                }
            }),
            final(self).spec_events() == old(self).spec_events(),
            final(self).spec_outgoing() == old(self).spec_outgoing(),
            final(self).spec_time() == old(self).spec_time(),
    {
        let ghost prev = self.peers@;
        let mut p = self.peers.remove(i);
        let r = p.receive();
        self.peers.insert(i, p);
        assert(self.peers@ =~= prev.update(i as int, self.peers@[i as int]));
        r
    }

    /// Disconnects the peer in slot `i`; a disconnect event carrying
    /// `user_data` surfaces once the notice is acknowledged.
    pub fn disconnect(&mut self, i: usize, user_data: u32)
        requires
            old(self).wf(),
            i < old(self).spec_peers().len(),
        ensures
            final(self).wf(),
            spec_config_unchanged(*old(self), *final(self)),
            final(self).spec_peers().len() == old(self).spec_peers().len(),
            forall|j: int|
                0 <= j < old(self).spec_peers().len() && j != i ==> final(self).spec_peers()[j]
                    == old(self).spec_peers()[j],
            old(self).spec_peers()[i as int].spec_state() is Connected ==> {
                &&& final(self).spec_peers()[i as int].spec_state() == PeerState::Disconnecting
                &&& final(self).spec_peers()[i as int].spec_disconnect_data() == user_data
            },
    {
        let ghost prev = self.peers@;
        let mut p = self.peers.remove(i);
        p.disconnect(user_data);
        self.peers.insert(i, p);
        assert(self.peers@ =~= prev.update(i as int, self.peers@[i as int]));
    }

    /// Disconnects the peer in slot `i` immediately: one unacknowledged
    /// notice goes out, and no disconnect event will surface.
    pub fn disconnect_now(&mut self, i: usize, user_data: u32)
        requires
            old(self).wf(),
            i < old(self).spec_peers().len(),
        ensures
            final(self).wf(),
            spec_config_unchanged(*old(self), *final(self)),
            final(self).spec_peers().len() == old(self).spec_peers().len(),
            forall|j: int|
                0 <= j < old(self).spec_peers().len() && j != i ==> final(self).spec_peers()[j]
                    == old(self).spec_peers()[j],
            final(self).spec_peers()[i as int].spec_state() == PeerState::Disconnected,
            final(self).spec_events() == old(self).spec_events(),
    {
        let ghost prev = self.peers@;
        let mut p = self.peers.remove(i);
        p.disconnect_now(user_data);
        self.peers.insert(i, p);
        assert(self.peers@ =~= prev.update(i as int, self.peers@[i as int]));
    }

    /// Disconnects the peer in slot `i` once everything queued has been sent
    /// and acknowledged.
    pub fn disconnect_later(&mut self, i: usize, user_data: u32)
        requires
            old(self).wf(),
            i < old(self).spec_peers().len(),
        ensures
            final(self).wf(),
            spec_config_unchanged(*old(self), *final(self)),
            final(self).spec_peers().len() == old(self).spec_peers().len(),
            forall|j: int|
                0 <= j < old(self).spec_peers().len() && j != i ==> final(self).spec_peers()[j]
                    == old(self).spec_peers()[j],
            ({
                let pre = old(self).spec_peers()[i as int];
                let post = final(self).spec_peers()[i as int];
                &&& (pre.spec_state() is Connected && (pre.spec_outgoing().len() > 0
                    || pre.spec_in_flight() > 0) ==> post.spec_state()
                    == PeerState::DisconnectLater && post.spec_disconnect_data() == user_data)
                &&& (pre.spec_state() is Connected && pre.spec_outgoing().len() == 0
                    && pre.spec_in_flight() == 0 ==> post.spec_state() == PeerState::Disconnecting)
            }),
    {
        let ghost prev = self.peers@;
        let mut p = self.peers.remove(i);
        p.disconnect_later(user_data);
        self.peers.insert(i, p);
        assert(self.peers@ =~= prev.update(i as int, self.peers@[i as int]));
    }

    /// Forcefully resets the peer in slot `i` without notice or event.
    pub fn reset_peer(&mut self, i: usize)
        requires
            old(self).wf(),
            i < old(self).spec_peers().len(),
        ensures
            final(self).wf(),
            spec_config_unchanged(*old(self), *final(self)),
            final(self).spec_peers().len() == old(self).spec_peers().len(),
            forall|j: int|
                0 <= j < old(self).spec_peers().len() && j != i ==> final(self).spec_peers()[j]
                    == old(self).spec_peers()[j],
            final(self).spec_peers()[i as int].spec_state() == PeerState::Disconnected,
    {
        let ghost prev = self.peers@;
        let mut p = self.peers.remove(i);
        p.reset();
        self.peers.insert(i, p);
        assert(self.peers@ =~= prev.update(i as int, self.peers@[i as int]));
    }

    /// Configures the throttle of the peer in slot `i`.
    pub fn configure_throttling(
        &mut self,
        i: usize,
        interval: u32,
        acceleration: u32,
        deceleration: u32,
    )
        requires
            old(self).wf(),
            i < old(self).spec_peers().len(),
        ensures
            final(self).wf(),
            spec_config_unchanged(*old(self), *final(self)),
            final(self).spec_peers().len() == old(self).spec_peers().len(),
            forall|j: int|
                0 <= j < old(self).spec_peers().len() && j != i ==> final(self).spec_peers()[j]
                    == old(self).spec_peers()[j],
            final(self).spec_peers()[i as int].spec_throttle().interval == interval,
            final(self).spec_peers()[i as int].spec_throttle().acceleration == acceleration,
            final(self).spec_peers()[i as int].spec_throttle().deceleration == deceleration,
    {
        let ghost prev = self.peers@;
        let mut p = self.peers.remove(i);
        p.configure_throttling(interval, acceleration, deceleration);
        self.peers.insert(i, p);
        assert(self.peers@ =~= prev.update(i as int, self.peers@[i as int]));
    }

    /// Overrides the retransmission limit and backoff bounds of the peer in
    /// slot `i`.
    pub fn set_peer_timeout(&mut self, i: usize, limit: u32, min: u32, max: u32)
        requires
            old(self).wf(),
            i < old(self).spec_peers().len(),
        ensures
            final(self).wf(),
            spec_config_unchanged(*old(self), *final(self)),
            final(self).spec_peers().len() == old(self).spec_peers().len(),
            forall|j: int|
                0 <= j < old(self).spec_peers().len() && j != i ==> final(self).spec_peers()[j]
                    == old(self).spec_peers()[j],
            final(self).spec_peers()[i as int].spec_timeouts() == (limit, min, max),
    {
        let ghost prev = self.peers@;
        let mut p = self.peers.remove(i);
        p.set_timeout(limit, min, max);
        self.peers.insert(i, p);
        assert(self.peers@ =~= prev.update(i as int, self.peers@[i as int]));
    }

    /// Feeds one inbound datagram through the matching peer's state machine.
    /// A malformed datagram is dropped and changes nothing. A connection
    /// request that arrives while the table is full is silently refused:
    /// nothing changes. Lifecycle events join the event queue; delivered
    /// packets wait on their peer.
    #[verifier::rlimit(100)]
    pub fn process(&mut self, from: &Address, data: &Vec<u8>)
        requires
            old(self).wf(),
        ensures
            final(self).wf(),
            spec_config_unchanged(*old(self), *final(self)),
            final(self).spec_peers().len() >= old(self).spec_peers().len(),
            old(self).spec_events().is_prefix_of(final(self).spec_events()),
            spec_decode(data@) is None ==> *final(self) == *old(self),
            !old(self).has_room() ==> final(self).spec_peers().len() == old(
                self,
            ).spec_peers().len(),
            ({
                let d = spec_decode(data@);
                d is Some && d->0 is Connect && spec_no_live_peer_for(
                    old(self).spec_peers(),
                    from@,
                ) ==> {
                    &&& (d->0->Connect_channel_count >= 1 && old(self).has_room()
                        ==> spec_seated_for(
                        final(self).spec_peers(),
                        from@,
                        d->0->Connect_channel_count,
                        d->0->Connect_user_data,
                        old(self).spec_channel_limit(),
                    ))
                    &&& (d->0->Connect_channel_count >= 1 && !old(self).has_room()
                        ==> *final(self) == *old(self))
                    &&& (d->0->Connect_channel_count == 0 ==> *final(self) == *old(self))
                    &&& final(self).spec_events() == old(self).spec_events()
                    &&& final(self).spec_outgoing() == old(self).spec_outgoing()
                }
            }),
            ({
                let d = spec_decode(data@);
                let liv = exists|i: int|
                    spec_live_peer_at(old(self).spec_peers(), from@, i);
                d is Some && !(d->0 is Connect) && !liv && !(d->0 is Disconnect) ==> *final(self)
                    == *old(self)
            }),
            ({
                let d = spec_decode(data@);
                let liv = exists|i: int|
                    spec_live_peer_at(old(self).spec_peers(), from@, i);
                d is Some && d->0 is Disconnect && !liv ==> {
                    &&& final(self).spec_peers() == old(self).spec_peers()
                    &&& final(self).spec_events() == old(self).spec_events()
                    &&& final(self).spec_outgoing_views() =~= old(self).spec_outgoing_views().push(
                        DatagramView { to: from@, data: spec_encode(CommandView::DisconnectAck) },
                    )
                }
            }),
            ({
                let d = spec_decode(data@);
                let liv = exists|i: int|
                    spec_live_peer_at(old(self).spec_peers(), from@, i);
                d is Some && liv ==> exists|i: int|
                    {
                        &&& #[trigger] spec_live_peer_at(old(self).spec_peers(), from@, i)
                        &&& spec_peers_updated_at(
                            old(self).spec_peers(),
                            final(self).spec_peers(),
                            i,
                        )
                        &&& ({
                            let pre = old(self).spec_peers()[i];
                            let post = final(self).spec_peers()[i];
                            match d->0 {
                                CommandView::ReliableData { channel, seq, payload } => {
                                    &&& crate::peer::spec_on_reliable_data_post(
                                        pre,
                                        post,
                                        channel,
                                        seq,
                                        payload,
                                    )
                                    &&& final(self).spec_events() == old(self).spec_events()
                                    &&& final(self).spec_outgoing() == old(self).spec_outgoing()
                                },
                                CommandView::UnreliableData { channel, seq, payload } => {
                                    &&& crate::peer::spec_on_unreliable_data_post(
                                        pre,
                                        post,
                                        channel,
                                        seq,
                                        payload,
                                    )
                                    &&& final(self).spec_events() == old(self).spec_events()
                                    &&& final(self).spec_outgoing() == old(self).spec_outgoing()
                                },
                                CommandView::UnsequencedData { channel, payload } => {
                                    &&& crate::peer::spec_on_unsequenced_data_post(
                                        pre,
                                        post,
                                        channel,
                                        payload,
                                    )
                                    &&& final(self).spec_events() == old(self).spec_events()
                                    &&& final(self).spec_outgoing() == old(self).spec_outgoing()
                                },
                                CommandView::Fragment {
                                    channel,
                                    seq,
                                    start_seq,
                                    frag_count,
                                    frag_index,
                                    payload,
                                } => {
                                    &&& crate::peer::spec_on_fragment_post(
                                        pre,
                                        post,
                                        channel,
                                        seq,
                                        start_seq,
                                        frag_count,
                                        frag_index,
                                        payload,
                                    )
                                    &&& final(self).spec_events() == old(self).spec_events()
                                    &&& final(self).spec_outgoing() == old(self).spec_outgoing()
                                },
                                CommandView::Ack { channel, seq } => {
                                    &&& crate::peer::spec_on_ack_post(
                                        pre,
                                        post,
                                        channel,
                                        seq,
                                        old(self).spec_time(),
                                    )
                                    &&& final(self).spec_events() == old(self).spec_events()
                                    &&& final(self).spec_outgoing() == old(self).spec_outgoing()
                                },
                                CommandView::ConnectAccept { channel_count } => {
                                    &&& crate::peer::spec_on_connect_accept_post(
                                        pre,
                                        post,
                                        channel_count,
                                    )
                                    &&& final(self).spec_events() == (if pre.spec_state()
                                        is Connecting && channel_count >= 1 {
                                        old(self).spec_events().push(Event::Connect(i as usize))
                                    } else {
                                        old(self).spec_events()
                                    })
                                    &&& final(self).spec_outgoing() == old(self).spec_outgoing()
                                },
                                CommandView::ConnectDone => {
                                    &&& crate::peer::spec_on_connect_done_post(
                                        pre,
                                        post,
                                        pre.spec_state() is AcknowledgingConnect,
                                    )
                                    &&& final(self).spec_events() == (if pre.spec_state()
                                        is AcknowledgingConnect {
                                        old(self).spec_events().push(Event::Connect(i as usize))
                                    } else {
                                        old(self).spec_events()
                                    })
                                    &&& final(self).spec_outgoing() == old(self).spec_outgoing()
                                },
                                CommandView::Disconnect { user_data } => {
                                    &&& crate::peer::spec_on_disconnect_notice_post(
                                        pre,
                                        post,
                                        user_data,
                                        !(pre.spec_state() is Disconnected || pre.spec_state()
                                            is Zombie),
                                    )
                                    &&& final(self).spec_events() == old(self).spec_events()
                                    &&& final(self).spec_outgoing() == old(self).spec_outgoing()
                                },
                                CommandView::DisconnectAck => {
                                    &&& crate::peer::spec_on_disconnect_ack_post(pre, post)
                                    &&& final(self).spec_events() == old(self).spec_events()
                                    &&& final(self).spec_outgoing() == old(self).spec_outgoing()
                                },
                                CommandView::Connect { .. } => {
                                    // A retransmitted request: the accepting
                                    // reply is repeated while the handshake
                                    // is still under way; nothing else moves.
                                    &&& (pre.spec_state() is AcknowledgingConnect ==> {
                                        &&& post.spec_outgoing() =~= pre.spec_outgoing().push(
                                            CommandView::ConnectAccept {
                                                channel_count: pre.spec_channels().len() as u8,
                                            },
                                        )
                                        &&& post.spec_state() == pre.spec_state()
                                        &&& post.spec_remote() == pre.spec_remote()
                                        &&& post.spec_channels() == pre.spec_channels()
                                        &&& post.spec_received() == pre.spec_received()
                                    })
                                    &&& (!(pre.spec_state() is AcknowledgingConnect) ==> post
                                        == pre)
                                    &&& final(self).spec_events() == old(self).spec_events()
                                    &&& final(self).spec_outgoing() == old(self).spec_outgoing()
                                },
                            }
                        })
                    }
            }),
    {
        let cmd = match decode(data) {
            Some(c) => c,
            None => {
                return ;
            },
        };
        let who = self.find_peer(from);
        proof {
            match who {
                Some(i) => {
                    assert(spec_live_peer_at(old(self).spec_peers(), from@, i as int));
                },
                None => {
                    assert forall|i: int|
                        !spec_live_peer_at(old(self).spec_peers(), from@, i) by {
                        if 0 <= i < old(self).spec_peers().len() {
                            assert(!((old(self).spec_peers()[i]).spec_remote() == from@ && !(old(
                                self,
                            ).spec_peers()[i].spec_state() is Disconnected)));
                        }
                    }
                },
            }
        }
        match cmd {
            Command::Connect { channel_count, user_data } => {
                match who {
                    Some(i) => {
                        // A retransmitted request: repeat the accept if the
                        // handshake is still under way.
                        if matches!(self.peer_state_at(i), PeerState::AcknowledgingConnect) {
                            let cc = self.peer_channels_at(i);
                            self.peer_start_accept(i, cc);
                        }
                    },
                    None => {
                        if channel_count == 0 {
                            return ;
                        }
                        let slot0 = self.find_free_slot();
                        if slot0.is_none() && self.peers.len() >= self.peer_limit {
                            // No room: the request is silently refused.
                            return ;
                        }
                        let cc: usize = if (channel_count as usize) > self.channel_limit {
                            self.channel_limit
                        } else {
                            channel_count as usize
                        };
                        self.rng = next_random(self.rng);
                        let seed = self.rng;
                        let now = self.time;
                        match slot0 {
                            Some(slot) => {
                                let mut fresh: Peer<T> = Peer::new(
                                    from.duplicate(),
                                    cc,
                                    PeerState::AcknowledgingConnect,
                                    user_data,
                                    now,
                                    seed,
                                );
                                fresh.start_accept(cc as u8);
                                let ghost prev = self.peers@;
                                let _old_peer = self.peers.remove(slot);
                                self.peers.insert(slot, fresh);
                                assert(self.peers@ =~= prev.update(
                                    slot as int,
                                    self.peers@[slot as int],
                                ));
                                assert(self.spec_peers()[slot as int].spec_remote() == from@);
                                assert(spec_seated_for(
                                    self.spec_peers(),
                                    from@,
                                    channel_count,
                                    user_data,
                                    old(self).spec_channel_limit(),
                                ));
                            },
                            None => {
                                if self.peers.len() < self.peer_limit {
                                    let mut fresh: Peer<T> = Peer::new(
                                        from.duplicate(),
                                        cc,
                                        PeerState::AcknowledgingConnect,
                                        user_data,
                                        now,
                                        seed,
                                    );
                                    fresh.start_accept(cc as u8);
                                    self.peers.push(fresh);
                                    assert(self.spec_peers()[self.spec_peers().len()
                                        - 1].spec_remote() == from@);
                                    assert(spec_seated_for(
                                        self.spec_peers(),
                                        from@,
                                        channel_count,
                                        user_data,
                                        old(self).spec_channel_limit(),
                                    ));
                                }
                                // No room: the request is silently refused.
                            },
                        }
                    },
                }
            },
            Command::ConnectAccept { channel_count } => {
                if let Some(i) = who {
                    let ghost prev = self.peers@;
                    let mut p = self.peers.remove(i);
                    let became = p.on_connect_accept(channel_count);
                    self.peers.insert(i, p);
                    assert(self.peers@ =~= prev.update(i as int, self.peers@[i as int]));
                    if became {
                        self.events.push(Event::Connect(i));
                    }
                }
            },
            Command::ConnectDone => {
                if let Some(i) = who {
                    let ghost prev = self.peers@;
                    let mut p = self.peers.remove(i);
                    let became = p.on_connect_done();
                    self.peers.insert(i, p);
                    assert(self.peers@ =~= prev.update(i as int, self.peers@[i as int]));
                    if became {
                        self.events.push(Event::Connect(i));
                    }
                }
            },
            Command::Disconnect { user_data } => {
                match who {
                    Some(i) => {
                        let ghost prev = self.peers@;
                        let mut p = self.peers.remove(i);
                        let _fresh = p.on_disconnect_notice(user_data);
                        self.peers.insert(i, p);
                        assert(self.peers@ =~= prev.update(i as int, self.peers@[i as int]));
                    },
                    None => {
                        // The sender no longer has a peer here (its notice's
                        // acknowledgement may have been lost): acknowledge
                        // directly so it can finish.
                        let bytes = crate::wire::encode(&Command::DisconnectAck);
                        self.outgoing.push(Datagram { to: from.duplicate(), data: bytes });
                        assert(self.spec_outgoing_views() =~= old(
                            self,
                        ).spec_outgoing_views().push(
                            DatagramView {
                                to: from@,
                                data: spec_encode(CommandView::DisconnectAck),
                            },
                        ));
                    },
                }
            },
            Command::DisconnectAck => {
                if let Some(i) = who {
                    let ghost prev = self.peers@;
                    let mut p = self.peers.remove(i);
                    p.on_disconnect_ack();
                    self.peers.insert(i, p);
                    assert(self.peers@ =~= prev.update(i as int, self.peers@[i as int]));
                }
            },
            Command::ReliableData { channel, seq, payload } => {
                if let Some(i) = who {
                    let ghost prev = self.peers@;
                    let mut p = self.peers.remove(i);
                    p.on_reliable_data(channel, seq, payload);
                    self.peers.insert(i, p);
                    assert(self.peers@ =~= prev.update(i as int, self.peers@[i as int]));
                }
            },
            Command::UnreliableData { channel, seq, payload } => {
                if let Some(i) = who {
                    let ghost prev = self.peers@;
                    let mut p = self.peers.remove(i);
                    p.on_unreliable_data(channel, seq, payload);
                    self.peers.insert(i, p);
                    assert(self.peers@ =~= prev.update(i as int, self.peers@[i as int]));
                }
            },
            Command::UnsequencedData { channel, payload } => {
                if let Some(i) = who {
                    let ghost prev = self.peers@;
                    let mut p = self.peers.remove(i);
                    p.on_unsequenced_data(channel, payload);
                    self.peers.insert(i, p);
                    assert(self.peers@ =~= prev.update(i as int, self.peers@[i as int]));
                }
            },
            Command::Fragment { channel, seq, start_seq, frag_count, frag_index, payload } => {
                if let Some(i) = who {
                    let ghost prev = self.peers@;
                    let mut p = self.peers.remove(i);
                    p.on_fragment(channel, seq, start_seq, frag_count, frag_index, payload);
                    self.peers.insert(i, p);
                    assert(self.peers@ =~= prev.update(i as int, self.peers@[i as int]));
                }
            },
            Command::Ack { channel, seq } => {
                if let Some(i) = who {
                    let now = self.time;
                    let ghost prev = self.peers@;
                    let mut p = self.peers.remove(i);
                    p.on_ack(channel, seq, now);
                    self.peers.insert(i, p);
                    assert(self.peers@ =~= prev.update(i as int, self.peers@[i as int]));
                }
            },
        }
    }

    /// One peer's state, read in place.
    fn peer_state_at(&self, i: usize) -> (r: PeerState)
        requires
            i < self.spec_peers().len(),
        ensures
            r == self.spec_peers()[i as int].spec_state(),
    {
        self.peers[i].state()
    }

    /// One peer's channel count, read in place, as a wire byte.
    fn peer_channels_at(&self, i: usize) -> (r: u8)
        requires
            self.wf(),
            i < self.spec_peers().len(),
        ensures
            r as int == if self.spec_peers()[i as int].spec_channels().len() > 255 {
                255int
            } else {
                self.spec_peers()[i as int].spec_channels().len() as int
            },
    {
        let n = self.peers[i].channel_count();
        if n > 255 {
            255
        } else {
            n as u8
        }
    }

    /// Queues a repeated accepting reply on one peer.
    fn peer_start_accept(&mut self, i: usize, channel_count: u8)
        requires
            old(self).wf(),
            i < old(self).spec_peers().len(),
        ensures
            final(self).wf(),
            spec_config_unchanged(*old(self), *final(self)),
            spec_peers_updated_at(old(self).spec_peers(), final(self).spec_peers(), i as int),
            final(self).spec_peers()[i as int].spec_outgoing() =~= old(
                self,
            ).spec_peers()[i as int].spec_outgoing().push(
                CommandView::ConnectAccept { channel_count },
            ),
            final(self).spec_peers()[i as int].spec_state() == old(
                self,
            ).spec_peers()[i as int].spec_state(),
            final(self).spec_peers()[i as int].spec_remote() == old(
                self,
            ).spec_peers()[i as int].spec_remote(),
            final(self).spec_peers()[i as int].spec_channels() == old(
                self,
            ).spec_peers()[i as int].spec_channels(),
            final(self).spec_peers()[i as int].spec_received() == old(
                self,
            ).spec_peers()[i as int].spec_received(),
            final(self).spec_events() == old(self).spec_events(),
            final(self).spec_outgoing() == old(self).spec_outgoing(),
            final(self).spec_time() == old(self).spec_time(),
    {
        let ghost prev = self.peers@;
        let mut p = self.peers.remove(i);
        p.start_accept(channel_count);
        self.peers.insert(i, p);
        assert(self.peers@ =~= prev.update(i as int, self.peers@[i as int]));
    }

    /// Sends any queued commands on the host's peers to their designated
    /// peers: every queued command becomes one outgoing datagram. This need
    /// only be used to send queued packets earlier than the next `service`
    /// call.
    pub fn flush(&mut self)
        requires
            old(self).wf(),
        ensures
            final(self).wf(),
            spec_config_unchanged(*old(self), *final(self)),
            final(self).spec_peers().len() == old(self).spec_peers().len(),
            final(self).spec_events() == old(self).spec_events(),
            old(self).spec_outgoing().is_prefix_of(final(self).spec_outgoing()),
            final(self).spec_outgoing_views() == old(self).spec_outgoing_views()
                + spec_flush_datagrams(old(self).spec_peers()),
            forall|j: int|
                0 <= j < final(self).spec_peers().len()
                    ==> crate::peer::spec_peer_flushed(
                    old(self).spec_peers()[j],
                    #[trigger] final(self).spec_peers()[j],
                    old(self).spec_time(),
                ),
            final(self).spec_outgoing().len() == old(self).spec_outgoing().len()
                + spec_total_queued(old(self).spec_peers()),
            final(self).spec_time() == old(self).spec_time(),
    {
        let mut i: usize = 0;
        proof {
            assert(old(self).spec_peers().subrange(0, 0) =~= Seq::<Peer<T>>::empty());
            assert(old(self).spec_outgoing_views() + spec_flush_datagrams(
                old(self).spec_peers().subrange(0, 0),
            ) =~= old(self).spec_outgoing_views());
        }
        while i < self.peers.len()
            invariant
                self.wf(),
                spec_config_unchanged(*old(self), *self),
                self.spec_peers().len() == old(self).spec_peers().len(),
                self.spec_events() == old(self).spec_events(),
                old(self).spec_outgoing().is_prefix_of(self.spec_outgoing()),
                self.spec_time() == old(self).spec_time(),
                i <= self.spec_peers().len(),
                forall|j: int|
                    0 <= j < i ==> crate::peer::spec_peer_flushed(
                        old(self).spec_peers()[j],
                        #[trigger] self.spec_peers()[j],
                        old(self).spec_time(),
                    ),
                forall|j: int|
                    i <= j < self.spec_peers().len() ==> #[trigger] self.spec_peers()[j] == old(
                        self,
                    ).spec_peers()[j],
                self.spec_outgoing_views() =~= old(self).spec_outgoing_views()
                    + spec_flush_datagrams(old(self).spec_peers().subrange(0, i as int)),
                self.spec_outgoing().len() == old(self).spec_outgoing().len() + spec_total_queued(
                    old(self).spec_peers().subrange(0, i as int),
                ),
            decreases self.spec_peers().len() - i,
        {
            let now = self.time;
            let ghost prev = self.peers@;
            let ghost pre_peer = self.peers@[i as int];
            let mut p = self.peers.remove(i);
            let mut datagrams = p.flush(now);
            let ghost dgs0 = datagrams@;
            let ghost queued_here = pre_peer.spec_outgoing().len();
            let to_base = p.address();
            self.peers.insert(i, p);
            assert(self.peers@ =~= prev.update(i as int, self.peers@[i as int]));
            assert(dgs0.len() == queued_here);
            let ghost base_views = self.spec_outgoing_views();
            while datagrams.len() > 0
                invariant
                    old(self).spec_outgoing().is_prefix_of(self.spec_outgoing()),
                    self.wf(),
                    spec_config_unchanged(*old(self), *self),
                    self.spec_peers() == prev.update(i as int, self.spec_peers()[i as int]),
                    self.spec_peers().len() == old(self).spec_peers().len(),
                    self.spec_events() == old(self).spec_events(),
                    self.spec_time() == old(self).spec_time(),
                    i < self.spec_peers().len(),
                    pre_peer == old(self).spec_peers()[i as int],
                    crate::peer::spec_peer_flushed(
                        pre_peer,
                        self.spec_peers()[i as int],
                        old(self).spec_time(),
                    ),
                    to_base@ == pre_peer.spec_remote(),
                    queued_here == pre_peer.spec_outgoing().len(),
                    dgs0.len() == queued_here,
                    datagrams@.len() <= dgs0.len(),
                    dgs0.skip(dgs0.len() - datagrams@.len()) =~= datagrams@,
                    forall|k: int|
                        0 <= k < dgs0.len() ==> (#[trigger] dgs0[k])@ == spec_encode(
                            pre_peer.spec_outgoing()[k],
                        ),
                    forall|j: int|
                        0 <= j < i ==> crate::peer::spec_peer_flushed(
                            old(self).spec_peers()[j],
                            #[trigger] self.spec_peers()[j],
                            old(self).spec_time(),
                        ),
                    forall|j: int|
                        i < j < self.spec_peers().len() ==> #[trigger] self.spec_peers()[j]
                            == old(self).spec_peers()[j],
                    self.spec_outgoing_views() =~= base_views + spec_peer_datagrams(
                        pre_peer,
                    ).subrange(0, dgs0.len() - datagrams@.len()),
                    base_views =~= old(self).spec_outgoing_views() + spec_flush_datagrams(
                        old(self).spec_peers().subrange(0, i as int),
                    ),
                    self.spec_outgoing().len() == old(self).spec_outgoing().len()
                        + spec_total_queued(old(self).spec_peers().subrange(0, i as int)) + (
                    dgs0.len() - datagrams@.len()),
                decreases datagrams@.len(),
            {
                let ghost consumed = dgs0.len() - datagrams@.len();
                let bytes = datagrams.remove(0);
                proof {
                    assert(bytes == dgs0[consumed as int]);
                    assert(dgs0.skip(dgs0.len() - datagrams@.len()) =~= datagrams@);
                    assert(spec_peer_datagrams(pre_peer).len() == pre_peer.spec_outgoing().len());
                    assert(0 <= consumed < spec_peer_datagrams(pre_peer).len());
                    assert(spec_peer_datagrams(pre_peer)[consumed as int] == (DatagramView {
                        to: pre_peer.spec_remote(),
                        data: spec_encode(pre_peer.spec_outgoing()[consumed as int]),
                    }));
                }
                let d = Datagram { to: to_base.duplicate(), data: bytes };
                proof {
                    assert(d@ == spec_peer_datagrams(pre_peer)[consumed as int]);
                }
                let ghost views0 = self.spec_outgoing_views();
                self.outgoing.push(d);
                proof {
                    assert(self.spec_outgoing_views() =~= views0.push(
                        spec_peer_datagrams(pre_peer)[consumed as int],
                    ));
                    assert(spec_peer_datagrams(pre_peer).subrange(0, consumed + 1)
                        =~= spec_peer_datagrams(pre_peer).subrange(0, consumed as int).push(
                        spec_peer_datagrams(pre_peer)[consumed as int],
                    ));
                }
                assert(self.spec_outgoing_views() =~= base_views + spec_peer_datagrams(
                    pre_peer,
                ).subrange(0, consumed + 1));
            }
            proof {
                lemma_flush_datagrams_step(old(self).spec_peers(), i as int);
                lemma_total_queued_step(old(self).spec_peers(), i as int);
                assert(spec_peer_datagrams(pre_peer).subrange(
                    0,
                    spec_peer_datagrams(pre_peer).len() as int,
                ) =~= spec_peer_datagrams(pre_peer));
                assert(self.spec_outgoing_views() =~= old(self).spec_outgoing_views()
                    + spec_flush_datagrams(old(self).spec_peers().subrange(0, i + 1)));
            }
            i = i + 1;
        }
        proof {
            assert(old(self).spec_peers().subrange(0, old(self).spec_peers().len() as int)
                =~= old(self).spec_peers());
        }
    }

    /// Hands over every datagram queued for the caller's socket, oldest
    /// first; the queue is left empty.
    pub fn take_outgoing(&mut self) -> (r: Vec<Datagram>)
        requires
            old(self).wf(),
        ensures
            final(self).wf(),
            spec_config_unchanged(*old(self), *final(self)),
            r@ == old(self).spec_outgoing(),
            final(self).spec_outgoing() =~= Seq::<Datagram>::empty(),
            final(self).spec_peers() == old(self).spec_peers(),
            final(self).spec_events() == old(self).spec_events(),
    {
        let mut taken: Vec<Datagram> = Vec::new();
        while self.outgoing.len() > 0
            invariant
                self.wf(),
                spec_config_unchanged(*old(self), *self),
                taken@ + self.spec_outgoing() =~= old(self).spec_outgoing(),
                self.spec_peers() == old(self).spec_peers(),
                self.spec_events() == old(self).spec_events(),
            decreases self.outgoing@.len(),
        {
            let ghost before = taken@;
            let d = self.outgoing.remove(0);
            taken.push(d);
            assert(taken@ + self.spec_outgoing() =~= old(self).spec_outgoing());
        }
        assert(taken@ =~= old(self).spec_outgoing());
        taken
    }

    /// Checks for any queued events on this host and dispatches one if
    /// available, without touching the transport: first a queued lifecycle
    /// event, then the oldest packet waiting on the lowest peer slot.
    pub fn check_events(&mut self) -> (r: Result<Option<Event>, Error>)
        requires
            old(self).wf(),
        ensures
            final(self).wf(),
            spec_config_unchanged(*old(self), *final(self)),
            r is Ok,
            final(self).spec_peers().len() == old(self).spec_peers().len(),
            final(self).spec_time() == old(self).spec_time(),
            old(self).spec_events().len() > 0 ==> {
                &&& r->Ok_0 is Some
                &&& r->Ok_0->0 == old(self).spec_events()[0]
                &&& final(self).spec_events() == old(self).spec_events().drop_first()
                &&& final(self).spec_peers() == old(self).spec_peers()
            },
            r->Ok_0 is None ==> {
                &&& *final(self) == *old(self)
                &&& old(self).spec_events().len() == 0
                &&& (forall|j: int|
                    0 <= j < old(self).spec_peers().len() ==> (#[trigger] old(
                        self,
                    ).spec_peers()[j]).spec_received().len() == 0)
            },
            old(self).spec_events().len() == 0 && r->Ok_0 is Some ==> exists|i: int|
                {
                    &&& 0 <= i < old(self).spec_peers().len()
                    &&& (forall|j: int|
                        0 <= j < i ==> (#[trigger] old(
                            self,
                        ).spec_peers()[j]).spec_received().len() == 0)
                    &&& old(self).spec_peers()[i].spec_received().len() > 0
                    &&& #[trigger] spec_peers_updated_at(
                        old(self).spec_peers(),
                        final(self).spec_peers(),
                        i,
                    )
                    &&& final(self).spec_peers()[i].spec_received() == old(
                        self,
                    ).spec_peers()[i].spec_received().drop_first()
                    &&& spec_is_receive_of(
                        r->Ok_0->0,
                        i as usize,
                        old(self).spec_peers()[i].spec_received()[0],
                    )
                    &&& final(self).spec_events() == old(self).spec_events()
                    &&& final(self).spec_outgoing() == old(self).spec_outgoing()
                },
    {
        if self.events.len() > 0 {
            let e = self.events.remove(0);
            return Ok(Some(e));
        }
        let mut i: usize = 0;
        while i < self.peers.len()
            invariant
                self.wf(),
                *self == *old(self),
                i <= self.spec_peers().len(),
                old(self).spec_events().len() == 0,
                forall|j: int|
                    0 <= j < i ==> (#[trigger] self.spec_peers()[j]).spec_received().len() == 0,
            decreases self.spec_peers().len() - i,
        {
            let has_packet = self.peers[i].has_received();
            if has_packet {
                let got = self.peer_receive(i);
                match got {
                    Some(pp) => {
                        proof {
                            assert(spec_peers_updated_at(
                                old(self).spec_peers(),
                                self.spec_peers(),
                                i as int,
                            ));
                            assert(pp == old(self).spec_peers()[i as int].spec_received()[0]);
                        }
                        let ev = Event::Receive { peer: i, channel_id: pp.channel_id, packet: pp.packet };
                        proof {
                            assert(spec_is_receive_of(
                                ev,
                                i as usize,
                                old(self).spec_peers()[i as int].spec_received()[0],
                            ));
                        }
                        return Ok(Some(ev));
                    },
                    None => {
                        proof {
                            assert(false);
                        }
                        return Ok(None);
                    },
                }
            }
            i = i + 1;
        }
        Ok(None)
    }

    /// One full housekeeping pass at `now`, the work `service` performs
    /// before it looks for an event: every peer is ticked once (its throttle
    /// interval closed per the throttle-step model, its overdue reliable
    /// commands retransmitted with their backoff doubled, a slot that
    /// exhausted its retry limit declared unreachable), every zombie slot is
    /// freed with exactly one disconnect event carrying its stored user data,
    /// and everything queued — retransmissions first, then every peer's
    /// queued commands — becomes outgoing datagrams. Housekeeping never
    /// drops, reorders or invents lifecycle events: every appended event is
    /// accounted for by a timed-out or freed slot.
    pub fn housekeep(&mut self, now: u32)
        requires
            old(self).wf(),
        ensures
            final(self).wf(),
            spec_config_unchanged(*old(self), *final(self)),
            final(self).spec_time() == now,
            final(self).spec_peers().len() == old(self).spec_peers().len(),
            exists|mids: Seq<Peer<T>>|
                {
                    &&& mids.len() == old(self).spec_peers().len()
                    &&& (forall|j: int|
                        0 <= j < mids.len() ==> #[trigger] crate::peer::spec_peer_housekept(
                            old(self).spec_peers()[j],
                            mids[j],
                            now,
                        ))
                    &&& (forall|j: int|
                        0 <= j < mids.len() ==> crate::peer::spec_peer_flushed(
                            mids[j],
                            #[trigger] final(self).spec_peers()[j],
                            now,
                        ))
                    &&& final(self).spec_outgoing_views() == old(self).spec_outgoing_views()
                        + spec_housekeep_datagrams(old(self).spec_peers(), now)
                        + spec_flush_datagrams(mids)
                },
            forall|j: int|
                0 <= j < final(self).spec_peers().len() ==> (
                #[trigger] final(self).spec_peers()[j]).spec_outgoing() =~= Seq::<
                    CommandView,
                >::empty(),
            forall|j: int|
                0 <= j < final(self).spec_peers().len() ==> !((
                #[trigger] final(self).spec_peers()[j]).spec_state() is Zombie),
            old(self).spec_events().is_prefix_of(final(self).spec_events()),
            forall|k: int|
                old(self).spec_events().len() <= k < final(self).spec_events().len()
                    ==> spec_housekeep_event(
                    old(self).spec_peers(),
                    now,
                    #[trigger] final(self).spec_events()[k],
                ),
            forall|j: int|
                0 <= j < old(self).spec_peers().len() && (#[trigger] old(
                    self,
                ).spec_peers()[j]).spec_state() is Zombie && !crate::peer::spec_any_timed_out(
                    old(self).spec_peers()[j].spec_sent(),
                    now,
                    old(self).spec_peers()[j].spec_timeouts().0,
                ) ==> exists|k: int|
                    0 <= k < final(self).spec_events().len() && final(self).spec_events()[k]
                        == Event::Disconnect(
                        j as usize,
                        old(self).spec_peers()[j].spec_disconnect_data(),
                    ),
    {
        self.time = now;
        let mut i: usize = 0;
        proof {
            assert(old(self).spec_peers().subrange(0, 0) =~= Seq::<Peer<T>>::empty());
            assert(old(self).spec_outgoing_views() + spec_housekeep_datagrams(
                old(self).spec_peers().subrange(0, 0),
                now,
            ) =~= old(self).spec_outgoing_views());
        }
        while i < self.peers.len()
            invariant
                self.wf(),
                spec_config_unchanged(*old(self), *self),
                i <= self.spec_peers().len(),
                self.spec_peers().len() == old(self).spec_peers().len(),
                self.spec_time() == now,
                old(self).spec_events().is_prefix_of(self.spec_events()),
                forall|k: int|
                    old(self).spec_events().len() <= k < self.spec_events().len()
                        ==> spec_housekeep_event(
                        old(self).spec_peers(),
                        now,
                        #[trigger] self.spec_events()[k],
                    ),
                forall|j: int|
                    0 <= j < i ==> !((#[trigger] self.spec_peers()[j]).spec_state() is Zombie),
                forall|j: int|
                    0 <= j < i ==> #[trigger] crate::peer::spec_peer_housekept(
                        old(self).spec_peers()[j],
                        self.spec_peers()[j],
                        now,
                    ),
                forall|j: int|
                    i <= j < self.spec_peers().len() ==> #[trigger] self.spec_peers()[j] == old(
                        self,
                    ).spec_peers()[j],
                self.spec_outgoing_views() =~= old(self).spec_outgoing_views()
                    + spec_housekeep_datagrams(old(self).spec_peers().subrange(0, i as int), now),
                forall|j: int|
                    0 <= j < i && (#[trigger] old(self).spec_peers()[j]).spec_state() is Zombie
                        && !crate::peer::spec_any_timed_out(
                        old(self).spec_peers()[j].spec_sent(),
                        now,
                        old(self).spec_peers()[j].spec_timeouts().0,
                    ) ==> exists|k: int|
                        0 <= k < self.spec_events().len() && self.spec_events()[k]
                            == Event::Disconnect(
                            j as usize,
                            old(self).spec_peers()[j].spec_disconnect_data(),
                        ),
            decreases self.spec_peers().len() - i,
        {
            let was = self.peer_state_at(i);
            let ghost prev = self.peers@;
            let ghost events0 = self.spec_events();
            proof {
                assert(prev[i as int] == old(self).spec_peers()[i as int]);
            }
            let mut p = self.peers.remove(i);
            proof {
                assert(p == old(self).spec_peers()[i as int]);
            }
            let (mut retransmits, timed_out) = p.tick(now);
            let ghost retx_views = retransmits@.map_values(|v: Vec<u8>| v@);
            let ghost retx0 = retransmits@;
            proof {
                assert forall|k: int| 0 <= k < retx0.len() implies (#[trigger] retx0[k])@
                    == crate::peer::spec_retransmits(
                    old(self).spec_peers()[i as int].spec_sent(),
                    now,
                    old(self).spec_peers()[i as int].spec_timeouts().0,
                )[k] by {
                    assert(retx0.map_values(|v: Vec<u8>| v@)[k] == retx0[k]@);
                }
            }
            let to_base = p.address();
            let ghost ticked = p;
            self.peers.insert(i, p);
            assert(self.peers@ =~= prev.update(i as int, self.peers@[i as int]));
            let ghost base_views = self.spec_outgoing_views();
            let ghost prev_events_rt = self.spec_events();
            while retransmits.len() > 0
                invariant
                    self.wf(),
                    spec_config_unchanged(*old(self), *self),
                    self.spec_peers() == prev.update(i as int, ticked),
                    self.spec_peers()[i as int] == ticked,
                    self.spec_peers().len() == old(self).spec_peers().len(),
                    self.spec_events() == prev_events_rt,
                    self.spec_time() == now,
                    i < self.spec_peers().len(),
                    to_base@ == old(self).spec_peers()[i as int].spec_remote(),
                    retx0.len() == spec_peer_retx_datagrams(
                        old(self).spec_peers()[i as int],
                        now,
                    ).len(),
                    forall|k: int|
                        0 <= k < retx0.len() ==> (#[trigger] retx0[k])@
                            == crate::peer::spec_retransmits(
                            old(self).spec_peers()[i as int].spec_sent(),
                            now,
                            old(self).spec_peers()[i as int].spec_timeouts().0,
                        )[k],
                    retransmits@.len() <= retx0.len(),
                    retx0.skip(retx0.len() - retransmits@.len()) =~= retransmits@,
                    self.spec_outgoing_views() =~= base_views + spec_peer_retx_datagrams(
                        old(self).spec_peers()[i as int],
                        now,
                    ).subrange(0, retx0.len() - retransmits@.len()),
                decreases retransmits@.len(),
            {
                let ghost consumed = retx0.len() - retransmits@.len();
                let bytes = retransmits.remove(0);
                proof {
                    assert(bytes == retx0[consumed as int]);
                    assert(retx0.skip(retx0.len() - retransmits@.len()) =~= retransmits@);
                    assert(spec_peer_retx_datagrams(old(self).spec_peers()[i as int], now)[
                        consumed as int
                    ] == (DatagramView {
                        to: old(self).spec_peers()[i as int].spec_remote(),
                        data: crate::peer::spec_retransmits(
                            old(self).spec_peers()[i as int].spec_sent(),
                            now,
                            old(self).spec_peers()[i as int].spec_timeouts().0,
                        )[consumed as int],
                    }));
                }
                let d = Datagram { to: to_base.duplicate(), data: bytes };
                proof {
                    assert(d@ == spec_peer_retx_datagrams(old(self).spec_peers()[i as int], now)[
                        consumed as int
                    ]);
                }
                let ghost views0 = self.spec_outgoing_views();
                self.outgoing.push(d);
                proof {
                    assert(self.spec_outgoing_views() =~= views0.push(
                        spec_peer_retx_datagrams(old(self).spec_peers()[i as int], now)[
                            consumed as int
                        ],
                    ));
                    assert(spec_peer_retx_datagrams(old(self).spec_peers()[i as int], now).subrange(
                        0,
                        consumed + 1,
                    ) =~= spec_peer_retx_datagrams(
                        old(self).spec_peers()[i as int],
                        now,
                    ).subrange(0, consumed as int).push(
                        spec_peer_retx_datagrams(old(self).spec_peers()[i as int], now)[
                            consumed as int
                        ],
                    ));
                }
            }
            if timed_out && !matches!(was, PeerState::Connecting) {
                // An established peer exceeded its retransmission limit.
                let ghost ev_len = self.spec_events().len();
                self.events.push(Event::Disconnect(i, 0));
                proof {
                    assert(self.spec_events()[ev_len as int] == Event::Disconnect(i, 0));
                    assert(spec_housekeep_event(
                        old(self).spec_peers(),
                        now,
                        self.spec_events()[ev_len as int],
                    ));
                }
            }
            if matches!(self.peer_state_at(i), PeerState::Zombie) {
                // Housekeeping frees the zombie and surfaces its event.
                let ghost prev2 = self.peers@;
                let mut p = self.peers.remove(i);
                let user_data = p.take_zombie();
                proof {
                    assert(user_data == old(self).spec_peers()[i as int].spec_disconnect_data());
                }
                self.peers.insert(i, p);
                assert(self.peers@ =~= prev2.update(i as int, self.peers@[i as int]));
                let ghost ev_len = self.spec_events().len();
                self.events.push(Event::Disconnect(i, user_data));
                proof {
                    assert(self.spec_events()[ev_len as int] == Event::Disconnect(i, user_data));
                    assert(spec_housekeep_event(
                        old(self).spec_peers(),
                        now,
                        self.spec_events()[ev_len as int],
                    ));
                }
            }
            proof {
                assert(crate::peer::spec_tick_post(
                    old(self).spec_peers()[i as int],
                    ticked,
                    now,
                    retx_views,
                    timed_out,
                ));
                assert(crate::peer::spec_peer_housekept(
                    old(self).spec_peers()[i as int],
                    self.spec_peers()[i as int],
                    now,
                ));
                lemma_housekeep_datagrams_step(old(self).spec_peers(), i as int, now);
                assert(spec_peer_retx_datagrams(old(self).spec_peers()[i as int], now).subrange(
                    0,
                    spec_peer_retx_datagrams(old(self).spec_peers()[i as int], now).len() as int,
                ) =~= spec_peer_retx_datagrams(old(self).spec_peers()[i as int], now));
                assert(events0.is_prefix_of(self.spec_events()));
                assert forall|j: int|
                    0 <= j < i + 1 && (#[trigger] old(self).spec_peers()[j]).spec_state()
                        is Zombie && !crate::peer::spec_any_timed_out(
                        old(self).spec_peers()[j].spec_sent(),
                        now,
                        old(self).spec_peers()[j].spec_timeouts().0,
                    ) implies exists|k: int|
                    0 <= k < self.spec_events().len() && self.spec_events()[k]
                        == Event::Disconnect(
                        j as usize,
                        old(self).spec_peers()[j].spec_disconnect_data(),
                    ) by {
                    if j < i {
                        let k = choose|k: int|
                            0 <= k < events0.len() && events0[k] == Event::Disconnect(
                                j as usize,
                                old(self).spec_peers()[j].spec_disconnect_data(),
                            );
                        assert(self.spec_events()[k] == Event::Disconnect(
                            j as usize,
                            old(self).spec_peers()[j].spec_disconnect_data(),
                        ));
                    }
                }
            }
            i = i + 1;
        }
        proof {
            assert(old(self).spec_peers().subrange(0, old(self).spec_peers().len() as int)
                =~= old(self).spec_peers());
        }
        let ghost mids = self.peers@;
        self.flush();
        proof {
            assert(final(self).spec_outgoing_views() =~= old(self).spec_outgoing_views()
                + spec_housekeep_datagrams(old(self).spec_peers(), now) + spec_flush_datagrams(
                mids,
            ));
        }
    }

    /// Maintains this host and delivers an event if available: one full
    /// housekeeping pass (see `housekeep`), then one event — the head of the
    /// event queue as housekeeping left it, dequeued, or the oldest waiting
    /// packet when the queue is empty.
    pub fn service(&mut self, now: u32) -> (r: Result<Option<Event>, Error>)
        requires
            old(self).wf(),
        ensures
            final(self).wf(),
            spec_config_unchanged(*old(self), *final(self)),
            r is Ok,
            final(self).spec_time() == now,
            final(self).spec_peers().len() == old(self).spec_peers().len(),
            r->Ok_0 is None ==> {
                &&& final(self).spec_events().len() == 0
                &&& (forall|j: int|
                    0 <= j < final(self).spec_peers().len() ==> (
                    #[trigger] final(self).spec_peers()[j]).spec_received().len() == 0)
            },
            exists|b: Host<T>|
                {
                    &&& #[trigger] b.wf()
                    &&& b.spec_peers().len() == old(self).spec_peers().len()
                    &&& b.spec_time() == now
                    &&& (exists|mids: Seq<Peer<T>>|
                        {
                            &&& mids.len() == old(self).spec_peers().len()
                            &&& (forall|j: int|
                                0 <= j < mids.len()
                                    ==> #[trigger] crate::peer::spec_peer_housekept(
                                    old(self).spec_peers()[j],
                                    mids[j],
                                    now,
                                ))
                            &&& (forall|j: int|
                                0 <= j < mids.len() ==> crate::peer::spec_peer_flushed(
                                    mids[j],
                                    #[trigger] b.spec_peers()[j],
                                    now,
                                ))
                            &&& b.spec_outgoing_views() == old(self).spec_outgoing_views()
                                + spec_housekeep_datagrams(old(self).spec_peers(), now)
                                + spec_flush_datagrams(mids)
                        })
                    &&& (forall|j: int|
                        0 <= j < b.spec_peers().len() ==> (
                        #[trigger] b.spec_peers()[j]).spec_outgoing() =~= Seq::<
                            CommandView,
                        >::empty())
                    &&& (forall|j: int|
                        0 <= j < b.spec_peers().len() ==> !((#[trigger] b.spec_peers()[j]).spec_state()
                            is Zombie))
                    &&& old(self).spec_events().is_prefix_of(b.spec_events())
                    &&& (forall|k: int|
                        old(self).spec_events().len() <= k < b.spec_events().len()
                            ==> spec_housekeep_event(
                            old(self).spec_peers(),
                            now,
                            #[trigger] b.spec_events()[k],
                        ))
                    &&& (forall|j: int|
                        0 <= j < old(self).spec_peers().len() && (#[trigger] old(
                            self,
                        ).spec_peers()[j]).spec_state() is Zombie && !crate::peer::spec_any_timed_out(
                            old(self).spec_peers()[j].spec_sent(),
                            now,
                            old(self).spec_peers()[j].spec_timeouts().0,
                        ) ==> exists|k: int|
                            0 <= k < b.spec_events().len() && b.spec_events()[k] == Event::Disconnect(
                                j as usize,
                                old(self).spec_peers()[j].spec_disconnect_data(),
                            ))
                    &&& (b.spec_events().len() > 0 ==> {
                        &&& r->Ok_0 is Some
                        &&& r->Ok_0->0 == b.spec_events()[0]
                        &&& final(self).spec_events() == b.spec_events().drop_first()
                        &&& final(self).spec_peers() == b.spec_peers()
                    })
                    &&& (b.spec_events().len() == 0 && r->Ok_0 is Some ==> r->Ok_0->0 is Receive)
                },
    {
        self.housekeep(now);
        let ghost b = *self;
        let r = self.check_events();
        proof {
            assert(b.wf() && b.spec_time() == now);
        }
        r
    }
}

} // verus!

