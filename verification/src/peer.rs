//! One endpoint of a connection: the peer state machine, its channels, its
//! round-trip-time estimate, its throttle, and its queues.

use vstd::prelude::*;

use crate::Error;
use crate::address::{Address, clone_bytes};
use crate::channel::{
    Channel, spec_seq_add, spec_receive_reliable_post, spec_receive_fragment_post, spec_seq_newer,
};
use crate::fragment::{MAX_FRAGMENT_SIZE, make_chunks, spec_chunks};
use crate::packet::{Packet, PacketMode, PacketView};
use crate::throttle::{
    Throttle, next_random, spec_next_random, spec_throttle_admits, spec_throttle_step,
};
use crate::wire::{Command, CommandView, encode, spec_encode};

verus! {

/// The most channels one connection may carry.
pub const MAX_CHANNEL_COUNT: usize = 255;

/// How many retransmissions of one reliable command are allowed before the
/// peer counts as unreachable.
pub const DEFAULT_TIMEOUT_LIMIT: u32 = 5;

/// The least retransmission timeout, in milliseconds.
pub const DEFAULT_TIMEOUT_MIN: u32 = 500;

/// The largest retransmission timeout the exponential backoff may reach, in
/// milliseconds.
pub const DEFAULT_TIMEOUT_MAX: u32 = 30000;

/// The starting round-trip-time estimate, in milliseconds.
pub const DEFAULT_ROUND_TRIP_TIME: u32 = 500;

/// Describes the state a peer is in along the connection lifecycle.
#[derive(Debug, Copy, Clone, Hash, PartialEq, Eq, Structural)]
pub enum PeerState {
    /// Terminal and initial state.
    Disconnected,
    /// Steady state: the only state in which application packets flow.
    Connected,
    /// An outbound handshake was sent.
    Connecting,
    /// An inbound handshake was received and the accepting reply sent.
    AcknowledgingConnect,
    /// An inbound connection awaits adoption by the application.
    ConnectionPending,
    /// The handshake finished but the connect event is still queued.
    ConnectionSucceeded,
    /// Draining the outgoing queue, then disconnecting.
    DisconnectLater,
    /// A disconnect notice was sent; its acknowledgement is awaited.
    Disconnecting,
    /// A disconnect notice was received and acknowledged.
    AcknowledgingDisconnect,
    /// Awaiting cleanup by the host's housekeeping pass.
    Zombie,
}

/// A reliable command in flight: kept for retransmission until acknowledged.
struct SentReliable {
    channel: u8,
    seq: u16,
    command: Command,
    sent_at: u32,
    rto: u32,
    retries: u32,
}

/// The ghost view of one stored in-flight entry.
spec fn sent_view(e: SentReliable) -> SentView {
    SentView {
        channel: e.channel,
        seq: e.seq,
        command: e.command@,
        sent_at: e.sent_at,
        rto: e.rto,
        retries: e.retries,
    }
}

/// One in-flight reliable command, as the ghost view of the retransmission
/// queue records it.
#[verifier::ext_equal]
pub ghost struct SentView {
    /// The channel part of the retransmission key.
    pub channel: u8,
    /// The sequence part of the retransmission key.
    pub seq: u16,
    /// The command itself.
    pub command: CommandView,
    /// When it was last transmitted, in milliseconds.
    pub sent_at: u32,
    /// The current retransmission timeout.
    pub rto: u32,
    /// How many retransmissions it has had.
    pub retries: u32,
}

/// Whether an in-flight entry is overdue at `now`.
pub open spec fn spec_due(e: SentView, now: u32) -> bool {
    now >= e.sent_at && now - e.sent_at >= e.rto
}

/// One backoff step: the retransmission timeout doubles, capped at `max`.
pub open spec fn spec_backoff(rto: u32, max: u32) -> u32 {
    if 2 * rto > max {
        max
    } else {
        (2 * rto) as u32
    }
}

/// The first retransmission timeout of a fresh command: twice the smoothed
/// round-trip estimate plus four times its variance, held inside the
/// configured bounds.
pub open spec fn spec_initial_rto(rtt: u32, variance: u32, min: u32, max: u32) -> u32 {
    let raw = 2 * rtt + 4 * variance;
    let capped: u32 = if raw > max {
        max
    } else {
        raw as u32
    };
    if capped < min {
        min
    } else {
        capped
    }
}

/// The in-flight entries one flush adds: the queued commands that carry a
/// retransmission key, in queue order, freshly stamped at `now`.
pub open spec fn spec_keyed_sent(cmds: Seq<CommandView>, now: u32, rto: u32) -> Seq<SentView>
    decreases cmds.len(),
{
    if cmds.len() == 0 {
        Seq::empty()
    } else {
        spec_keyed_sent(cmds.drop_last(), now, rto) + (match spec_retransmit_key(cmds.last()) {
            Some(k) => seq![
                SentView {
                    channel: k.0,
                    seq: k.1,
                    command: cmds.last(),
                    sent_at: now,
                    rto,
                    retries: 0,
                },
            ],
            None => Seq::empty(),
        })
    }
}

/// The in-flight queue after one housekeeping pass at `now`: an overdue
/// entry still inside the retry limit is restamped with its backoff doubled;
/// an overdue entry at the limit leaves; everything else stays.
pub open spec fn spec_sent_ticked(sent: Seq<SentView>, now: u32, limit: u32, max: u32) -> Seq<
    SentView,
>
    decreases sent.len(),
{
    if sent.len() == 0 {
        Seq::empty()
    } else {
        spec_sent_ticked(sent.drop_last(), now, limit, max) + ({
            let e = sent.last();
            if spec_due(e, now) {
                if e.retries >= limit {
                    Seq::empty()
                } else {
                    seq![
                        SentView {
                            sent_at: now,
                            retries: (e.retries + 1) as u32,
                            rto: spec_backoff(e.rto, max),
                            ..e
                        },
                    ]
                }
            } else {
                seq![e]
            }
        })
    }
}

/// The datagrams one housekeeping pass retransmits: the encodings of the
/// overdue entries still inside the retry limit, in queue order.
pub open spec fn spec_retransmits(sent: Seq<SentView>, now: u32, limit: u32) -> Seq<Seq<u8>>
    decreases sent.len(),
{
    if sent.len() == 0 {
        Seq::empty()
    } else {
        spec_retransmits(sent.drop_last(), now, limit) + ({
            let e = sent.last();
            if spec_due(e, now) && e.retries < limit {
                seq![spec_encode(e.command)]
            } else {
                Seq::empty()
            }
        })
    }
}

/// Whether some in-flight entry has exhausted the retry limit at `now`.
pub open spec fn spec_any_timed_out(sent: Seq<SentView>, now: u32, limit: u32) -> bool {
    exists|i: int|
        0 <= i < sent.len() && spec_due(#[trigger] sent[i], now) && sent[i].retries >= limit
}

/// One throttle housekeeping step at `now`, as `Throttle::tick` performs it:
/// nothing before the interval elapses; then one throttle step from what the
/// interval observed, and a fresh interval.
pub open spec fn spec_throttle_ticked(t: Throttle, now: u32) -> Throttle {
    if now >= t.epoch && now - t.epoch >= t.interval {
        Throttle {
            value: if t.loss_in_interval {
                spec_throttle_step(t.value, true, t.acceleration, t.deceleration)
            } else if t.ack_in_interval {
                spec_throttle_step(t.value, false, t.acceleration, t.deceleration)
            } else {
                t.value
            },
            epoch: now,
            loss_in_interval: false,
            ack_in_interval: false,
            ..t
        }
    } else {
        t
    }
}

/// Keyed-command counting extends one command at a time.
proof fn lemma_keyed_sent_step(cmds: Seq<CommandView>, i: int, now: u32, rto: u32)
    requires
        0 <= i < cmds.len(),
    ensures
        spec_keyed_sent(cmds.subrange(0, i + 1), now, rto) == spec_keyed_sent(
            cmds.subrange(0, i),
            now,
            rto,
        ) + (match spec_retransmit_key(cmds[i]) {
            Some(k) => seq![
                SentView { channel: k.0, seq: k.1, command: cmds[i], sent_at: now, rto, retries: 0 },
            ],
            None => Seq::<SentView>::empty(),
        }),
{
    assert(cmds.subrange(0, i + 1).drop_last() =~= cmds.subrange(0, i));
    assert(cmds.subrange(0, i + 1).last() == cmds[i]);
}

/// Housekeeping of the in-flight queue extends one entry at a time.
proof fn lemma_tick_step(sent: Seq<SentView>, i: int, now: u32, limit: u32, max: u32)
    requires
        0 <= i < sent.len(),
    ensures
        spec_sent_ticked(sent.subrange(0, i + 1), now, limit, max) == spec_sent_ticked(
            sent.subrange(0, i),
            now,
            limit,
            max,
        ) + ({
            let e = sent[i];
            if spec_due(e, now) {
                if e.retries >= limit {
                    Seq::<SentView>::empty()
                } else {
                    seq![
                        SentView {
                            sent_at: now,
                            retries: (e.retries + 1) as u32,
                            rto: spec_backoff(e.rto, max),
                            ..e
                        },
                    ]
                }
            } else {
                seq![e]
            }
        }),
        spec_retransmits(sent.subrange(0, i + 1), now, limit) == spec_retransmits(
            sent.subrange(0, i),
            now,
            limit,
        ) + (if spec_due(sent[i], now) && sent[i].retries < limit {
            seq![spec_encode(sent[i].command)]
        } else {
            Seq::<Seq<u8>>::empty()
        }),
        spec_any_timed_out(sent.subrange(0, i + 1), now, limit) == (spec_any_timed_out(
            sent.subrange(0, i),
            now,
            limit,
        ) || (spec_due(sent[i], now) && sent[i].retries >= limit)),
{
    assert(sent.subrange(0, i + 1).drop_last() =~= sent.subrange(0, i));
    assert(sent.subrange(0, i + 1).last() == sent[i]);
    if spec_any_timed_out(sent.subrange(0, i + 1), now, limit) {
        let j = choose|j: int|
            0 <= j < sent.subrange(0, i + 1).len() && spec_due(
                #[trigger] sent.subrange(0, i + 1)[j],
                now,
            ) && sent.subrange(0, i + 1)[j].retries >= limit;
        if j < i {
            assert(sent.subrange(0, i)[j] == sent.subrange(0, i + 1)[j]);
            assert(spec_any_timed_out(sent.subrange(0, i), now, limit));
        }
    }
    if spec_any_timed_out(sent.subrange(0, i), now, limit) {
        let j = choose|j: int|
            0 <= j < sent.subrange(0, i).len() && spec_due(
                #[trigger] sent.subrange(0, i)[j],
                now,
            ) && sent.subrange(0, i)[j].retries >= limit;
        assert(sent.subrange(0, i + 1)[j] == sent.subrange(0, i)[j]);
        assert(spec_any_timed_out(sent.subrange(0, i + 1), now, limit));
    }
    if spec_due(sent[i], now) && sent[i].retries >= limit {
        assert(sent.subrange(0, i + 1)[i] == sent[i]);
        assert(spec_any_timed_out(sent.subrange(0, i + 1), now, limit));
    }
}

/// Whether the in-flight entry at `j` is the first one keyed by the given
/// channel and sequence number.
pub open spec fn spec_ack_match(sent: Seq<SentView>, channel: u8, seq: u16, j: int) -> bool {
    &&& 0 <= j < sent.len()
    &&& sent[j].channel == channel
    &&& sent[j].seq == seq
    &&& (forall|k: int|
        0 <= k < j ==> !((#[trigger] sent[k]).channel == channel && sent[k].seq == seq))
}

/// One smoothing step of the round-trip estimate: an eighth of the way to
/// the sample.
pub open spec fn spec_smoothed_rtt(rtt: u32, sample: u32) -> u32 {
    if sample >= rtt {
        (rtt + (sample - rtt) / 8) as u32
    } else {
        (rtt - (rtt - sample) / 8) as u32
    }
}

/// One smoothing step of the round-trip variance: a quarter of the way to
/// the sample's deviation.
pub open spec fn spec_smoothed_variance(rtt: u32, variance: u32, sample: u32) -> u32 {
    let dev: u32 = if sample >= rtt {
        (sample - rtt) as u32
    } else {
        (rtt - sample) as u32
    };
    (variance - variance / 4 + dev / 4) as u32
}

/// A packet received from a peer, with the channel it arrived on.
#[derive(Debug)]
pub struct PeerPacket {
    /// The packet that was received.
    pub packet: Packet,
    /// The channel on which the packet was received.
    pub channel_id: u8,
}

/// One endpoint of a connection, owned by a host.
pub struct Peer<T> {
    remote: Address,
    state: PeerState,
    channels: Vec<Channel>,
    event_data: u32,
    data: Option<T>,
    rtt: u32,
    rtt_variance: u32,
    incoming_bandwidth: u32,
    outgoing_bandwidth: u32,
    throttle: Throttle,
    rng: u32,
    outgoing: Vec<Command>,
    sent_reliable: Vec<SentReliable>,
    received: Vec<PeerPacket>,
    timeout_limit: u32,
    timeout_min: u32,
    timeout_max: u32,
    disconnect_data: u32,
}

/// The fragment commands that carry one oversized payload: chunk `i` travels
/// under sequence number `start + i`, all keyed by the group start.
pub open spec fn spec_fragment_cmds(channel: u8, start: u16, chunks: Seq<Seq<u8>>) -> Seq<
    CommandView,
> {
    Seq::new(
        chunks.len(),
        |i: int|
            CommandView::Fragment {
                channel,
                seq: spec_seq_add(start, i as u16),
                start_seq: start,
                frag_count: chunks.len() as u16,
                frag_index: i as u16,
                payload: chunks[i],
            },
    )
}

/// The packets a handler appended to the receive queue, in order.
pub open spec fn spec_received_delta<T>(pre: Peer<T>, post: Peer<T>) -> Seq<Packet> {
    Seq::new(
        (post.spec_received().len() - pre.spec_received().len()) as nat,
        |i: int| post.spec_received()[pre.spec_received().len() + i].packet,
    )
}

/// The frame every inbound-data handler preserves: everything but the
/// addressed channel, the receive queue and (for reliable traffic) the
/// acknowledgement it queues.
pub open spec fn spec_data_handler_frame<T>(pre: Peer<T>, post: Peer<T>, channel: u8) -> bool {
    &&& post.wf()
    &&& post.spec_state() == pre.spec_state()
    &&& pre.spec_received().is_prefix_of(post.spec_received())
    &&& (forall|i: int|
        pre.spec_received().len() <= i < post.spec_received().len() ==> (
        #[trigger] post.spec_received()[i]).channel_id == channel)
    &&& post.spec_channels().len() == pre.spec_channels().len()
    &&& (forall|j: int|
        0 <= j < pre.spec_channels().len() && j != channel ==> post.spec_channels()[j]
            == pre.spec_channels()[j])
    &&& post.spec_sent() == pre.spec_sent()
    &&& post.spec_throttle() == pre.spec_throttle()
    &&& post.spec_rng() == pre.spec_rng()
    &&& post.spec_data() == pre.spec_data()
    &&& post.spec_remote() == pre.spec_remote()
    &&& post.spec_event_data() == pre.spec_event_data()
    &&& post.spec_disconnect_data() == pre.spec_disconnect_data()
    &&& post.spec_timeouts() == pre.spec_timeouts()
    &&& post.spec_rtt() == pre.spec_rtt()
}

/// Everything `on_reliable_data` promises: outside the data-accepting states
/// or the channel range nothing changes; otherwise the acknowledgement is
/// queued and the addressed channel consumes exactly this arrival under
/// `receive_reliable`'s contract, its deliveries joining the receive queue
/// in order.
pub open spec fn spec_on_reliable_data_post<T>(
    pre: Peer<T>,
    post: Peer<T>,
    channel: u8,
    seq: u16,
    payload: Seq<u8>,
) -> bool {
    if !(pre.accepts_data() && (channel as int) < pre.spec_channels().len()) {
        post == pre
    } else {
        &&& spec_data_handler_frame(pre, post, channel)
        &&& post.spec_outgoing() =~= pre.spec_outgoing().push(
            CommandView::Ack { channel, seq },
        )
        &&& spec_receive_reliable_post(
            pre.spec_channels()[channel as int],
            post.spec_channels()[channel as int],
            seq,
            payload,
            spec_received_delta(pre, post),
        )
    }
}

/// Everything `on_fragment` promises: outside the data-accepting states or
/// the channel range nothing changes; otherwise the acknowledgement is
/// queued and the addressed channel consumes exactly this fragment under
/// `receive_fragment`'s contract, its deliveries joining the receive queue
/// in order.
pub open spec fn spec_on_fragment_post<T>(
    pre: Peer<T>,
    post: Peer<T>,
    channel: u8,
    seq: u16,
    start_seq: u16,
    frag_count: u16,
    frag_index: u16,
    payload: Seq<u8>,
) -> bool {
    if !(pre.accepts_data() && (channel as int) < pre.spec_channels().len()) {
        post == pre
    } else {
        &&& spec_data_handler_frame(pre, post, channel)
        &&& post.spec_outgoing() =~= pre.spec_outgoing().push(
            CommandView::Ack { channel, seq },
        )
        &&& spec_receive_fragment_post(
            pre.spec_channels()[channel as int],
            post.spec_channels()[channel as int],
            start_seq,
            frag_count,
            frag_index,
            payload,
            spec_received_delta(pre, post),
        )
    }
}

/// Everything `on_unreliable_data` promises: outside the data-accepting
/// states or the channel range nothing changes; otherwise an arrival newer
/// than the channel's last unreliable delivery is delivered at once with
/// exactly these bytes, an older one is dropped, and nothing is ever queued
/// for acknowledgement or retransmission.
pub open spec fn spec_on_unreliable_data_post<T>(
    pre: Peer<T>,
    post: Peer<T>,
    channel: u8,
    seq: u16,
    payload: Seq<u8>,
) -> bool {
    if !(pre.accepts_data() && (channel as int) < pre.spec_channels().len()) {
        post == pre
    } else {
        let ch = pre.spec_channels()[channel as int];
        let ch2 = post.spec_channels()[channel as int];
        &&& spec_data_handler_frame(pre, post, channel)
        &&& post.spec_outgoing() == pre.spec_outgoing()
        &&& (spec_seq_newer(seq, ch.last_unreliable()) ==> {
            &&& post.spec_received().len() == pre.spec_received().len() + 1
            &&& post.spec_received().last().packet@ == (PacketView {
                data: payload,
                mode: PacketMode::UnreliableSequenced,
            })
            &&& ch2.wf()
            &&& ch2.log() == ch.log()
            &&& ch2.last_unreliable() == seq
        })
        &&& (!spec_seq_newer(seq, ch.last_unreliable()) ==> {
            &&& post.spec_received() == pre.spec_received()
            &&& ch2 == ch
        })
    }
}

/// Everything `on_unsequenced_data` promises: outside the data-accepting
/// states or the channel range nothing changes; otherwise exactly this
/// payload joins the receive queue, in arrival order, bypassing every
/// ordering window, with nothing queued for acknowledgement or
/// retransmission.
pub open spec fn spec_on_unsequenced_data_post<T>(
    pre: Peer<T>,
    post: Peer<T>,
    channel: u8,
    payload: Seq<u8>,
) -> bool {
    if !(pre.accepts_data() && (channel as int) < pre.spec_channels().len()) {
        post == pre
    } else {
        &&& spec_data_handler_frame(pre, post, channel)
        &&& post.spec_outgoing() == pre.spec_outgoing()
        &&& post.spec_channels() == pre.spec_channels()
        &&& post.spec_received().len() == pre.spec_received().len() + 1
        &&& post.spec_received().last().packet@ == (PacketView {
            data: payload,
            mode: PacketMode::UnreliableUnsequenced,
        })
    }
}

/// Everything `on_connect_accept` promises: the accepting reply turns an
/// outbound handshake into a connection exactly once, queues the final
/// handshake acknowledgement, and settles the channel count; a repeated
/// reply to an already connected peer merely repeats the acknowledgement;
/// anything else changes nothing.
pub open spec fn spec_on_connect_accept_post<T>(pre: Peer<T>, post: Peer<T>, cc: u8) -> bool {
    let became = pre.spec_state() is Connecting && cc >= 1;
    &&& post.wf()
    &&& (became ==> {
        &&& post.spec_state() == PeerState::Connected
        &&& post.spec_outgoing() =~= pre.spec_outgoing().push(CommandView::ConnectDone)
        &&& post.spec_channels().len() == if (cc as int) < pre.spec_channels().len() {
            cc as int
        } else {
            pre.spec_channels().len() as int
        }
        &&& post.spec_remote() == pre.spec_remote()
        &&& post.spec_received() == pre.spec_received()
        &&& post.spec_event_data() == pre.spec_event_data()
        &&& post.spec_disconnect_data() == pre.spec_disconnect_data()
    })
    &&& (pre.spec_state() is Connecting && cc == 0 ==> post == pre)
    &&& (pre.spec_state() is Connected ==> {
        &&& post.spec_state() == PeerState::Connected
        &&& post.spec_outgoing() =~= pre.spec_outgoing().push(CommandView::ConnectDone)
        &&& post.spec_channels() == pre.spec_channels()
        &&& post.spec_received() == pre.spec_received()
        &&& post.spec_remote() == pre.spec_remote()
        &&& post.spec_sent() == pre.spec_sent()
    })
    &&& (!(pre.spec_state() is Connecting || pre.spec_state() is Connected) ==> post == pre)
}

/// Everything `on_connect_done` promises: the final handshake
/// acknowledgement connects an accepting peer exactly once; anything else
/// changes nothing.
pub open spec fn spec_on_connect_done_post<T>(pre: Peer<T>, post: Peer<T>, became: bool) -> bool {
    &&& post.wf()
    &&& became == pre.spec_state() is AcknowledgingConnect
    &&& (became ==> {
        &&& post.spec_state() == PeerState::Connected
        &&& post.spec_remote() == pre.spec_remote()
        &&& post.spec_received() == pre.spec_received()
        &&& post.spec_outgoing() == pre.spec_outgoing()
        &&& post.spec_channels() == pre.spec_channels()
        &&& post.spec_event_data() == pre.spec_event_data()
    })
    &&& (!became ==> post == pre)
}

/// Everything `on_disconnect_notice` promises: a fresh notice is
/// acknowledged and parks the peer as a zombie carrying the notice's user
/// data, for housekeeping to free and surface; a notice to a dead slot
/// changes nothing.
pub open spec fn spec_on_disconnect_notice_post<T>(
    pre: Peer<T>,
    post: Peer<T>,
    user_data: u32,
    fresh: bool,
) -> bool {
    &&& post.wf()
    &&& fresh == !(pre.spec_state() is Disconnected || pre.spec_state() is Zombie)
    &&& (fresh ==> {
        &&& post.spec_state() == PeerState::Zombie
        &&& post.spec_disconnect_data() == user_data
        &&& post.spec_outgoing() =~= pre.spec_outgoing().push(CommandView::DisconnectAck)
        &&& post.spec_remote() == pre.spec_remote()
        &&& post.spec_received() == pre.spec_received()
    })
    &&& (!fresh ==> post == pre)
}

/// Everything `on_disconnect_ack` promises: the acknowledgement of our own
/// notice moves a disconnecting peer to the zombie state, for housekeeping
/// to free and surface with the user data the disconnect call supplied;
/// anything else changes nothing.
pub open spec fn spec_on_disconnect_ack_post<T>(pre: Peer<T>, post: Peer<T>) -> bool {
    &&& post.wf()
    &&& (pre.spec_state() is Disconnecting ==> {
        &&& post.spec_state() == PeerState::Zombie
        &&& post.spec_disconnect_data() == pre.spec_disconnect_data()
        &&& post.spec_remote() == pre.spec_remote()
        &&& post.spec_received() == pre.spec_received()
        &&& post.spec_outgoing() == pre.spec_outgoing()
    })
    &&& (!(pre.spec_state() is Disconnecting) ==> post == pre)
}

/// Everything `on_ack` promises: the first in-flight entry under the key
/// leaves the queue, a fresh entry feeds the round-trip sample into the
/// smoothed estimate, the delivery is noted for the throttle, and a drained
/// deferred disconnect sends its notice; an acknowledgement matching nothing
/// changes nothing.
pub open spec fn spec_on_ack_post<T>(
    pre: Peer<T>,
    post: Peer<T>,
    channel: u8,
    seq: u16,
    now: u32,
) -> bool {
    &&& post.wf()
    &&& ((forall|k: int|
        0 <= k < pre.spec_sent().len() ==> !((#[trigger] pre.spec_sent()[k]).channel == channel
            && pre.spec_sent()[k].seq == seq)) ==> post == pre)
    &&& ((exists|j: int| spec_ack_match(pre.spec_sent(), channel, seq, j)) ==> exists|j: int|
        {
            let e = pre.spec_sent()[j];
            let sample: u32 = if now >= e.sent_at {
                (now - e.sent_at) as u32
            } else {
                0u32
            };
            &&& #[trigger] spec_ack_match(pre.spec_sent(), channel, seq, j)
            &&& post.spec_sent() == pre.spec_sent().remove(j)
            &&& post.spec_throttle() == (Throttle {
                ack_in_interval: true,
                ..pre.spec_throttle()
            })
            &&& (e.retries == 0 ==> post.spec_rtt() == spec_smoothed_rtt(pre.spec_rtt(), sample)
                && post.spec_rtt_variance() == spec_smoothed_variance(
                pre.spec_rtt(),
                pre.spec_rtt_variance(),
                sample,
            ))
            &&& (e.retries != 0 ==> post.spec_rtt() == pre.spec_rtt() && post.spec_rtt_variance()
                == pre.spec_rtt_variance())
            &&& (pre.spec_state() is DisconnectLater && pre.spec_outgoing().len() == 0
                && pre.spec_sent().remove(j).len() == 0 ==> {
                &&& post.spec_state() == PeerState::Disconnecting
                &&& post.spec_outgoing() =~= pre.spec_outgoing().push(
                    CommandView::Disconnect { user_data: pre.spec_disconnect_data() },
                )
            })
            &&& (!(pre.spec_state() is DisconnectLater && pre.spec_outgoing().len() == 0
                && pre.spec_sent().remove(j).len() == 0) ==> {
                &&& post.spec_state() == pre.spec_state()
                &&& post.spec_outgoing() == pre.spec_outgoing()
            })
        })
    &&& post.spec_received() == pre.spec_received()
    &&& post.spec_channels() == pre.spec_channels()
    &&& post.spec_remote() == pre.spec_remote()
    &&& post.spec_disconnect_data() == pre.spec_disconnect_data()
}

/// Everything a flush does to one peer: its queue empties, every queued
/// command that carries a retransmission key enters the in-flight queue
/// freshly stamped at `now`, and nothing else moves.
pub open spec fn spec_peer_flushed<T>(pre: Peer<T>, post: Peer<T>, now: u32) -> bool {
    &&& post.wf()
    &&& post.spec_outgoing() =~= Seq::<CommandView>::empty()
    &&& post.spec_sent() == pre.spec_sent() + spec_keyed_sent(
        pre.spec_outgoing(),
        now,
        spec_initial_rto(
            pre.spec_rtt(),
            pre.spec_rtt_variance(),
            pre.spec_timeouts().1,
            pre.spec_timeouts().2,
        ),
    )
    &&& post.spec_state() == pre.spec_state()
    &&& post.spec_received() == pre.spec_received()
    &&& post.spec_channels() == pre.spec_channels()
    &&& post.spec_throttle() == pre.spec_throttle()
    &&& post.spec_rtt() == pre.spec_rtt()
    &&& post.spec_rtt_variance() == pre.spec_rtt_variance()
    &&& post.spec_remote() == pre.spec_remote()
    &&& post.spec_event_data() == pre.spec_event_data()
    &&& post.spec_disconnect_data() == pre.spec_disconnect_data()
    &&& post.spec_timeouts() == pre.spec_timeouts()
}

/// Everything one housekeeping tick does to a peer at `now`: the throttle
/// interval is closed per the throttle-step model (with loss noted iff
/// anything was retransmitted), the retransmitted datagrams are exactly the
/// encodings of the overdue in-flight commands still inside the retry limit,
/// the in-flight queue is restamped with its backoff doubled and capped, and
/// a peer that exhausted the limit is declared unreachable with its queues
/// cleared.
pub open spec fn spec_tick_post<T>(
    pre: Peer<T>,
    post: Peer<T>,
    now: u32,
    retx: Seq<Seq<u8>>,
    timed: bool,
) -> bool {
    &&& post.wf()
    &&& retx == spec_retransmits(pre.spec_sent(), now, pre.spec_timeouts().0)
    &&& timed == spec_any_timed_out(pre.spec_sent(), now, pre.spec_timeouts().0)
    &&& post.spec_throttle() == (Throttle {
        loss_in_interval: spec_throttle_ticked(pre.spec_throttle(), now).loss_in_interval
            || retx.len() > 0,
        ..spec_throttle_ticked(pre.spec_throttle(), now)
    })
    &&& (!timed ==> post.spec_sent() == spec_sent_ticked(
        pre.spec_sent(),
        now,
        pre.spec_timeouts().0,
        pre.spec_timeouts().2,
    ))
    &&& (timed ==> {
        &&& post.spec_state() == PeerState::Disconnected
        &&& post.spec_sent() =~= Seq::<SentView>::empty()
        &&& post.spec_outgoing() =~= Seq::<CommandView>::empty()
    })
    &&& (!timed ==> post.spec_state() == pre.spec_state() || (pre.spec_state() is DisconnectLater
        && post.spec_state() == PeerState::Disconnecting))
    &&& post.spec_received() == pre.spec_received()
    &&& post.spec_channels() == pre.spec_channels()
    &&& post.spec_remote() == pre.spec_remote()
    &&& post.spec_rtt() == pre.spec_rtt()
    &&& post.spec_disconnect_data() == pre.spec_disconnect_data()
    &&& post.spec_timeouts() == pre.spec_timeouts()
}

/// Everything freeing a zombie slot does: the slot returns to
/// `Disconnected`, its retransmission and receive queues are gone, and its
/// queued commands (the disconnect acknowledgement, say) stay for the flush
/// that follows.
pub open spec fn spec_zombie_freed<T>(pre: Peer<T>, post: Peer<T>) -> bool {
    &&& post.wf()
    &&& post.spec_state() == PeerState::Disconnected
    &&& post.spec_sent() =~= Seq::<SentView>::empty()
    &&& post.spec_received() =~= Seq::<PeerPacket>::empty()
    &&& post.spec_outgoing() == pre.spec_outgoing()
    &&& post.spec_remote() == pre.spec_remote()
    &&& post.spec_channels() == pre.spec_channels()
    &&& post.spec_disconnect_data() == pre.spec_disconnect_data()
}

/// Everything one host housekeeping pass does to a peer before the flush:
/// one tick, then — if the slot sat as a zombie — it is freed.
pub open spec fn spec_peer_housekept<T>(pre: Peer<T>, post: Peer<T>, now: u32) -> bool {
    exists|mid: Peer<T>, retx: Seq<Seq<u8>>, timed: bool|
        {
            &&& #[trigger] spec_tick_post(pre, mid, now, retx, timed)
            &&& (mid.spec_state() is Zombie ==> spec_zombie_freed(mid, post))
            &&& (!(mid.spec_state() is Zombie) ==> post == mid)
        }
}

/// Well-formedness survives any step that leaves the receive queue and the
/// channels in place, keeps the throttle on its scale, and does not invent a
/// fresh outbound handshake.
proof fn lemma_wf_same_shape<T>(pre: Peer<T>, post: Peer<T>)
    requires
        pre.wf(),
        post.spec_received() == pre.spec_received(),
        post.spec_channels() == pre.spec_channels(),
        post.spec_throttle().wf(),
        post.spec_state() is Connecting ==> pre.spec_state() is Connecting,
    ensures
        post.wf(),
{
    assert forall|i: int|
        0 <= i < post.spec_received().len() implies ((
    #[trigger] post.spec_received()[i]).channel_id as int) < post.spec_channels().len() by {
        assert((pre.spec_received()[i].channel_id as int) < pre.spec_channels().len());
    }
    assert forall|i: int| 0 <= i < post.spec_channels().len() implies (
    #[trigger] post.spec_channels()[i]).wf() by {
        assert(pre.spec_channels()[i].wf());
    }
}

/// A table of channels equal to a well-formed peer's is itself all
/// well-formed.
proof fn lemma_channels_wf_carry<T>(pre: Peer<T>, post: Peer<T>)
    requires
        pre.wf(),
        post.spec_channels() == pre.spec_channels(),
    ensures
        forall|i: int|
            0 <= i < post.spec_channels().len() ==> (#[trigger] post.spec_channels()[i]).wf(),
{
    assert forall|i: int|
        0 <= i < post.spec_channels().len() implies (#[trigger] post.spec_channels()[i]).wf() by {
        assert(pre.spec_channels()[i].wf());
    }
}

/// Well-formedness survives replacing one channel with a well-formed one
/// while the receive queue stays in place.
proof fn lemma_wf_channels_updated<T>(pre: Peer<T>, post: Peer<T>, idx: int)
    requires
        pre.wf(),
        post.spec_received() == pre.spec_received(),
        post.spec_throttle().wf(),
        post.spec_state() is Connecting ==> pre.spec_state() is Connecting,
        0 <= idx < pre.spec_channels().len(),
        post.spec_channels() == pre.spec_channels().update(idx, post.spec_channels()[idx]),
        post.spec_channels()[idx].wf(),
    ensures
        post.wf(),
{
    assert forall|i: int|
        0 <= i < post.spec_received().len() implies ((
    #[trigger] post.spec_received()[i]).channel_id as int) < post.spec_channels().len() by {
        assert((pre.spec_received()[i].channel_id as int) < pre.spec_channels().len());
    }
    assert forall|i: int| 0 <= i < post.spec_channels().len() implies (
    #[trigger] post.spec_channels()[i]).wf() by {
        if i != idx {
            assert(post.spec_channels()[i] == pre.spec_channels()[i]);
            assert(pre.spec_channels()[i].wf());
        }
    }
}

/// Well-formedness survives appending deliveries that name channels the peer
/// has, outside the handshake state.
proof fn lemma_wf_queue_grown<T>(pre: Peer<T>, post: Peer<T>)
    requires
        pre.wf(),
        post.spec_throttle().wf(),
        !(post.spec_state() is Connecting),
        pre.spec_received().is_prefix_of(post.spec_received()),
        forall|i: int|
            pre.spec_received().len() <= i < post.spec_received().len() ==> ((
            #[trigger] post.spec_received()[i]).channel_id as int) < post.spec_channels().len(),
        post.spec_channels().len() == pre.spec_channels().len(),
        forall|i: int|
            0 <= i < post.spec_channels().len() ==> (#[trigger] post.spec_channels()[i]).wf(),
    ensures
        post.wf(),
{
    assert forall|i: int|
        0 <= i < post.spec_received().len() implies ((
    #[trigger] post.spec_received()[i]).channel_id as int) < post.spec_channels().len() by {
        if i < pre.spec_received().len() {
            assert(post.spec_received()[i] == pre.spec_received()[i]);
            assert((pre.spec_received()[i].channel_id as int) < pre.spec_channels().len());
        }
    }
}

/// Well-formedness survives dropping trailing channels while the handshake
/// is still under way (when nothing has been delivered yet).
proof fn lemma_wf_channels_truncated<T>(pre: Peer<T>, post: Peer<T>)
    requires
        pre.wf(),
        pre.spec_state() is Connecting,
        post.spec_state() is Connecting,
        post.spec_received() == pre.spec_received(),
        post.spec_throttle().wf(),
        post.spec_channels().len() <= pre.spec_channels().len(),
        forall|i: int|
            0 <= i < post.spec_channels().len() ==> #[trigger] post.spec_channels()[i]
                == pre.spec_channels()[i],
    ensures
        post.wf(),
{
    assert(pre.spec_received().len() == 0);
    assert forall|i: int| 0 <= i < post.spec_channels().len() implies (
    #[trigger] post.spec_channels()[i]).wf() by {
        assert(pre.spec_channels()[i].wf());
    }
}

/// Everything `send_packet` promises:
/// Everything `send_packet` promises: the exact error conditions, and for
/// each delivery mode exactly what joins the outgoing queue — a reliable
/// payload as one data frame or a whole fragment group; an unreliable
/// payload as one frame when the throttle admits it and nothing when it does
/// not, except that an oversized unreliable payload is carried as a reliable
/// fragment group like any other oversized packet.
pub open spec fn spec_send_packet_post<T>(
    pre: Peer<T>,
    post: Peer<T>,
    packet: PacketView,
    channel_id: u8,
    r: Result<(), Error>,
) -> bool {
    &&& post.wf()
    &&& post.spec_state() == pre.spec_state()
    &&& post.spec_received() == pre.spec_received()
    &&& (channel_id as int >= pre.spec_channels().len() ==> {
        &&& r == Err::<(), Error>(Error::Capacity)
        &&& post == pre
    })
    &&& ((channel_id as int) < pre.spec_channels().len() && pre.spec_state()
        != PeerState::Connected ==> {
        &&& r == Err::<(), Error>(Error::Protocol)
        &&& post == pre
    })
    &&& ({
        let ch = pre.spec_channels()[channel_id as int];
        let admitted = spec_throttle_admits(
            pre.spec_throttle().value,
            spec_next_random(pre.spec_rng()),
        );
        (channel_id as int) < pre.spec_channels().len() && pre.spec_state()
            == PeerState::Connected ==> match packet.mode {
            PacketMode::ReliableSequenced => {
                if packet.data.len() <= MAX_FRAGMENT_SIZE {
                    &&& r == Ok::<(), Error>(())
                    &&& post.spec_outgoing() =~= pre.spec_outgoing().push(
                        CommandView::ReliableData {
                            channel: channel_id,
                            seq: spec_seq_add(ch.out_reliable(), 1),
                            payload: packet.data,
                        },
                    )
                } else {
                    let chunks = spec_chunks(packet.data, MAX_FRAGMENT_SIZE as nat);
                    if chunks.len() <= 0xFFFF {
                        &&& r == Ok::<(), Error>(())
                        &&& post.spec_outgoing() =~= pre.spec_outgoing() + spec_fragment_cmds(
                            channel_id,
                            spec_seq_add(ch.out_reliable(), 1),
                            chunks,
                        )
                    } else {
                        &&& r == Err::<(), Error>(Error::Capacity)
                        &&& post == pre
                    }
                }
            },
            PacketMode::UnreliableSequenced => {
                if packet.data.len() > MAX_FRAGMENT_SIZE {
                    let chunks = spec_chunks(packet.data, MAX_FRAGMENT_SIZE as nat);
                    if chunks.len() <= 0xFFFF {
                        &&& r == Ok::<(), Error>(())
                        &&& post.spec_outgoing() =~= pre.spec_outgoing() + spec_fragment_cmds(
                            channel_id,
                            spec_seq_add(ch.out_reliable(), 1),
                            chunks,
                        )
                    } else {
                        &&& r == Err::<(), Error>(Error::Capacity)
                        &&& post == pre
                    }
                } else if admitted {
                    &&& r == Ok::<(), Error>(())
                    &&& post.spec_outgoing() =~= pre.spec_outgoing().push(
                        CommandView::UnreliableData {
                            channel: channel_id,
                            seq: spec_seq_add(ch.out_unreliable(), 1),
                            payload: packet.data,
                        },
                    )
                } else {
                    &&& r == Ok::<(), Error>(())
                    &&& post.spec_outgoing() == pre.spec_outgoing()
                }
            },
            PacketMode::UnreliableUnsequenced => {
                if packet.data.len() > MAX_FRAGMENT_SIZE {
                    let chunks = spec_chunks(packet.data, MAX_FRAGMENT_SIZE as nat);
                    if chunks.len() <= 0xFFFF {
                        &&& r == Ok::<(), Error>(())
                        &&& post.spec_outgoing() =~= pre.spec_outgoing() + spec_fragment_cmds(
                            channel_id,
                            spec_seq_add(ch.out_reliable(), 1),
                            chunks,
                        )
                    } else {
                        &&& r == Err::<(), Error>(Error::Capacity)
                        &&& post == pre
                    }
                } else if admitted {
                    &&& r == Ok::<(), Error>(())
                    &&& post.spec_outgoing() =~= pre.spec_outgoing().push(
                        CommandView::UnsequencedData { channel: channel_id, payload: packet.data },
                    )
                } else {
                    &&& r == Ok::<(), Error>(())
                    &&& post.spec_outgoing() == pre.spec_outgoing()
                }
            },
        }
    })
}


impl<T> Peer<T> {
    /// The peer's current lifecycle state.
    pub closed spec fn spec_state(&self) -> PeerState {
        self.state
    }

    /// The remote endpoint's address.
    pub closed spec fn spec_remote(&self) -> crate::address::AddressView {
        self.remote@
    }

    /// The peer's channels.
    pub closed spec fn spec_channels(&self) -> Seq<Channel> {
        self.channels@
    }

    /// The commands queued for sending, not yet flushed into datagrams.
    pub closed spec fn spec_outgoing(&self) -> Seq<CommandView> {
        self.outgoing@.map_values(|c: Command| c@)
    }

    /// How many reliable commands are in flight awaiting acknowledgement.
    pub closed spec fn spec_in_flight(&self) -> nat {
        self.sent_reliable@.len()
    }

    /// The in-flight reliable commands awaiting acknowledgement, in the
    /// order they were flushed.
    pub closed spec fn spec_sent(&self) -> Seq<SentView> {
        self.sent_reliable@.map_values(|e: SentReliable| sent_view(e))
    }

    /// The packets delivered by the channels and not yet taken by the
    /// application, oldest first.
    pub closed spec fn spec_received(&self) -> Seq<PeerPacket> {
        self.received@
    }

    /// The peer's throttle state.
    pub closed spec fn spec_throttle(&self) -> Throttle {
        self.throttle
    }

    /// The peer's pseudo-random state for throttled sends.
    pub closed spec fn spec_rng(&self) -> u32 {
        self.rng
    }

    /// The user data carried by the disconnect under way.
    pub closed spec fn spec_disconnect_data(&self) -> u32 {
        self.disconnect_data
    }

    /// The retransmission limit and the bounds of the exponential backoff.
    pub closed spec fn spec_timeouts(&self) -> (u32, u32, u32) {
        (self.timeout_limit, self.timeout_min, self.timeout_max)
    }

    /// Well-formedness: every channel is well-formed, the channel count is
    /// within the protocol's bound, the throttle is on its scale, every
    /// waiting packet names a channel the peer has, and no packet waits
    /// before the handshake has even been answered.
    pub open spec fn wf(&self) -> bool {
        &&& self.spec_channels().len() <= MAX_CHANNEL_COUNT
        &&& (forall|i: int|
            0 <= i < self.spec_channels().len() ==> (#[trigger] self.spec_channels()[i]).wf())
        &&& self.spec_throttle().wf()
        &&& (forall|i: int|
            0 <= i < self.spec_received().len() ==> ((#[trigger] self.spec_received()[i]).channel_id
                as int) < self.spec_channels().len())
        &&& (self.spec_state() is Connecting ==> self.spec_received().len() == 0)
    }

    /// Builds a fresh peer toward `remote` with `channel_count` channels.
    pub(crate) fn new(
        remote: Address,
        channel_count: usize,
        state: PeerState,
        event_data: u32,
        now: u32,
        rng_seed: u32,
    ) -> (r: Peer<T>)
        requires
            1 <= channel_count <= MAX_CHANNEL_COUNT,
        ensures
            r.wf(),
            r.spec_state() == state,
            r.spec_remote() == remote@,
            r.spec_channels().len() == channel_count,
            r.spec_outgoing() =~= Seq::<CommandView>::empty(),
            r.spec_received() =~= Seq::<PeerPacket>::empty(),
            r.spec_in_flight() == 0,
            r.spec_event_data() == event_data,
    {
        let mut channels: Vec<Channel> = Vec::new();
        let mut i: usize = 0;
        while i < channel_count
            invariant
                i <= channel_count,
                channels@.len() == i,
                forall|j: int| 0 <= j < i ==> (#[trigger] channels@[j]).wf(),
            decreases channel_count - i,
        {
            channels.push(Channel::new());
            i = i + 1;
        }
        Peer {
            remote,
            state,
            channels,
            event_data,
            data: None,
            rtt: DEFAULT_ROUND_TRIP_TIME,
            rtt_variance: 0,
            incoming_bandwidth: 0,
            outgoing_bandwidth: 0,
            throttle: Throttle::new(now),
            rng: rng_seed,
            outgoing: Vec::new(),
            sent_reliable: Vec::new(),
            received: Vec::new(),
            timeout_limit: DEFAULT_TIMEOUT_LIMIT,
            timeout_min: DEFAULT_TIMEOUT_MIN,
            timeout_max: DEFAULT_TIMEOUT_MAX,
            disconnect_data: 0,
        }
    }

    /// The data the remote side passed when connecting (or this side's
    /// connect call supplied).
    pub closed spec fn spec_event_data(&self) -> u32 {
        self.event_data
    }

    /// Returns the address of this peer.
    pub fn address(&self) -> (r: Address)
        ensures
            r@ == self.spec_remote(),
    {
        self.remote.duplicate()
    }

    /// Returns the number of channels allocated for this peer.
    pub fn channel_count(&self) -> (r: usize)
        ensures
            r == self.spec_channels().len(),
    {
        self.channels.len()
    }

    /// Returns the data passed to connect by the peer.
    pub fn event_data(&self) -> (r: u32)
        ensures
            r == self.spec_event_data(),
    {
        self.event_data
    }

    /// Returns a reference to the data associated with this peer, if set.
    pub fn data(&self) -> (r: Option<&T>)
        ensures
            r is Some <==> self.spec_data() is Some,
            r is Some ==> *r->0 == self.spec_data()->0,
    {
        match &self.data {
            Some(d) => Some(d),
            None => None,
        }
    }

    /// The data associated with this peer, if set.
    pub closed spec fn spec_data(&self) -> Option<T> {
        self.data
    }

    /// Sets or clears the data associated with this peer, replacing and
    /// dropping any existing data.
    pub fn set_data(&mut self, data: Option<T>)
        requires
            old(self).wf(),
        ensures
            final(self).wf(),
            final(self).spec_data() == data,
            final(self).spec_state() == old(self).spec_state(),
            final(self).spec_remote() == old(self).spec_remote(),
            final(self).spec_channels() == old(self).spec_channels(),
            final(self).spec_outgoing() == old(self).spec_outgoing(),
            final(self).spec_received() == old(self).spec_received(),
            final(self).spec_event_data() == old(self).spec_event_data(),
    {
        self.data = data;
        proof {
            lemma_wf_same_shape(*old(self), *self);
        }
    }

    /// Returns the downstream bandwidth of this peer in bytes/second.
    pub fn incoming_bandwidth(&self) -> (r: u32)
        ensures
            r == self.spec_incoming_bandwidth(),
    {
        self.incoming_bandwidth
    }

    /// The peer's downstream bandwidth in bytes/second.
    pub closed spec fn spec_incoming_bandwidth(&self) -> u32 {
        self.incoming_bandwidth
    }

    /// Returns the upstream bandwidth of this peer in bytes/second.
    pub fn outgoing_bandwidth(&self) -> (r: u32)
        ensures
            r == self.spec_outgoing_bandwidth(),
    {
        self.outgoing_bandwidth
    }

    /// The peer's upstream bandwidth in bytes/second.
    pub closed spec fn spec_outgoing_bandwidth(&self) -> u32 {
        self.outgoing_bandwidth
    }

    /// Returns the mean round trip time between sending a reliable packet
    /// and receiving its acknowledgement, in milliseconds.
    pub fn mean_rtt(&self) -> (r: u32)
        ensures
            r == self.spec_rtt(),
    {
        self.rtt
    }

    /// The smoothed round-trip-time estimate, in milliseconds.
    pub closed spec fn spec_rtt(&self) -> u32 {
        self.rtt
    }

    /// Returns the variance of the round trip time, in milliseconds.
    pub fn rtt_variance(&self) -> (r: u32)
        ensures
            r == self.spec_rtt_variance(),
    {
        self.rtt_variance
    }

    /// The round-trip-time variance estimate, in milliseconds.
    pub closed spec fn spec_rtt_variance(&self) -> u32 {
        self.rtt_variance
    }

    /// The current throttle value, on the scale of
    /// [`crate::throttle::PACKET_THROTTLE_SCALE`].
    pub fn packet_throttle(&self) -> (r: u32)
        ensures
            r == self.spec_throttle().value,
    {
        self.throttle.value
    }

    /// Returns the state this peer is in.
    pub fn state(&self) -> (r: PeerState)
        ensures
            r == self.spec_state(),
    {
        self.state
    }

    /// Configures the throttle parameters for this peer.
    pub fn configure_throttling(&mut self, interval: u32, acceleration: u32, deceleration: u32)
        requires
            old(self).wf(),
        ensures
            final(self).wf(),
            final(self).spec_throttle() == (Throttle {
                interval,
                acceleration,
                deceleration,
                ..old(self).spec_throttle()
            }),
            final(self).spec_state() == old(self).spec_state(),
            final(self).spec_remote() == old(self).spec_remote(),
            final(self).spec_channels() == old(self).spec_channels(),
            final(self).spec_outgoing() == old(self).spec_outgoing(),
            final(self).spec_received() == old(self).spec_received(),
            final(self).spec_sent() == old(self).spec_sent(),
            final(self).spec_data() == old(self).spec_data(),
            final(self).spec_rtt() == old(self).spec_rtt(),
            final(self).spec_timeouts() == old(self).spec_timeouts(),
    {
        self.throttle.configure(interval, acceleration, deceleration);
        proof {
            lemma_wf_same_shape(*old(self), *self);
        }
    }

    /// Overrides the retransmission limit and the bounds of the exponential
    /// backoff, all in milliseconds except the bare retry `limit`.
    pub fn set_timeout(&mut self, limit: u32, min: u32, max: u32)
        requires
            old(self).wf(),
        ensures
            final(self).wf(),
            final(self).spec_timeouts() == (limit, min, max),
            final(self).spec_state() == old(self).spec_state(),
            final(self).spec_remote() == old(self).spec_remote(),
            final(self).spec_channels() == old(self).spec_channels(),
            final(self).spec_outgoing() == old(self).spec_outgoing(),
            final(self).spec_received() == old(self).spec_received(),
            final(self).spec_data() == old(self).spec_data(),
    {
        self.timeout_limit = limit;
        self.timeout_min = min;
        self.timeout_max = max;
        proof {
            lemma_wf_same_shape(*old(self), *self);
        }
    }

    /// Forcefully disconnects this peer: the state returns to `Disconnected`
    /// at once, the remote side is not notified, and no disconnect event will
    /// be produced.
    pub fn reset(&mut self)
        requires
            old(self).wf(),
        ensures
            final(self).wf(),
            final(self).spec_state() == PeerState::Disconnected,
            final(self).spec_outgoing() =~= Seq::<CommandView>::empty(),
            final(self).spec_received() =~= Seq::<PeerPacket>::empty(),
            final(self).spec_in_flight() == 0,
            final(self).spec_remote() == old(self).spec_remote(),
    {
        self.state = PeerState::Disconnected;
        self.outgoing = Vec::new();
        self.sent_reliable = Vec::new();
        self.received = Vec::new();
    }

    /// Attempts to dequeue an incoming packet from this peer, oldest first.
    pub fn receive(&mut self) -> (r: Option<PeerPacket>)
        requires
            old(self).wf(),
        ensures
            final(self).wf(),
            old(self).spec_received().len() == 0 ==> {
                &&& r is None
                &&& *final(self) == *old(self)
            },
            old(self).spec_received().len() > 0 ==> {
                &&& r is Some
                &&& r->0 == old(self).spec_received()[0]
                &&& (r->0.channel_id as int) < old(self).spec_channels().len()
                &&& final(self).spec_received() == old(self).spec_received().drop_first()
                &&& final(self).spec_state() == old(self).spec_state()
                &&& final(self).spec_outgoing() == old(self).spec_outgoing()
            },
    {
        if self.received.len() == 0 {
            None
        } else {
            let p = self.received.remove(0);
            assert(self.spec_received() =~= old(self).spec_received().drop_first());
            Some(p)
        }
    }

    /// Queues a packet to be sent; actual transmission happens when the host
    /// flushes. A payload larger than one fragment is split into a fragment
    /// group and carried reliably, whatever its mode; an unreliable packet
    /// that fits one datagram is dropped here, silently, when the throttle
    /// says so.
    pub fn send_packet(&mut self, packet: Packet, channel_id: u8) -> (r: Result<(), Error>)
        requires
            old(self).wf(),
        ensures
            spec_send_packet_post(*old(self), *final(self), packet@, channel_id, r),
    {
        if channel_id as usize >= self.channels.len() {
            return Err(Error::Capacity);
        }
        if !matches!(self.state, PeerState::Connected) {
            return Err(Error::Protocol);
        }
        let mode = packet.mode();
        let data = packet.data();
        if mode.is_reliable() {
            if data.len() <= MAX_FRAGMENT_SIZE {
                let seq = self.channel_next_reliable(channel_id as usize);
                let ghost mid = *self;
                self.outgoing.push(
                    Command::ReliableData { channel: channel_id, seq, payload: clone_bytes(data) },
                );
                proof {
                    lemma_wf_same_shape(mid, *self);
                }
                assert(self.spec_outgoing() =~= old(self).spec_outgoing().push(
                    CommandView::ReliableData {
                        channel: channel_id,
                        seq: spec_seq_add(
                            old(self).spec_channels()[channel_id as int].out_reliable(),
                            1,
                        ),
                        payload: packet@.data,
                    },
                ));
                Ok(())
            } else {
                self.send_fragments(data, channel_id)
            }
        } else {
            if data.len() > MAX_FRAGMENT_SIZE {
                // Too large for one datagram: carried as a reliable fragment
                // group, like any other oversized packet; reliable traffic is
                // never throttled.
                return self.send_fragments(data, channel_id);
            }
            let draw = next_random(self.rng);
            self.rng = draw;
            proof {
                lemma_wf_same_shape(*old(self), *self);
            }
            if !self.throttle.admits(draw) {
                return Ok(());
            }
            if mode.is_sequenced() {
                let seq = self.channel_next_unreliable(channel_id as usize);
                let ghost mid = *self;
                self.outgoing.push(
                    Command::UnreliableData {
                        channel: channel_id,
                        seq,
                        payload: clone_bytes(data),
                    },
                );
                proof {
                    lemma_wf_same_shape(mid, *self);
                }
                assert(self.spec_outgoing() =~= old(self).spec_outgoing().push(
                    CommandView::UnreliableData {
                        channel: channel_id,
                        seq: spec_seq_add(
                            old(self).spec_channels()[channel_id as int].out_unreliable(),
                            1,
                        ),
                        payload: packet@.data,
                    },
                ));
            } else {
                self.outgoing.push(
                    Command::UnsequencedData { channel: channel_id, payload: clone_bytes(data) },
                );
                proof {
                    lemma_wf_same_shape(*old(self), *self);
                }
                assert(self.spec_outgoing() =~= old(self).spec_outgoing().push(
                    CommandView::UnsequencedData { channel: channel_id, payload: packet@.data },
                ));
            }
            Ok(())
        }
    }

    /// Advances one channel's reliable counter.
    fn channel_next_reliable(&mut self, idx: usize) -> (r: u16)
        requires
            old(self).wf(),
            idx < old(self).spec_channels().len(),
        ensures
            final(self).wf(),
            r == spec_seq_add(old(self).spec_channels()[idx as int].out_reliable(), 1),
            *final(self) == (Peer { channels: final(self).channels, ..*old(self) }),
            final(self).spec_channels() =~= old(self).spec_channels().update(
                idx as int,
                final(self).spec_channels()[idx as int],
            ),
            final(self).spec_channels()[idx as int].wf(),
            final(self).spec_channels()[idx as int].out_reliable() == r,
            final(self).spec_channels()[idx as int].out_unreliable() == old(
                self,
            ).spec_channels()[idx as int].out_unreliable(),
            final(self).spec_channels()[idx as int].log() == old(self).spec_channels()[
                idx as int
            ].log(),
            final(self).spec_channels()[idx as int].incoming_next() == old(
                self,
            ).spec_channels()[idx as int].incoming_next(),
            final(self).spec_channels()[idx as int].last_unreliable() == old(
                self,
            ).spec_channels()[idx as int].last_unreliable(),
    {
        let mut ch = self.channels.remove(idx);
        let r = ch.next_outgoing_reliable();
        self.channels.insert(idx, ch);
        assert(self.spec_channels() =~= old(self).spec_channels().update(
            idx as int,
            self.spec_channels()[idx as int],
        ));
        proof {
            lemma_wf_channels_updated(*old(self), *self, idx as int);
        }
        r
    }

    /// Advances one channel's unreliable counter.
    fn channel_next_unreliable(&mut self, idx: usize) -> (r: u16)
        requires
            old(self).wf(),
            idx < old(self).spec_channels().len(),
        ensures
            final(self).wf(),
            r == spec_seq_add(old(self).spec_channels()[idx as int].out_unreliable(), 1),
            *final(self) == (Peer { channels: final(self).channels, ..*old(self) }),
            final(self).spec_channels() =~= old(self).spec_channels().update(
                idx as int,
                final(self).spec_channels()[idx as int],
            ),
            final(self).spec_channels()[idx as int].wf(),
            final(self).spec_channels()[idx as int].out_unreliable() == r,
            final(self).spec_channels()[idx as int].out_reliable() == old(
                self,
            ).spec_channels()[idx as int].out_reliable(),
            final(self).spec_channels()[idx as int].log() == old(self).spec_channels()[
                idx as int
            ].log(),
            final(self).spec_channels()[idx as int].incoming_next() == old(
                self,
            ).spec_channels()[idx as int].incoming_next(),
            final(self).spec_channels()[idx as int].last_unreliable() == old(
                self,
            ).spec_channels()[idx as int].last_unreliable(),
    {
        let mut ch = self.channels.remove(idx);
        let r = ch.next_outgoing_unreliable();
        self.channels.insert(idx, ch);
        assert(self.spec_channels() =~= old(self).spec_channels().update(
            idx as int,
            self.spec_channels()[idx as int],
        ));
        proof {
            lemma_wf_channels_updated(*old(self), *self, idx as int);
        }
        r
    }

    /// Splits an oversized reliable payload into a fragment group and queues
    /// every fragment.
    fn send_fragments(&mut self, data: &Vec<u8>, channel_id: u8) -> (r: Result<(), Error>)
        requires
            old(self).wf(),
            (channel_id as int) < old(self).spec_channels().len(),
            data@.len() > MAX_FRAGMENT_SIZE,
        ensures
            final(self).wf(),
            final(self).spec_state() == old(self).spec_state(),
            final(self).spec_received() == old(self).spec_received(),
            ({
                let ch = old(self).spec_channels()[channel_id as int];
                let chunks = spec_chunks(data@, MAX_FRAGMENT_SIZE as nat);
                if chunks.len() <= 0xFFFF {
                    &&& r == Ok::<(), Error>(())
                    &&& final(self).spec_outgoing() =~= old(self).spec_outgoing()
                        + spec_fragment_cmds(channel_id, spec_seq_add(ch.out_reliable(), 1), chunks)
                } else {
                    &&& r == Err::<(), Error>(Error::Capacity)
                    &&& *final(self) == *old(self)
                }
            }),
    {
        let chunks = make_chunks(data, MAX_FRAGMENT_SIZE);
        let ghost model_chunks = spec_chunks(data@, MAX_FRAGMENT_SIZE as nat);
        proof {
            crate::fragment::lemma_chunks_sizes(data@, MAX_FRAGMENT_SIZE as nat);
        }
        if chunks.len() > 0xFFFF {
            return Err(Error::Capacity);
        }
        let count = chunks.len() as u16;
        let mut start: u16 = 0;
        let mut i: usize = 0;
        // Hand out one reliable sequence number per fragment; the first is
        // the group's start.
        let ghost ch0 = old(self).spec_channels()[channel_id as int];
        let ghost fragment_model = spec_fragment_cmds(
            channel_id,
            spec_seq_add(ch0.out_reliable(), 1),
            model_chunks,
        );
        while i < chunks.len()
            invariant
                self.wf(),
                i <= chunks.len(),
                chunks@.len() == model_chunks.len(),
                chunks@.map_values(|v: Vec<u8>| v@) == model_chunks,
                model_chunks.len() <= 0xFFFF,
                count == model_chunks.len() as u16,
                (channel_id as int) < self.spec_channels().len(),
                self.spec_channels().len() == old(self).spec_channels().len(),
                fragment_model == spec_fragment_cmds(
                    channel_id,
                    spec_seq_add(ch0.out_reliable(), 1),
                    model_chunks,
                ),
                i > 0 ==> start == spec_seq_add(ch0.out_reliable(), 1),
                self.spec_channels()[channel_id as int].out_reliable() == if i == 0 {
                    ch0.out_reliable()
                } else {
                    spec_seq_add(ch0.out_reliable(), i as u16)
                },
                self.spec_outgoing() =~= old(self).spec_outgoing() + fragment_model.subrange(
                    0,
                    i as int,
                ),
                self.spec_state() == old(self).spec_state(),
                self.spec_received() == old(self).spec_received(),
                self.spec_throttle() == old(self).spec_throttle(),
                self.spec_rng() == old(self).spec_rng(),
                self.spec_in_flight() == old(self).spec_in_flight(),
                self.spec_data() == old(self).spec_data(),
                self.spec_remote() == old(self).spec_remote(),
                self.spec_event_data() == old(self).spec_event_data(),
            decreases chunks@.len() - i,
        {
            let seq = self.channel_next_reliable(channel_id as usize);
            proof {
                lemma_seq_add_chain(ch0.out_reliable(), i as u16);
                assert(spec_seq_add(ch0.out_reliable(), 0) == ch0.out_reliable());
            }
            if i == 0 {
                start = seq;
            }
            let payload = clone_bytes(&chunks[i]);
            let ghost prev_outgoing = self.spec_outgoing();
            self.outgoing.push(
                Command::Fragment {
                    channel: channel_id,
                    seq,
                    start_seq: start,
                    frag_count: count,
                    frag_index: i as u16,
                    payload,
                },
            );
            assert(self.spec_outgoing() =~= prev_outgoing.push(fragment_model[i as int]));
            assert(self.spec_outgoing() =~= old(self).spec_outgoing() + fragment_model.subrange(
                0,
                i + 1,
            ));
            i = i + 1;
        }
        assert(fragment_model.subrange(0, fragment_model.len() as int) =~= fragment_model);
        Ok(())
    }
}

/// The retransmission identity of a command: reliable data and fragments
/// retransmit under their channel and sequence number; the three reliable
/// handshake commands retransmit under reserved keys; everything else is
/// fire-and-forget.
pub open spec fn spec_retransmit_key(c: CommandView) -> Option<(u8, u16)> {
    match c {
        CommandView::ReliableData { channel, seq, .. } => Some((channel, seq)),
        CommandView::Fragment { channel, seq, .. } => Some((channel, seq)),
        CommandView::Connect { .. } => Some((HANDSHAKE_CHANNEL, 1u16)),
        CommandView::ConnectAccept { .. } => Some((HANDSHAKE_CHANNEL, 2u16)),
        CommandView::Disconnect { .. } => Some((HANDSHAKE_CHANNEL, 3u16)),
        _ => None,
    }
}

/// The reserved channel id under which handshake commands retransmit.
pub const HANDSHAKE_CHANNEL: u8 = 0xFF;

/// The retransmission identity of a command.
fn retransmit_key(c: &Command) -> (r: Option<(u8, u16)>)
    ensures
        r == spec_retransmit_key(c@),
{
    match c {
        Command::ReliableData { channel, seq, .. } => Some((*channel, *seq)),
        Command::Fragment { channel, seq, .. } => Some((*channel, *seq)),
        Command::Connect { .. } => Some((HANDSHAKE_CHANNEL, 1u16)),
        Command::ConnectAccept { .. } => Some((HANDSHAKE_CHANNEL, 2u16)),
        Command::Disconnect { .. } => Some((HANDSHAKE_CHANNEL, 3u16)),
        Command::ConnectDone => None,
        Command::DisconnectAck => None,
        Command::UnreliableData { .. } => None,
        Command::UnsequencedData { .. } => None,
        Command::Ack { .. } => None,
    }
}

impl<T> Peer<T> {
    /// Disconnects from this peer: a disconnect notice goes out, and a
    /// disconnect event will surface once the notice is acknowledged (or the
    /// peer times out). Anywhere outside the steady state the peer just
    /// returns to `Disconnected`.
    pub fn disconnect(&mut self, user_data: u32)
        requires
            old(self).wf(),
        ensures
            final(self).wf(),
            old(self).spec_state() is Connected || old(self).spec_state() is DisconnectLater ==> {
                &&& final(self).spec_state() == PeerState::Disconnecting
                &&& final(self).spec_outgoing() =~= old(self).spec_outgoing().push(
                    CommandView::Disconnect { user_data },
                )
                &&& final(self).spec_disconnect_data() == user_data
            },
            !(old(self).spec_state() is Connected || old(self).spec_state() is DisconnectLater)
                ==> final(self).spec_state() == PeerState::Disconnected,
    {
        match self.state {
            PeerState::Connected | PeerState::DisconnectLater => {
                self.outgoing.push(Command::Disconnect { user_data });
                self.disconnect_data = user_data;
                self.state = PeerState::Disconnecting;
                assert(self.spec_outgoing() =~= old(self).spec_outgoing().push(
                    CommandView::Disconnect { user_data },
                ));
            },
            _ => {
                self.state = PeerState::Disconnected;
            },
        }
        proof {
            lemma_wf_same_shape(*old(self), *self);
        }
    }

    /// Disconnects immediately: one unacknowledged notice goes out as a
    /// courtesy (delivery is not guaranteed), the peer returns to
    /// `Disconnected` at once, and no disconnect event will be produced.
    pub fn disconnect_now(&mut self, user_data: u32)
        requires
            old(self).wf(),
        ensures
            final(self).wf(),
            final(self).spec_state() == PeerState::Disconnected,
            old(self).spec_state() is Connected || old(self).spec_state() is DisconnectLater ==>
                final(self).spec_outgoing() =~= old(self).spec_outgoing().push(
                CommandView::Disconnect { user_data },
            ),
    {
        match self.state {
            PeerState::Connected | PeerState::DisconnectLater => {
                self.outgoing.push(Command::Disconnect { user_data });
                assert(self.spec_outgoing() =~= old(self).spec_outgoing().push(
                    CommandView::Disconnect { user_data },
                ));
            },
            _ => {},
        }
        self.state = PeerState::Disconnected;
        self.sent_reliable = Vec::new();
        proof {
            lemma_wf_same_shape(*old(self), *self);
        }
    }

    /// Disconnects once every queued packet has been sent and acknowledged:
    /// behaves as `disconnect` when the queues are already empty, and defers
    /// the notice otherwise.
    pub fn disconnect_later(&mut self, user_data: u32)
        requires
            old(self).wf(),
        ensures
            final(self).wf(),
            old(self).spec_state() is Connected && (old(self).spec_outgoing().len() > 0 || old(
                self,
            ).spec_in_flight() > 0) ==> {
                &&& final(self).spec_state() == PeerState::DisconnectLater
                &&& final(self).spec_disconnect_data() == user_data
                &&& final(self).spec_outgoing() == old(self).spec_outgoing()
            },
            old(self).spec_state() is Connected && old(self).spec_outgoing().len() == 0 && old(
                self,
            ).spec_in_flight() == 0 ==> {
                &&& final(self).spec_state() == PeerState::Disconnecting
                &&& final(self).spec_outgoing() =~= old(self).spec_outgoing().push(
                    CommandView::Disconnect { user_data },
                )
            },
    {
        match self.state {
            PeerState::Connected => {
                if self.outgoing.len() == 0 && self.sent_reliable.len() == 0 {
                    self.outgoing.push(Command::Disconnect { user_data });
                    self.disconnect_data = user_data;
                    self.state = PeerState::Disconnecting;
                    assert(self.spec_outgoing() =~= old(self).spec_outgoing().push(
                        CommandView::Disconnect { user_data },
                    ));
                } else {
                    self.disconnect_data = user_data;
                    self.state = PeerState::DisconnectLater;
                }
            },
            PeerState::DisconnectLater => {
                self.disconnect_data = user_data;
            },
            _ => {
                self.state = PeerState::Disconnected;
            },
        }
        proof {
            lemma_wf_same_shape(*old(self), *self);
        }
    }

    /// Takes the accepting reply to our connection request. Returns whether
    /// the connection was just established (the host then surfaces exactly
    /// one connect event for this handshake).
    pub(crate) fn on_connect_accept(&mut self, channel_count: u8) -> (became: bool)
        requires
            old(self).wf(),
        ensures
            became == (old(self).spec_state() is Connecting && channel_count >= 1),
            spec_on_connect_accept_post(*old(self), *final(self), channel_count),
    {
        match self.state {
            PeerState::Connecting => {
                if channel_count == 0 {
                    return false;
                }
                if (channel_count as usize) < self.channels.len() {
                    self.channels.truncate(channel_count as usize);
                }
                proof {
                    lemma_wf_channels_truncated(*old(self), *self);
                }
                self.remove_sent(HANDSHAKE_CHANNEL, 1);
                let ghost mid = *self;
                self.state = PeerState::Connected;
                self.outgoing.push(Command::ConnectDone);
                assert(self.spec_outgoing() =~= old(self).spec_outgoing().push(
                    CommandView::ConnectDone,
                ));
                proof {
                    lemma_wf_same_shape(mid, *self);
                }
                true
            },
            PeerState::Connected => {
                // Our final handshake acknowledgement was lost: repeat it.
                self.outgoing.push(Command::ConnectDone);
                proof {
                    lemma_wf_same_shape(*old(self), *self);
                }
                false
            },
            _ => false,
        }
    }

    /// Takes the final acknowledgement of a handshake we accepted. Returns
    /// whether the connection was just established.
    pub(crate) fn on_connect_done(&mut self) -> (became: bool)
        requires
            old(self).wf(),
        ensures
            spec_on_connect_done_post(*old(self), *final(self), became),
    {
        match self.state {
            PeerState::AcknowledgingConnect => {
                self.remove_sent(HANDSHAKE_CHANNEL, 2);
                let ghost mid = *self;
                self.state = PeerState::Connected;
                proof {
                    lemma_wf_same_shape(mid, *self);
                }
                true
            },
            _ => false,
        }
    }

    /// Takes a disconnect notice from the remote side: acknowledges it and
    /// parks the peer as a zombie carrying the notice's user data, for the
    /// host's housekeeping to free and surface. Returns whether the notice
    /// was fresh.
    pub(crate) fn on_disconnect_notice(&mut self, user_data: u32) -> (fresh: bool)
        requires
            old(self).wf(),
        ensures
            spec_on_disconnect_notice_post(*old(self), *final(self), user_data, fresh),
    {
        match self.state {
            PeerState::Disconnected | PeerState::Zombie => false,
            _ => {
                self.outgoing.push(Command::DisconnectAck);
                self.disconnect_data = user_data;
                self.state = PeerState::Zombie;
                assert(self.spec_outgoing() =~= old(self).spec_outgoing().push(
                    CommandView::DisconnectAck,
                ));
                proof {
                    lemma_wf_same_shape(*old(self), *self);
                }
                true
            },
        }
    }

    /// Takes the acknowledgement of our disconnect notice: the peer becomes
    /// a zombie, for housekeeping to free and surface with the user data our
    /// disconnect call supplied.
    pub(crate) fn on_disconnect_ack(&mut self)
        requires
            old(self).wf(),
        ensures
            spec_on_disconnect_ack_post(*old(self), *final(self)),
    {
        match self.state {
            PeerState::Disconnecting => {
                self.remove_sent(HANDSHAKE_CHANNEL, 3);
                let ghost mid = *self;
                self.state = PeerState::Zombie;
                proof {
                    lemma_wf_same_shape(mid, *self);
                }
            },
            _ => {},
        }
    }

    /// Whether this peer accepts application data right now.
    pub open spec fn accepts_data(&self) -> bool {
        self.spec_state() is Connected || self.spec_state() is DisconnectLater
    }

    /// Takes one reliable-sequenced data frame: acknowledges it and runs it
    /// through the channel's ordering window; whatever the channel delivers
    /// joins the receive queue in order.
    pub(crate) fn on_reliable_data(&mut self, channel: u8, seq: u16, payload: Vec<u8>)
        requires
            old(self).wf(),
        ensures
            spec_on_reliable_data_post(*old(self), *final(self), channel, seq, payload@),
    {
        if !(matches!(self.state, PeerState::Connected) || matches!(
            self.state,
            PeerState::DisconnectLater,
        )) {
            return ;
        }
        if channel as usize >= self.channels.len() {
            return ;
        }
        self.outgoing.push(Command::Ack { channel, seq });
        assert(self.spec_outgoing() =~= old(self).spec_outgoing().push(
            CommandView::Ack { channel, seq },
        ));
        let mut ch = self.channels.remove(channel as usize);
        let mut delivered = ch.receive_reliable(seq, payload);
        let ghost dpackets = delivered@;
        self.channels.insert(channel as usize, ch);
        assert(self.channels@ =~= old(self).channels@.update(
            channel as int,
            self.channels@[channel as int],
        ));
        proof {
            lemma_wf_channels_updated(*old(self), *self, channel as int);
        }
        self.queue_received(delivered, channel);
        assert(spec_received_delta(*old(self), *self) =~= dpackets);
    }

    /// Takes one unreliable-sequenced data frame: delivered at once when not
    /// older than the channel's last delivery, dropped otherwise, and never
    /// acknowledged.
    pub(crate) fn on_unreliable_data(&mut self, channel: u8, seq: u16, payload: Vec<u8>)
        requires
            old(self).wf(),
        ensures
            spec_on_unreliable_data_post(*old(self), *final(self), channel, seq, payload@),
    {
        if !(matches!(self.state, PeerState::Connected) || matches!(
            self.state,
            PeerState::DisconnectLater,
        )) {
            return ;
        }
        if channel as usize >= self.channels.len() {
            return ;
        }
        let mut ch = self.channels.remove(channel as usize);
        let delivered = ch.receive_unreliable(seq, payload);
        self.channels.insert(channel as usize, ch);
        assert(self.channels@ =~= old(self).channels@.update(
            channel as int,
            self.channels@[channel as int],
        ));
        proof {
            lemma_wf_channels_updated(*old(self), *self, channel as int);
        }
        let ghost mid = *self;
        match delivered {
            Some(p) => {
                let ghost prev = self.received@;
                self.received.push(PeerPacket { packet: p, channel_id: channel });
                assert(self.received@ =~= prev.push(self.received@[prev.len() as int]));
                proof {
                    assert(self.spec_received()[prev.len() as int].channel_id == channel);
                    lemma_channels_wf_carry(mid, *self);
                    lemma_wf_queue_grown(mid, *self);
                }
            },
            None => {},
        }
    }

    /// Takes one unreliable-unsequenced data frame: delivered exactly as it
    /// arrived, in arrival order, bypassing every ordering window — and never
    /// acknowledged or retransmitted.
    pub(crate) fn on_unsequenced_data(&mut self, channel: u8, payload: Vec<u8>)
        requires
            old(self).wf(),
        ensures
            spec_on_unsequenced_data_post(*old(self), *final(self), channel, payload@),
    {
        if !(matches!(self.state, PeerState::Connected) || matches!(
            self.state,
            PeerState::DisconnectLater,
        )) {
            return ;
        }
        if channel as usize >= self.channels.len() {
            return ;
        }
        let ghost prev = self.received@;
        self.received.push(
            PeerPacket {
                packet: Packet::from_bytes(payload, PacketMode::UnreliableUnsequenced),
                channel_id: channel,
            },
        );
        assert(prev.is_prefix_of(self.received@));
        proof {
            assert(self.spec_received()[prev.len() as int].channel_id == channel);
            lemma_channels_wf_carry(*old(self), *self);
            lemma_wf_queue_grown(*old(self), *self);
        }
    }

    /// Takes one fragment of an oversized reliable packet: acknowledges it
    /// and hands it to the channel's reassembly; a completed, in-order group
    /// joins the receive queue as one packet.
    pub(crate) fn on_fragment(
        &mut self,
        channel: u8,
        seq: u16,
        start_seq: u16,
        frag_count: u16,
        frag_index: u16,
        payload: Vec<u8>,
    )
        requires
            old(self).wf(),
        ensures
            spec_on_fragment_post(
                *old(self),
                *final(self),
                channel,
                seq,
                start_seq,
                frag_count,
                frag_index,
                payload@,
            ),
    {
        if !(matches!(self.state, PeerState::Connected) || matches!(
            self.state,
            PeerState::DisconnectLater,
        )) {
            return ;
        }
        if channel as usize >= self.channels.len() {
            return ;
        }
        self.outgoing.push(Command::Ack { channel, seq });
        assert(self.spec_outgoing() =~= old(self).spec_outgoing().push(
            CommandView::Ack { channel, seq },
        ));
        let mut ch = self.channels.remove(channel as usize);
        let mut delivered = ch.receive_fragment(start_seq, frag_count, frag_index, payload);
        let ghost dpackets = delivered@;
        self.channels.insert(channel as usize, ch);
        assert(self.channels@ =~= old(self).channels@.update(
            channel as int,
            self.channels@[channel as int],
        ));
        proof {
            lemma_wf_channels_updated(*old(self), *self, channel as int);
        }
        self.queue_received(delivered, channel);
        assert(spec_received_delta(*old(self), *self) =~= dpackets);
    }

    /// Appends channel deliveries to the receive queue under their channel id.
    fn queue_received(&mut self, delivered: Vec<Packet>, channel: u8)
        requires
            old(self).wf(),
            old(self).accepts_data(),
            (channel as int) < old(self).spec_channels().len(),
        ensures
            final(self).wf(),
            final(self).spec_state() == old(self).spec_state(),
            final(self).spec_outgoing() == old(self).spec_outgoing(),
            final(self).spec_channels() == old(self).spec_channels(),
            old(self).spec_received().is_prefix_of(final(self).spec_received()),
            final(self).spec_received().len() == old(self).spec_received().len()
                + delivered@.len(),
            forall|i: int|
                old(self).spec_received().len() <= i < final(self).spec_received().len() ==> {
                    &&& (#[trigger] final(self).spec_received()[i]).channel_id == channel
                    &&& final(self).spec_received()[i].packet == delivered@[i - old(
                        self,
                    ).spec_received().len()]
                },
            final(self).spec_sent() == old(self).spec_sent(),
            final(self).spec_throttle() == old(self).spec_throttle(),
            final(self).spec_rng() == old(self).spec_rng(),
            final(self).spec_data() == old(self).spec_data(),
            final(self).spec_remote() == old(self).spec_remote(),
            final(self).spec_event_data() == old(self).spec_event_data(),
            final(self).spec_disconnect_data() == old(self).spec_disconnect_data(),
            final(self).spec_timeouts() == old(self).spec_timeouts(),
            final(self).spec_rtt() == old(self).spec_rtt(),
    {
        let mut delivered = delivered;
        let ghost orig = delivered@;
        let mut k: usize = 0;
        while delivered.len() > 0
            invariant
                self.wf(),
                old(self).accepts_data(),
                (channel as int) < old(self).spec_channels().len(),
                orig.skip(orig.len() - delivered@.len()) =~= delivered@,
                delivered@.len() <= orig.len(),
                old(self).spec_received().is_prefix_of(self.spec_received()),
                self.spec_received().len() == old(self).spec_received().len() + orig.len()
                    - delivered@.len(),
                forall|i: int|
                    old(self).spec_received().len() <= i < self.spec_received().len() ==> {
                        &&& (#[trigger] self.spec_received()[i]).channel_id == channel
                        &&& self.spec_received()[i].packet == orig[i - old(
                            self,
                        ).spec_received().len()]
                    },
                self.spec_state() == old(self).spec_state(),
                self.spec_outgoing() == old(self).spec_outgoing(),
                self.spec_channels() == old(self).spec_channels(),
                *self == (Peer { received: self.received, ..*old(self) }),
            decreases delivered@.len(),
        {
            let ghost head = *self;
            let ghost consumed = orig.len() - delivered@.len();
            let p = delivered.remove(0);
            assert(p == orig[consumed as int]);
            let ghost prev = self.received@;
            self.received.push(PeerPacket { packet: p, channel_id: channel });
            assert(prev.is_prefix_of(self.received@));
            assert(orig.skip(orig.len() - delivered@.len()) =~= delivered@);
            proof {
                assert(head.spec_received() == prev);
                assert(self.spec_channels().len() == old(self).spec_channels().len());
                assert(self.spec_received()[prev.len() as int].channel_id == channel);
                assert forall|i2: int|
                    head.spec_received().len() <= i2 < self.spec_received().len() implies ((
                #[trigger] self.spec_received()[i2]).channel_id as int)
                    < self.spec_channels().len() by {
                    assert(i2 == prev.len());
                    assert(self.spec_received()[i2].channel_id == channel);
                    assert((channel as int) < old(self).spec_channels().len());
                    assert(self.spec_channels().len() == old(self).spec_channels().len());
                }
                assert(!(self.spec_state() is Connecting));
                lemma_channels_wf_carry(head, *self);
                lemma_wf_queue_grown(head, *self);
            }
        }
    }

    /// Removes the in-flight entry with the given retransmission key, if any.
    fn remove_sent(&mut self, channel: u8, seq: u16)
        requires
            old(self).wf(),
        ensures
            final(self).wf(),
            *final(self) == (Peer { sent_reliable: final(self).sent_reliable, ..*old(self) }),
            final(self).spec_in_flight() <= old(self).spec_in_flight(),
    {
        let mut i: usize = 0;
        while i < self.sent_reliable.len()
            invariant
                self.wf(),
                i <= self.sent_reliable@.len(),
                *self == (Peer { sent_reliable: self.sent_reliable, ..*old(self) }),
                self.sent_reliable@.len() <= old(self).sent_reliable@.len(),
            decreases self.sent_reliable@.len() - i,
        {
            let ghost head = *self;
            if self.sent_reliable[i].channel == channel && self.sent_reliable[i].seq == seq {
                self.sent_reliable.remove(i);
                proof {
                    lemma_wf_same_shape(head, *self);
                }
                return ;
            }
            i = i + 1;
        }
    }

    /// Takes the acknowledgement of one reliable command: the first
    /// in-flight entry under this key leaves the queue, a fresh (never
    /// retransmitted) entry feeds the round-trip sample into the smoothed
    /// estimate, and the delivery is noted for the throttle. When a deferred
    /// disconnect has just drained, the disconnect notice goes out. An
    /// acknowledgement matching nothing changes nothing.
    pub(crate) fn on_ack(&mut self, channel: u8, seq: u16, now: u32)
        requires
            old(self).wf(),
        ensures
            spec_on_ack_post(*old(self), *final(self), channel, seq, now),
            final(self).spec_in_flight() <= old(self).spec_in_flight(),
    {
        let ghost sent0 = old(self).spec_sent();
        let mut i: usize = 0;
        let mut found = false;
        let mut sample: u32 = 0;
        let mut fresh_entry = false;
        let ghost mut hit: int = 0;
        while i < self.sent_reliable.len()
            invariant_except_break
                found == false,
                sample == 0,
                *self == *old(self),
                i <= self.sent_reliable@.len(),
                forall|k: int|
                    0 <= k < i ==> !((#[trigger] sent0[k]).channel == channel && sent0[k].seq
                        == seq),
            invariant
                self.wf(),
                sent0 == old(self).spec_sent(),
            ensures
                found ==> {
                    &&& spec_ack_match(sent0, channel, seq, hit)
                    &&& self.spec_sent() == sent0.remove(hit)
                    &&& *self == (Peer { sent_reliable: self.sent_reliable, ..*old(self) })
                    &&& fresh_entry == (sent0[hit].retries == 0)
                    &&& sample == if now >= sent0[hit].sent_at {
                        (now - sent0[hit].sent_at) as u32
                    } else {
                        0u32
                    }
                },
                !found ==> (*self == *old(self) && forall|k: int|
                    0 <= k < sent0.len() ==> !((#[trigger] sent0[k]).channel == channel
                        && sent0[k].seq == seq)),
            decreases self.sent_reliable@.len() - i,
        {
            if self.sent_reliable[i].channel == channel && self.sent_reliable[i].seq == seq {
                let ghost prev_vec = self.sent_reliable@;
                let e = self.sent_reliable.remove(i);
                proof {
                    hit = i as int;
                    assert(prev_vec == old(self).sent_reliable@);
                    assert(sent0[i as int] == sent_view(prev_vec[i as int]));
                    assert(self.sent_reliable@ =~= prev_vec.remove(i as int));
                    assert forall|k: int|
                        0 <= k < self.spec_sent().len() implies self.spec_sent()[k] == sent0.remove(
                        i as int,
                    )[k] by {
                        if k < i {
                            assert(self.sent_reliable@[k] == prev_vec[k]);
                            assert(sent0.remove(i as int)[k] == sent0[k]);
                        } else {
                            assert(self.sent_reliable@[k] == prev_vec[k + 1]);
                            assert(sent0.remove(i as int)[k] == sent0[k + 1]);
                        }
                    }
                    assert(self.spec_sent() =~= sent0.remove(i as int));
                }
                assert(e == prev_vec[i as int]);
                assert(sent0[i as int] == sent_view(e));
                proof {
                    assert(spec_ack_match(sent0, channel, seq, i as int));
                    assert(self.spec_sent() == sent0.remove(i as int));
                    assert(*self == (Peer { sent_reliable: self.sent_reliable, ..*old(self) }));
                    assert(hit == i as int);
                }
                proof {
                    lemma_wf_same_shape(*old(self), *self);
                }
                found = true;
                fresh_entry = e.retries == 0;
                if now >= e.sent_at {
                    sample = now - e.sent_at;
                }
                assert(fresh_entry == (sent0[hit].retries == 0));
                assert(sample == if now >= sent0[hit].sent_at {
                    (now - sent0[hit].sent_at) as u32
                } else {
                    0u32
                });
                break ;
            }
            i = i + 1;
        }
        let ghost mid = *self;
        if found {
            if fresh_entry {
                // One smoothing step: move an eighth of the way to the
                // sample, and a quarter of the way to the sample's deviation.
                let deviation: u32 = if sample >= self.rtt {
                    sample - self.rtt
                } else {
                    self.rtt - sample
                };
                self.rtt_variance = self.rtt_variance - self.rtt_variance / 4 + deviation / 4;
                if sample >= self.rtt {
                    self.rtt = self.rtt + (sample - self.rtt) / 8;
                } else {
                    self.rtt = self.rtt - (self.rtt - sample) / 8;
                }
            }
            self.throttle.note_ack();
            if matches!(self.state, PeerState::DisconnectLater) && self.outgoing.len() == 0
                && self.sent_reliable.len() == 0 {
                let user_data = self.disconnect_data;
                self.outgoing.push(Command::Disconnect { user_data });
                self.state = PeerState::Disconnecting;
                assert(self.spec_outgoing() =~= old(self).spec_outgoing().push(
                    CommandView::Disconnect { user_data },
                ));
            }
            proof {
                lemma_wf_same_shape(mid, *self);
            }
        }
    }

    /// Encodes and hands out everything queued, remembering every reliable
    /// command for retransmission until its acknowledgement arrives.
    pub(crate) fn flush(&mut self, now: u32) -> (r: Vec<Vec<u8>>)
        requires
            old(self).wf(),
        ensures
            spec_peer_flushed(*old(self), *final(self), now),
            r@.len() == old(self).spec_outgoing().len(),
            forall|i: int|
                0 <= i < r@.len() ==> (#[trigger] r@[i])@ == spec_encode(
                    old(self).spec_outgoing()[i],
                ),
    {
        let mut r: Vec<Vec<u8>> = Vec::new();
        let rto = self.initial_rto();
        proof {
            assert(old(self).spec_outgoing().subrange(0, 0) =~= Seq::<CommandView>::empty());
        }
        while self.outgoing.len() > 0
            invariant
                self.wf(),
                r@.len() + self.spec_outgoing().len() == old(self).spec_outgoing().len(),
                self.spec_outgoing() =~= old(self).spec_outgoing().skip(r@.len() as int),
                forall|i: int|
                    0 <= i < r@.len() ==> (#[trigger] r@[i])@ == spec_encode(
                        old(self).spec_outgoing()[i],
                    ),
                rto == spec_initial_rto(
                    old(self).spec_rtt(),
                    old(self).spec_rtt_variance(),
                    old(self).spec_timeouts().1,
                    old(self).spec_timeouts().2,
                ),
                self.spec_sent() =~= old(self).spec_sent() + spec_keyed_sent(
                    old(self).spec_outgoing().subrange(0, r@.len() as int),
                    now,
                    rto,
                ),
                self.spec_state() == old(self).spec_state(),
                self.spec_received() == old(self).spec_received(),
                self.spec_channels() == old(self).spec_channels(),
                self.spec_remote() == old(self).spec_remote(),
                self.spec_rng() == old(self).spec_rng(),
                self.spec_throttle() == old(self).spec_throttle(),
                self.spec_data() == old(self).spec_data(),
                self.spec_event_data() == old(self).spec_event_data(),
                self.spec_disconnect_data() == old(self).spec_disconnect_data(),
                self.spec_timeouts() == old(self).spec_timeouts(),
                self.spec_rtt() == old(self).spec_rtt(),
                self.spec_rtt_variance() == old(self).spec_rtt_variance(),
            decreases self.outgoing@.len(),
        {
            let ghost pending = self.spec_outgoing();
            let cmd = self.outgoing.remove(0);
            assert(cmd@ == pending[0]);
            assert(self.spec_outgoing() =~= pending.drop_first());
            let bytes = encode(&cmd);
            r.push(bytes);
            assert(self.spec_outgoing() =~= old(self).spec_outgoing().skip(r@.len() as int));
            proof {
                lemma_keyed_sent_step(
                    old(self).spec_outgoing(),
                    r@.len() - 1,
                    now,
                    rto,
                );
            }
            match retransmit_key(&cmd) {
                Some((channel, seq)) => {
                    let ghost prev_sent = self.spec_sent();
                    self.sent_reliable.push(
                        SentReliable { channel, seq, command: cmd, sent_at: now, rto, retries: 0 },
                    );
                    assert(self.spec_sent() =~= prev_sent.push(
                        SentView {
                            channel,
                            seq,
                            command: cmd@,
                            sent_at: now,
                            rto,
                            retries: 0,
                        },
                    ));
                },
                None => {},
            }
            assert(self.spec_sent() =~= old(self).spec_sent() + spec_keyed_sent(
                old(self).spec_outgoing().subrange(0, r@.len() as int),
                now,
                rto,
            ));
        }
        proof {
            assert(old(self).spec_outgoing().subrange(0, old(self).spec_outgoing().len() as int)
                =~= old(self).spec_outgoing());
        }
        r
    }

    /// The first retransmission timeout for a freshly sent command: twice the
    /// smoothed round-trip estimate plus four times its variance, held inside
    /// the configured bounds.
    fn initial_rto(&self) -> (r: u32)
        ensures
            r == spec_initial_rto(
                self.spec_rtt(),
                self.spec_rtt_variance(),
                self.spec_timeouts().1,
                self.spec_timeouts().2,
            ),
    {
        let doubled: u64 = (self.rtt as u64) * 2 + (self.rtt_variance as u64) * 4;
        let capped: u32 = if doubled > (self.timeout_max as u64) {
            self.timeout_max
        } else {
            doubled as u32
        };
        if capped < self.timeout_min {
            self.timeout_min
        } else {
            capped
        }
    }

    /// One housekeeping pass: closes a throttle interval if one elapsed
    /// (noting loss if anything gets retransmitted below), retransmits every
    /// overdue reliable command with its backoff doubled and capped, and
    /// declares the peer unreachable once an entry exhausts the retry limit.
    /// Returns the retransmitted datagrams — the encodings of the overdue
    /// in-flight commands, in order — and whether the peer timed out (its
    /// state is then `Disconnected` and its queues are gone).
    pub(crate) fn tick(&mut self, now: u32) -> (r: (Vec<Vec<u8>>, bool))
        requires
            old(self).wf(),
        ensures
            spec_tick_post(
                *old(self),
                *final(self),
                now,
                r.0@.map_values(|v: Vec<u8>| v@),
                r.1,
            ),
    {
        let ghost t1 = spec_throttle_ticked(old(self).spec_throttle(), now);
        if now >= self.throttle.epoch {
            self.throttle.tick(now);
        }
        assert(self.throttle =~= t1);
        proof {
            lemma_wf_same_shape(*old(self), *self);
        }
        let ghost sent0 = old(self).spec_sent();
        let ghost limit = old(self).spec_timeouts().0;
        let ghost cap = old(self).spec_timeouts().2;
        let mut out: Vec<Vec<u8>> = Vec::new();
        let mut remaining: Vec<SentReliable> = Vec::new();
        let mut timed_out = false;
        proof {
            assert(sent0.subrange(0, 0) =~= Seq::<SentView>::empty());
        }
        while self.sent_reliable.len() > 0
            invariant
                self.wf(),
                sent0 == old(self).spec_sent(),
                limit == old(self).spec_timeouts().0,
                cap == old(self).spec_timeouts().2,
                t1 == spec_throttle_ticked(old(self).spec_throttle(), now),
                *self == (Peer {
                    sent_reliable: self.sent_reliable,
                    throttle: self.throttle,
                    ..*old(self)
                }),
                self.spec_throttle().wf(),
                self.spec_sent() =~= sent0.skip(sent0.len() - self.spec_sent().len()),
                self.spec_sent().len() <= sent0.len(),
                remaining@.map_values(|e: SentReliable| sent_view(e)) =~= spec_sent_ticked(
                    sent0.subrange(0, sent0.len() - self.spec_sent().len()),
                    now,
                    limit,
                    cap,
                ),
                out@.map_values(|v: Vec<u8>| v@) =~= spec_retransmits(
                    sent0.subrange(0, sent0.len() - self.spec_sent().len()),
                    now,
                    limit,
                ),
                timed_out == spec_any_timed_out(
                    sent0.subrange(0, sent0.len() - self.spec_sent().len()),
                    now,
                    limit,
                ),
                self.spec_throttle() == (Throttle {
                    loss_in_interval: t1.loss_in_interval || out@.len() > 0,
                    ..t1
                }),
            decreases self.sent_reliable@.len(),
        {
            let ghost head = *self;
            let ghost done = sent0.len() - self.spec_sent().len();
            let ghost pre_sent = self.spec_sent();
            let mut e = self.sent_reliable.remove(0);
            let ghost ev = SentView {
                channel: e.channel,
                seq: e.seq,
                command: e.command@,
                sent_at: e.sent_at,
                rto: e.rto,
                retries: e.retries,
            };
            proof {
                assert(pre_sent =~= sent0.skip(done as int));
                assert(ev == pre_sent[0]);
                assert(ev == sent0[done as int]);
                assert(self.spec_sent() =~= pre_sent.drop_first());
                assert(self.spec_sent() =~= sent0.skip(done as int + 1));
                lemma_tick_step(sent0, done as int, now, limit, cap);
            }
            let due = now >= e.sent_at && now - e.sent_at >= e.rto;
            if due {
                if e.retries >= self.timeout_limit {
                    timed_out = true;
                } else {
                    let ghost prev_out = out@.map_values(|v: Vec<u8>| v@);
                    out.push(encode(&e.command));
                    assert(out@.map_values(|v: Vec<u8>| v@) =~= prev_out.push(
                        spec_encode(ev.command),
                    ));
                    e.retries = e.retries + 1;
                    e.sent_at = now;
                    let widened: u64 = (e.rto as u64) * 2;
                    e.rto = if widened > (self.timeout_max as u64) {
                        self.timeout_max
                    } else {
                        widened as u32
                    };
                    self.throttle.note_loss();
                    let ghost prev_rem = remaining@.map_values(|e2: SentReliable| sent_view(e2));
                    remaining.push(e);
                    assert(remaining@.map_values(|e2: SentReliable| sent_view(e2)) =~= prev_rem.push(
                        SentView {
                            sent_at: now,
                            retries: (ev.retries + 1) as u32,
                            rto: spec_backoff(ev.rto, cap),
                            ..ev
                        },
                    ));
                }
            } else {
                let ghost prev_rem = remaining@.map_values(|e2: SentReliable| sent_view(e2));
                remaining.push(e);
                assert(remaining@.map_values(|e2: SentReliable| sent_view(e2)) =~= prev_rem.push(
                    ev,
                ));
            }
            proof {
                lemma_wf_same_shape(head, *self);
            }
        }
        proof {
            assert(sent0.subrange(0, sent0.len() as int) =~= sent0);
        }
        self.sent_reliable = remaining;
        proof {
            lemma_wf_same_shape(*old(self), *self);
        }
        let ghost after_sent = *self;
        if timed_out {
            self.state = PeerState::Disconnected;
            self.outgoing = Vec::new();
            self.sent_reliable = Vec::new();
            proof {
                lemma_wf_same_shape(after_sent, *self);
            }
            (out, true)
        } else {
            // A deferred disconnect goes out once everything has drained.
            if matches!(self.state, PeerState::DisconnectLater) && self.outgoing.len() == 0
                && self.sent_reliable.len() == 0 {
                let user_data = self.disconnect_data;
                self.outgoing.push(Command::Disconnect { user_data });
                self.state = PeerState::Disconnecting;
            }
            proof {
                lemma_wf_same_shape(after_sent, *self);
            }
            (out, false)
        }
    }

    /// Whether at least one delivered packet waits to be taken.
    pub fn has_received(&self) -> (r: bool)
        ensures
            r == (self.spec_received().len() > 0),
    {
        self.received.len() > 0
    }

    /// Frees a zombie peer: hands back the user data its disconnect carried
    /// and returns the slot to `Disconnected`.
    pub(crate) fn take_zombie(&mut self) -> (r: u32)
        requires
            old(self).wf(),
        ensures
            r == old(self).spec_disconnect_data(),
            spec_zombie_freed(*old(self), *final(self)),
    {
        let d = self.disconnect_data;
        self.state = PeerState::Disconnected;
        // Whatever is still queued (the notice's acknowledgement, say) is
        // kept for the flush that follows housekeeping.
        self.sent_reliable = Vec::new();
        self.received = Vec::new();
        d
    }

    /// Marks the peer as under a fresh outbound handshake and queues the
    /// connection request.
    pub(crate) fn start_connect(&mut self, channel_count: u8, user_data: u32)
        requires
            old(self).wf(),
        ensures
            final(self).wf(),
            final(self).spec_state() == old(self).spec_state(),
            final(self).spec_outgoing() =~= old(self).spec_outgoing().push(
                CommandView::Connect { channel_count, user_data },
            ),
            final(self).spec_remote() == old(self).spec_remote(),
            final(self).spec_channels() == old(self).spec_channels(),
            final(self).spec_received() == old(self).spec_received(),
            final(self).spec_in_flight() == old(self).spec_in_flight(),
            final(self).spec_event_data() == old(self).spec_event_data(),
    {
        self.outgoing.push(Command::Connect { channel_count, user_data });
        assert(self.spec_outgoing() =~= old(self).spec_outgoing().push(
            CommandView::Connect { channel_count, user_data },
        ));
        proof {
            lemma_wf_same_shape(*old(self), *self);
        }
    }

    /// Queues the accepting reply to an inbound connection request.
    pub(crate) fn start_accept(&mut self, channel_count: u8)
        requires
            old(self).wf(),
        ensures
            final(self).wf(),
            final(self).spec_state() == old(self).spec_state(),
            final(self).spec_outgoing() =~= old(self).spec_outgoing().push(
                CommandView::ConnectAccept { channel_count },
            ),
            final(self).spec_remote() == old(self).spec_remote(),
            final(self).spec_channels() == old(self).spec_channels(),
            final(self).spec_received() == old(self).spec_received(),
            final(self).spec_in_flight() == old(self).spec_in_flight(),
            final(self).spec_event_data() == old(self).spec_event_data(),
    {
        self.outgoing.push(Command::ConnectAccept { channel_count });
        assert(self.spec_outgoing() =~= old(self).spec_outgoing().push(
            CommandView::ConnectAccept { channel_count },
        ));
        proof {
            lemma_wf_same_shape(*old(self), *self);
        }
    }
}

/// Law: unreliable traffic is never retransmitted — neither an unsequenced
/// nor an unreliable-sequenced frame carries a retransmission identity, so
/// neither ever enters the in-flight queue that the backoff timer drives.
pub proof fn lemma_unreliable_never_retransmitted(channel: u8, seq: u16, payload: Seq<u8>)
    ensures
        spec_retransmit_key(CommandView::UnsequencedData { channel, payload }) is None,
        spec_retransmit_key(CommandView::UnreliableData { channel, seq, payload }) is None,
{
}

/// Adding one to `s + i` lands on `s + (i + 1)` in the wrapping space.
proof fn lemma_seq_add_chain(s: u16, i: u16)
    requires
        i < 0xFFFF,
    ensures
        spec_seq_add(spec_seq_add(s, i), 1) == spec_seq_add(s, (i + 1) as u16),
{
    let a = (s + i) % 0x1_0000;
    assert(spec_seq_add(s, i) == a as u16);
    assert((a + 1) % 0x1_0000 == (s + i + 1) % 0x1_0000) by (nonlinear_arith)
        requires a == (s + i) % 0x1_0000 && 0 <= s + i < 0x2_0000;
}

} // verus!
