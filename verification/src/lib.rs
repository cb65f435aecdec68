//! A connection-oriented, message-based transport protocol layered over
//! unreliable datagram delivery.
//!
//! The crate holds the protocol engine: addresses and their wire encoding,
//! packets with their delivery modes, per-channel sequencing and
//! fragmentation, the peer connection state machine with retransmission and
//! throttling, and the host that multiplexes many peers over one datagram
//! endpoint. The raw datagram socket is a lower layer that the caller owns:
//! it feeds inbound datagrams to [`Host::process`] and sends what
//! [`Host::take_outgoing`] hands back.

pub mod address;
pub mod packet;
pub mod wire;
pub mod throttle;
pub mod fragment;
pub mod channel;
pub mod peer;
pub mod host;

pub use address::{Address, WireAddress};
pub use packet::{Packet, PacketMode};
pub use peer::{Peer, PeerPacket, PeerState};
pub use host::{BandwidthLimit, ChannelLimit, Datagram, Event, Host};

use vstd::prelude::*;

verus! {

/// The failures the protocol engine can surface.
#[derive(Copy, Clone, Debug, PartialEq, Eq, Structural)]
pub enum Error {
    /// The underlying datagram transport failed; surfaced, never retried here.
    Transport,
    /// A hostname could not be resolved.
    Resolution,
    /// The peer table is full, or a channel or bandwidth configuration is invalid.
    Capacity,
    /// A malformed or unexpected control frame.
    Protocol,
}

} // verus!
