//! Packets: an immutable payload plus a delivery-mode tag.

use vstd::prelude::*;

use crate::Error;
use crate::address::clone_bytes;

verus! {

/// Flag bit marking a packet as reliable on the wire.
pub const FLAG_RELIABLE: u32 = 1;

/// Flag bit marking a packet as unsequenced on the wire.
pub const FLAG_UNSEQUENCED: u32 = 2;

/// Mode that can be set when transmitting a packet: reliability crossed with
/// sequencing. Reliable but unsequenced is not a valid combination —
/// reliability implies sequencing.
#[derive(Copy, Clone, Debug, Hash, Eq, PartialEq, Structural)]
pub enum PacketMode {
    /// The packet will be sent unreliably but sequenced.
    UnreliableSequenced,
    /// The packet will be sent unreliably and unsequenced.
    UnreliableUnsequenced,
    /// The packet will be sent reliably and sequenced with other reliable packets.
    ReliableSequenced,
}

/// Mathematical model of a [`Packet`]: its bytes and its mode.
#[verifier::ext_equal]
pub ghost struct PacketView {
    pub data: Seq<u8>,
    pub mode: PacketMode,
}

/// A packet that can be sent to or received from a peer: an immutable byte
/// payload and a delivery mode.
#[derive(Debug)]
pub struct Packet {
    data: Vec<u8>,
    mode: PacketMode,
}

impl View for Packet {
    type V = PacketView;

    closed spec fn view(&self) -> PacketView {
        PacketView { data: self.data@, mode: self.mode }
    }
}

impl PacketMode {
    /// Whether this mode is reliable in the model.
    pub open spec fn spec_is_reliable(self) -> bool {
        self is ReliableSequenced
    }

    /// Whether this mode is sequenced in the model.
    pub open spec fn spec_is_sequenced(self) -> bool {
        !(self is UnreliableUnsequenced)
    }

    /// Returns whether this represents a reliable mode.
    pub fn is_reliable(&self) -> (r: bool)
        ensures
            r == self.spec_is_reliable(),
    {
        match self {
            PacketMode::UnreliableSequenced => false,
            PacketMode::UnreliableUnsequenced => false,
            PacketMode::ReliableSequenced => true,
        }
    }

    /// Returns whether this represents a sequenced mode.
    pub fn is_sequenced(&self) -> (r: bool)
        ensures
            r == self.spec_is_sequenced(),
    {
        match self {
            PacketMode::UnreliableSequenced => true,
            PacketMode::UnreliableUnsequenced => false,
            PacketMode::ReliableSequenced => true,
        }
    }

    /// The wire flag bits of a mode.
    pub open spec fn spec_to_flags(self) -> u32 {
        match self {
            PacketMode::UnreliableSequenced => 0,
            PacketMode::UnreliableUnsequenced => FLAG_UNSEQUENCED,
            PacketMode::ReliableSequenced => FLAG_RELIABLE,
        }
    }

    /// The mode a set of wire flag bits stands for: the unsequenced bit wins,
    /// then the reliable bit, and no bit means unreliable-sequenced.
    pub open spec fn spec_from_flags(flags: u32) -> PacketMode {
        if flags & FLAG_UNSEQUENCED != 0 {
            PacketMode::UnreliableUnsequenced
        } else if flags & FLAG_RELIABLE != 0 {
            PacketMode::ReliableSequenced
        } else {
            PacketMode::UnreliableSequenced
        }
    }

    /// Encodes this mode as its wire flag bits.
    pub fn to_flags(&self) -> (r: u32)
        ensures
            r == self.spec_to_flags(),
    {
        match self {
            PacketMode::UnreliableSequenced => 0,
            PacketMode::UnreliableUnsequenced => FLAG_UNSEQUENCED,
            PacketMode::ReliableSequenced => FLAG_RELIABLE,
        }
    }

    /// Decodes wire flag bits back to a mode.
    pub fn from_flags(flags: u32) -> (r: PacketMode)
        ensures
            r == PacketMode::spec_from_flags(flags),
    {
        if flags & FLAG_UNSEQUENCED != 0 {
            PacketMode::UnreliableUnsequenced
        } else if flags & FLAG_RELIABLE != 0 {
            PacketMode::ReliableSequenced
        } else {
            PacketMode::UnreliableSequenced
        }
    }
}

/// Law: a mode's wire flag bits decode back to the same mode.
pub proof fn lemma_mode_flags_round_trip(m: PacketMode)
    ensures
        PacketMode::spec_from_flags(m.spec_to_flags()) == m,
{
    assert(FLAG_RELIABLE & FLAG_UNSEQUENCED == 0) by (bit_vector);
    assert(FLAG_RELIABLE & FLAG_RELIABLE != 0) by (bit_vector);
    assert(0u32 & FLAG_UNSEQUENCED == 0 && 0u32 & FLAG_RELIABLE == 0) by (bit_vector);
    assert(FLAG_UNSEQUENCED & FLAG_UNSEQUENCED != 0) by (bit_vector);
}

impl Packet {
    /// Creates a new packet holding the given bytes with the given mode.
    pub fn new(data: &Vec<u8>, mode: PacketMode) -> (r: Result<Packet, Error>)
        ensures
            r is Ok,
            r->Ok_0@ == (PacketView { data: data@, mode }),
    {
        Ok(Packet { data: clone_bytes(data), mode })
    }

    /// Builds a packet owning the given bytes.
    pub fn from_bytes(data: Vec<u8>, mode: PacketMode) -> (r: Packet)
        ensures
            r@ == (PacketView { data: data@, mode }),
    {
        Packet { data, mode }
    }

    /// Returns a reference to the bytes inside this packet.
    pub fn data(&self) -> (r: &Vec<u8>)
        ensures
            r@ == self@.data,
    {
        &self.data
    }

    /// The delivery mode of this packet.
    pub fn mode(&self) -> (r: PacketMode)
        ensures
            r == self@.mode,
    {
        self.mode
    }
}

} // verus!
