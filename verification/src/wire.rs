//! The wire format of protocol control frames.
//!
//! Every datagram the engine sends or consumes carries exactly one command:
//! a tag byte followed by the command's fields, multi-byte integers in
//! little-endian order, and any payload running to the end of the datagram.

use vstd::prelude::*;
use vstd::bytes::{
    spec_u16_to_le_bytes, spec_u16_from_le_bytes, u16_to_le_bytes, u16_from_le_bytes,
    spec_u32_to_le_bytes, spec_u32_from_le_bytes, u32_to_le_bytes, u32_from_le_bytes,
    lemma_auto_spec_u16_to_from_le_bytes, lemma_auto_spec_u32_to_from_le_bytes,
};
use vstd::slice::{slice_subrange, slice_to_vec};

use crate::address::clone_bytes;

verus! {

/// Tag byte of a connection request.
pub const TAG_CONNECT: u8 = 1;

/// Tag byte of the accepting reply to a connection request.
pub const TAG_CONNECT_ACCEPT: u8 = 2;

/// Tag byte of the final acknowledgement of the connection handshake.
pub const TAG_CONNECT_DONE: u8 = 3;

/// Tag byte of a disconnect notice.
pub const TAG_DISCONNECT: u8 = 4;

/// Tag byte of the acknowledgement of a disconnect notice.
pub const TAG_DISCONNECT_ACK: u8 = 5;

/// Tag byte of a reliable-sequenced data frame.
pub const TAG_RELIABLE: u8 = 6;

/// Tag byte of an unreliable-sequenced data frame.
pub const TAG_UNRELIABLE: u8 = 7;

/// Tag byte of an unreliable-unsequenced data frame.
pub const TAG_UNSEQUENCED: u8 = 8;

/// Tag byte of one fragment of an oversized reliable packet.
pub const TAG_FRAGMENT: u8 = 9;

/// Tag byte of an acknowledgement of a reliable frame.
pub const TAG_ACK: u8 = 10;

/// Mathematical model of a [`Command`].
#[verifier::ext_equal]
pub ghost enum CommandView {
    /// A connection request: how many channels the caller asked for and its
    /// opaque user data.
    Connect { channel_count: u8, user_data: u32 },
    /// The accepting reply: the channel count the receiver settled on.
    ConnectAccept { channel_count: u8 },
    /// The final acknowledgement of the handshake.
    ConnectDone,
    /// A disconnect notice carrying the disconnecting side's user data.
    Disconnect { user_data: u32 },
    /// The acknowledgement of a disconnect notice.
    DisconnectAck,
    /// A reliable-sequenced data frame.
    ReliableData { channel: u8, seq: u16, payload: Seq<u8> },
    /// An unreliable-sequenced data frame.
    UnreliableData { channel: u8, seq: u16, payload: Seq<u8> },
    /// An unreliable-unsequenced data frame.
    UnsequencedData { channel: u8, payload: Seq<u8> },
    /// One fragment of an oversized reliable packet: its own reliable
    /// sequence number, the group's start sequence number, the group size,
    /// and this fragment's index within the group.
    Fragment { channel: u8, seq: u16, start_seq: u16, frag_count: u16, frag_index: u16, payload: Seq<u8> },
    /// An acknowledgement of the reliable frame with the given sequence number.
    Ack { channel: u8, seq: u16 },
}

/// A protocol control frame, one per datagram.
#[derive(Debug)]
pub enum Command {
    /// A connection request.
    Connect { channel_count: u8, user_data: u32 },
    /// The accepting reply to a connection request.
    ConnectAccept { channel_count: u8 },
    /// The final acknowledgement of the connection handshake.
    ConnectDone,
    /// A disconnect notice.
    Disconnect { user_data: u32 },
    /// The acknowledgement of a disconnect notice.
    DisconnectAck,
    /// A reliable-sequenced data frame.
    ReliableData { channel: u8, seq: u16, payload: Vec<u8> },
    /// An unreliable-sequenced data frame.
    UnreliableData { channel: u8, seq: u16, payload: Vec<u8> },
    /// An unreliable-unsequenced data frame.
    UnsequencedData { channel: u8, payload: Vec<u8> },
    /// One fragment of an oversized reliable packet.
    Fragment { channel: u8, seq: u16, start_seq: u16, frag_count: u16, frag_index: u16, payload: Vec<u8> },
    /// An acknowledgement of a reliable frame.
    Ack { channel: u8, seq: u16 },
}

impl View for Command {
    type V = CommandView;

    open spec fn view(&self) -> CommandView {
        match self {
            Command::Connect { channel_count, user_data } => CommandView::Connect {
                channel_count: *channel_count,
                user_data: *user_data,
            },
            Command::ConnectAccept { channel_count } => CommandView::ConnectAccept {
                channel_count: *channel_count,
            },
            Command::ConnectDone => CommandView::ConnectDone,
            Command::Disconnect { user_data } => CommandView::Disconnect { user_data: *user_data },
            Command::DisconnectAck => CommandView::DisconnectAck,
            Command::ReliableData { channel, seq, payload } => CommandView::ReliableData {
                channel: *channel,
                seq: *seq,
                payload: payload@,
            },
            Command::UnreliableData { channel, seq, payload } => CommandView::UnreliableData {
                channel: *channel,
                seq: *seq,
                payload: payload@,
            },
            Command::UnsequencedData { channel, payload } => CommandView::UnsequencedData {
                channel: *channel,
                payload: payload@,
            },
            Command::Fragment { channel, seq, start_seq, frag_count, frag_index, payload } => CommandView::Fragment {
                channel: *channel,
                seq: *seq,
                start_seq: *start_seq,
                frag_count: *frag_count,
                frag_index: *frag_index,
                payload: payload@,
            },
            Command::Ack { channel, seq } => CommandView::Ack { channel: *channel, seq: *seq },
        }
    }
}

/// The bytes a command occupies on the wire.
pub open spec fn spec_encode(c: CommandView) -> Seq<u8> {
    match c {
        CommandView::Connect { channel_count, user_data } => seq![
            TAG_CONNECT,
            channel_count,
        ] + spec_u32_to_le_bytes(user_data),
        CommandView::ConnectAccept { channel_count } => seq![TAG_CONNECT_ACCEPT, channel_count],
        CommandView::ConnectDone => seq![TAG_CONNECT_DONE],
        CommandView::Disconnect { user_data } => seq![TAG_DISCONNECT] + spec_u32_to_le_bytes(
            user_data,
        ),
        CommandView::DisconnectAck => seq![TAG_DISCONNECT_ACK],
        CommandView::ReliableData { channel, seq, payload } => seq![TAG_RELIABLE, channel]
            + spec_u16_to_le_bytes(seq) + payload,
        CommandView::UnreliableData { channel, seq, payload } => seq![TAG_UNRELIABLE, channel]
            + spec_u16_to_le_bytes(seq) + payload,
        CommandView::UnsequencedData { channel, payload } => seq![TAG_UNSEQUENCED, channel]
            + payload,
        CommandView::Fragment { channel, seq, start_seq, frag_count, frag_index, payload } => seq![
            TAG_FRAGMENT,
            channel,
        ] + spec_u16_to_le_bytes(seq) + spec_u16_to_le_bytes(start_seq) + spec_u16_to_le_bytes(
            frag_count,
        ) + spec_u16_to_le_bytes(frag_index) + payload,
        CommandView::Ack { channel, seq } => seq![TAG_ACK, channel] + spec_u16_to_le_bytes(seq),
    }
}

/// The command a datagram's bytes stand for, or nothing when the datagram is
/// malformed: an unknown tag, or a length that does not fit its tag.
pub open spec fn spec_decode(b: Seq<u8>) -> Option<CommandView> {
    if b.len() < 1 {
        None
    } else if b[0] == TAG_CONNECT {
        if b.len() == 6 {
            Some(CommandView::Connect {
                channel_count: b[1],
                user_data: spec_u32_from_le_bytes(b.subrange(2, 6)),
            })
        } else {
            None
        }
    } else if b[0] == TAG_CONNECT_ACCEPT {
        if b.len() == 2 {
            Some(CommandView::ConnectAccept { channel_count: b[1] })
        } else {
            None
        }
    } else if b[0] == TAG_CONNECT_DONE {
        if b.len() == 1 {
            Some(CommandView::ConnectDone)
        } else {
            None
        }
    } else if b[0] == TAG_DISCONNECT {
        if b.len() == 5 {
            Some(CommandView::Disconnect { user_data: spec_u32_from_le_bytes(b.subrange(1, 5)) })
        } else {
            None
        }
    } else if b[0] == TAG_DISCONNECT_ACK {
        if b.len() == 1 {
            Some(CommandView::DisconnectAck)
        } else {
            None
        }
    } else if b[0] == TAG_RELIABLE {
        if b.len() >= 4 {
            Some(CommandView::ReliableData {
                channel: b[1],
                seq: spec_u16_from_le_bytes(b.subrange(2, 4)),
                payload: b.subrange(4, b.len() as int),
            })
        } else {
            None
        }
    } else if b[0] == TAG_UNRELIABLE {
        if b.len() >= 4 {
            Some(CommandView::UnreliableData {
                channel: b[1],
                seq: spec_u16_from_le_bytes(b.subrange(2, 4)),
                payload: b.subrange(4, b.len() as int),
            })
        } else {
            None
        }
    } else if b[0] == TAG_UNSEQUENCED {
        if b.len() >= 2 {
            Some(CommandView::UnsequencedData {
                channel: b[1],
                payload: b.subrange(2, b.len() as int),
            })
        } else {
            None
        }
    } else if b[0] == TAG_FRAGMENT {
        if b.len() >= 10 {
            Some(CommandView::Fragment {
                channel: b[1],
                seq: spec_u16_from_le_bytes(b.subrange(2, 4)),
                start_seq: spec_u16_from_le_bytes(b.subrange(4, 6)),
                frag_count: spec_u16_from_le_bytes(b.subrange(6, 8)),
                frag_index: spec_u16_from_le_bytes(b.subrange(8, 10)),
                payload: b.subrange(10, b.len() as int),
            })
        } else {
            None
        }
    } else if b[0] == TAG_ACK {
        if b.len() == 4 {
            Some(CommandView::Ack { channel: b[1], seq: spec_u16_from_le_bytes(b.subrange(2, 4)) })
        } else {
            None
        }
    } else {
        None
    }
}

/// Law: every command decodes from its own wire bytes back to itself.
pub proof fn lemma_command_round_trip(c: CommandView)
    ensures
        spec_decode(spec_encode(c)) == Some(c),
{
    lemma_auto_spec_u16_to_from_le_bytes();
    lemma_auto_spec_u32_to_from_le_bytes();
    let b = spec_encode(c);
    match c {
        CommandView::Connect { channel_count, user_data } => {
            assert(b.subrange(2, 6) =~= spec_u32_to_le_bytes(user_data));
            assert(spec_decode(b) == Some(c));
        },
        CommandView::ConnectAccept { channel_count } => {
            assert(spec_decode(b) == Some(c));
        },
        CommandView::ConnectDone => {
            assert(spec_decode(b) == Some(c));
        },
        CommandView::Disconnect { user_data } => {
            assert(b.subrange(1, 5) =~= spec_u32_to_le_bytes(user_data));
            assert(spec_decode(b) == Some(c));
        },
        CommandView::DisconnectAck => {
            assert(spec_decode(b) == Some(c));
        },
        CommandView::ReliableData { channel, seq, payload } => {
            assert(b.subrange(2, 4) =~= spec_u16_to_le_bytes(seq));
            assert(b.subrange(4, b.len() as int) =~= payload);
            assert(spec_decode(b) == Some(c));
        },
        CommandView::UnreliableData { channel, seq, payload } => {
            assert(b.subrange(2, 4) =~= spec_u16_to_le_bytes(seq));
            assert(b.subrange(4, b.len() as int) =~= payload);
            assert(spec_decode(b) == Some(c));
        },
        CommandView::UnsequencedData { channel, payload } => {
            assert(b.subrange(2, b.len() as int) =~= payload);
            assert(spec_decode(b) == Some(c));
        },
        CommandView::Fragment { channel, seq, start_seq, frag_count, frag_index, payload } => {
            assert(b.subrange(2, 4) =~= spec_u16_to_le_bytes(seq));
            assert(b.subrange(4, 6) =~= spec_u16_to_le_bytes(start_seq));
            assert(b.subrange(6, 8) =~= spec_u16_to_le_bytes(frag_count));
            assert(b.subrange(8, 10) =~= spec_u16_to_le_bytes(frag_index));
            assert(b.subrange(10, b.len() as int) =~= payload);
            assert(spec_decode(b) == Some(c));
        },
        CommandView::Ack { channel, seq } => {
            assert(b.subrange(2, 4) =~= spec_u16_to_le_bytes(seq));
            assert(spec_decode(b) == Some(c));
        },
    }
}

/// Encodes a command into the bytes of one datagram.
pub fn encode(c: &Command) -> (r: Vec<u8>)
    ensures
        r@ == spec_encode(c@),
{
    let mut out: Vec<u8> = Vec::new();
    match c {
        Command::Connect { channel_count, user_data } => {
            out.push(TAG_CONNECT);
            out.push(*channel_count);
            let mut ud = u32_to_le_bytes(*user_data);
            out.append(&mut ud);
        },
        Command::ConnectAccept { channel_count } => {
            out.push(TAG_CONNECT_ACCEPT);
            out.push(*channel_count);
        },
        Command::ConnectDone => {
            out.push(TAG_CONNECT_DONE);
        },
        Command::Disconnect { user_data } => {
            out.push(TAG_DISCONNECT);
            let mut ud = u32_to_le_bytes(*user_data);
            out.append(&mut ud);
        },
        Command::DisconnectAck => {
            out.push(TAG_DISCONNECT_ACK);
        },
        Command::ReliableData { channel, seq, payload } => {
            out.push(TAG_RELIABLE);
            out.push(*channel);
            let mut sq = u16_to_le_bytes(*seq);
            out.append(&mut sq);
            let mut p = clone_bytes(payload);
            out.append(&mut p);
        },
        Command::UnreliableData { channel, seq, payload } => {
            out.push(TAG_UNRELIABLE);
            out.push(*channel);
            let mut sq = u16_to_le_bytes(*seq);
            out.append(&mut sq);
            let mut p = clone_bytes(payload);
            out.append(&mut p);
        },
        Command::UnsequencedData { channel, payload } => {
            out.push(TAG_UNSEQUENCED);
            out.push(*channel);
            let mut p = clone_bytes(payload);
            out.append(&mut p);
        },
        Command::Fragment { channel, seq, start_seq, frag_count, frag_index, payload } => {
            out.push(TAG_FRAGMENT);
            out.push(*channel);
            let mut sq = u16_to_le_bytes(*seq);
            out.append(&mut sq);
            let mut ss = u16_to_le_bytes(*start_seq);
            out.append(&mut ss);
            let mut fc = u16_to_le_bytes(*frag_count);
            out.append(&mut fc);
            let mut fi = u16_to_le_bytes(*frag_index);
            out.append(&mut fi);
            let mut p = clone_bytes(payload);
            out.append(&mut p);
        },
        Command::Ack { channel, seq } => {
            out.push(TAG_ACK);
            out.push(*channel);
            let mut sq = u16_to_le_bytes(*seq);
            out.append(&mut sq);
        },
    }
    assert(out@ =~= spec_encode(c@));
    out
}

/// Decodes one datagram's bytes; a malformed datagram decodes to nothing.
pub fn decode(b: &Vec<u8>) -> (r: Option<Command>)
    ensures
        r is Some <==> spec_decode(b@) is Some,
        r is Some ==> r->0@ == spec_decode(b@)->0,
{
    if b.len() < 1 {
        return None;
    }
    let tag = b[0];
    if tag == TAG_CONNECT {
        if b.len() == 6 {
            let ud = u32_from_le_bytes(slice_subrange(b.as_slice(), 2, 6));
            Some(Command::Connect { channel_count: b[1], user_data: ud })
        } else {
            None
        }
    } else if tag == TAG_CONNECT_ACCEPT {
        if b.len() == 2 {
            Some(Command::ConnectAccept { channel_count: b[1] })
        } else {
            None
        }
    } else if tag == TAG_CONNECT_DONE {
        if b.len() == 1 {
            Some(Command::ConnectDone)
        } else {
            None
        }
    } else if tag == TAG_DISCONNECT {
        if b.len() == 5 {
            let ud = u32_from_le_bytes(slice_subrange(b.as_slice(), 1, 5));
            Some(Command::Disconnect { user_data: ud })
        } else {
            None
        }
    } else if tag == TAG_DISCONNECT_ACK {
        if b.len() == 1 {
            Some(Command::DisconnectAck)
        } else {
            None
        }
    } else if tag == TAG_RELIABLE {
        if b.len() >= 4 {
            let seq = u16_from_le_bytes(slice_subrange(b.as_slice(), 2, 4));
            let payload = slice_to_vec(slice_subrange(b.as_slice(), 4, b.len()));
            Some(Command::ReliableData { channel: b[1], seq, payload })
        } else {
            None
        }
    } else if tag == TAG_UNRELIABLE {
        if b.len() >= 4 {
            let seq = u16_from_le_bytes(slice_subrange(b.as_slice(), 2, 4));
            let payload = slice_to_vec(slice_subrange(b.as_slice(), 4, b.len()));
            Some(Command::UnreliableData { channel: b[1], seq, payload })
        } else {
            None
        }
    } else if tag == TAG_UNSEQUENCED {
        if b.len() >= 2 {
            let payload = slice_to_vec(slice_subrange(b.as_slice(), 2, b.len()));
            Some(Command::UnsequencedData { channel: b[1], payload })
        } else {
            None
        }
    } else if tag == TAG_FRAGMENT {
        if b.len() >= 10 {
            let seq = u16_from_le_bytes(slice_subrange(b.as_slice(), 2, 4));
            let start_seq = u16_from_le_bytes(slice_subrange(b.as_slice(), 4, 6));
            let frag_count = u16_from_le_bytes(slice_subrange(b.as_slice(), 6, 8));
            let frag_index = u16_from_le_bytes(slice_subrange(b.as_slice(), 8, 10));
            let payload = slice_to_vec(slice_subrange(b.as_slice(), 10, b.len()));
            Some(Command::Fragment { channel: b[1], seq, start_seq, frag_count, frag_index, payload })
        } else {
            None
        }
    } else if tag == TAG_ACK {
        if b.len() == 4 {
            let seq = u16_from_le_bytes(slice_subrange(b.as_slice(), 2, 4));
            Some(Command::Ack { channel: b[1], seq })
        } else {
            None
        }
    } else {
        None
    }
}

} // verus!
