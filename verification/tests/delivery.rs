use citizen_enet::address::Address;
use citizen_enet::host::{BandwidthLimit, ChannelLimit, Event, Host};
use citizen_enet::packet::{Packet, PacketMode};
use citizen_enet::wire::{encode, Command};
use citizen_enet::Error;

fn addr(last: u8, port: u16) -> Address {
    Address::new_v4(127, 0, 0, last, port)
}

fn new_host(last: u8, port: u16, peer_limit: usize) -> Host<u32> {
    Host::new(
        addr(last, port),
        peer_limit,
        ChannelLimit::Maximum,
        BandwidthLimit::Unlimited,
        BandwidthLimit::Unlimited,
    )
    .unwrap()
}

fn pump(from: &mut Host<u32>, to: &mut Host<u32>) {
    let from_addr = from.address();
    for d in from.take_outgoing() {
        to.process(&from_addr, &d.data);
    }
}

fn handshake(client: &mut Host<u32>, server: &mut Host<u32>, channels: usize) -> (usize, usize) {
    let server_addr = server.address();
    let ci = client.connect(&server_addr, channels, 0).unwrap();
    client.service(0).unwrap();
    pump(client, server);
    server.service(0).unwrap();
    pump(server, client);
    assert!(matches!(client.service(1).unwrap(), Some(Event::Connect(_))));
    pump(client, server);
    assert!(matches!(server.service(1).unwrap(), Some(Event::Connect(_))));
    (ci, 0)
}

/// Drains every pending receive event of one host, collecting the payloads in
/// delivery order.
fn drain_payloads(h: &mut Host<u32>) -> Vec<Vec<u8>> {
    let mut got = Vec::new();
    while let Some(ev) = h.check_events().unwrap() {
        if let Event::Receive { packet, .. } = ev {
            got.push(packet.data().clone());
        }
    }
    got
}

#[test]
fn reliable_packets_deliver_in_sequence_order_despite_reordering() {
    let mut client = new_host(1, 5000, 2);
    let mut server = new_host(2, 5001, 2);
    let (_ci, _si) = handshake(&mut client, &mut server, 1);
    let client_addr = client.address();

    // Four reliable frames, as the sender would number them, arriving badly
    // out of order.
    let frame = |seq: u16| {
        encode(&Command::ReliableData { channel: 0, seq, payload: vec![seq as u8] })
    };
    for seq in [2u16, 1, 4, 3] {
        server.process(&client_addr, &frame(seq));
    }
    let got = drain_payloads(&mut server);
    assert_eq!(got, vec![vec![1], vec![2], vec![3], vec![4]]);
}

#[test]
fn duplicate_reliable_packets_deliver_once() {
    let mut client = new_host(1, 5010, 2);
    let mut server = new_host(2, 5011, 2);
    handshake(&mut client, &mut server, 1);
    let client_addr = client.address();

    let frame = |seq: u16| {
        encode(&Command::ReliableData { channel: 0, seq, payload: vec![seq as u8] })
    };
    server.process(&client_addr, &frame(1));
    server.process(&client_addr, &frame(1));
    server.process(&client_addr, &frame(2));
    server.process(&client_addr, &frame(2));
    let got = drain_payloads(&mut server);
    assert_eq!(got, vec![vec![1], vec![2]]);
    // Every reliable receipt is acknowledged, duplicates included.
    server.service(2).unwrap();
    let acks = server.take_outgoing();
    assert_eq!(acks.len(), 4);
}

#[test]
fn end_to_end_reliable_send_is_delivered_and_acknowledged() {
    let mut client = new_host(1, 5020, 2);
    let mut server = new_host(2, 5021, 2);
    let (ci, _si) = handshake(&mut client, &mut server, 2);

    let payload = vec![1u8, 2, 3, 4, 5];
    let packet = Packet::new(&payload, PacketMode::ReliableSequenced).unwrap();
    client.send_packet(ci, packet, 1).unwrap();
    client.service(2).unwrap();
    pump(&mut client, &mut server);
    let ev = server.service(2).unwrap();
    match ev {
        Some(Event::Receive { channel_id, packet, .. }) => {
            assert_eq!(channel_id, 1);
            assert_eq!(packet.data(), &payload);
            assert_eq!(packet.mode(), PacketMode::ReliableSequenced);
        },
        other => panic!("expected a receive event, got {:?}", other),
    }
    // The acknowledgement flows back and clears the retransmission queue:
    // much later service passes retransmit nothing.
    pump(&mut server, &mut client);
    client.service(100_000).unwrap();
    assert!(client.take_outgoing().is_empty());
}

#[test]
fn unsequenced_packets_deliver_in_arrival_order() {
    let mut client = new_host(1, 5030, 2);
    let mut server = new_host(2, 5031, 2);
    handshake(&mut client, &mut server, 1);
    let client_addr = client.address();

    // Arrival order is delivery order, whatever the sender intended.
    for tag in [30u8, 10, 20] {
        let bytes = encode(&Command::UnsequencedData { channel: 0, payload: vec![tag] });
        server.process(&client_addr, &bytes);
    }
    let got = drain_payloads(&mut server);
    assert_eq!(got, vec![vec![30], vec![10], vec![20]]);
    // Unsequenced traffic is never acknowledged.
    server.service(2).unwrap();
    assert!(server.take_outgoing().is_empty());
}

#[test]
fn stale_unreliable_sequenced_packets_are_dropped() {
    let mut client = new_host(1, 5040, 2);
    let mut server = new_host(2, 5041, 2);
    handshake(&mut client, &mut server, 1);
    let client_addr = client.address();

    let frame = |seq: u16, tag: u8| {
        encode(&Command::UnreliableData { channel: 0, seq, payload: vec![tag] })
    };
    server.process(&client_addr, &frame(5, 55));
    // Older than the last delivered one: dropped.
    server.process(&client_addr, &frame(3, 33));
    server.process(&client_addr, &frame(6, 66));
    let got = drain_payloads(&mut server);
    assert_eq!(got, vec![vec![55], vec![66]]);
}

#[test]
fn oversized_reliable_payload_reassembles_byte_identical() {
    let mut client = new_host(1, 5050, 2);
    let mut server = new_host(2, 5051, 2);
    let (ci, _si) = handshake(&mut client, &mut server, 1);

    let payload: Vec<u8> = (0..5000u32).map(|i| (i % 241) as u8).collect();
    let packet = Packet::new(&payload, PacketMode::ReliableSequenced).unwrap();
    client.send_packet(ci, packet, 0).unwrap();
    client.service(2).unwrap();
    // More than one datagram must leave: the payload cannot fit in one.
    let client_addr = client.address();
    let fragments = client.take_outgoing();
    assert!(fragments.len() > 1);
    for d in fragments {
        server.process(&client_addr, &d.data);
    }
    let ev = server.service(2).unwrap();
    match ev {
        Some(Event::Receive { packet, .. }) => {
            assert_eq!(packet.data(), &payload);
            assert_eq!(packet.mode(), PacketMode::ReliableSequenced);
        },
        other => panic!("expected the reassembled packet, got {:?}", other),
    }
}

#[test]
fn fragments_reassemble_even_when_arriving_out_of_order() {
    let mut client = new_host(1, 5060, 2);
    let mut server = new_host(2, 5061, 2);
    let (ci, _si) = handshake(&mut client, &mut server, 1);

    let payload: Vec<u8> = (0..3000u32).map(|i| (i % 199) as u8).collect();
    let packet = Packet::new(&payload, PacketMode::ReliableSequenced).unwrap();
    client.send_packet(ci, packet, 0).unwrap();
    client.service(2).unwrap();
    let client_addr = client.address();
    let mut fragments = client.take_outgoing();
    fragments.reverse();
    for d in fragments {
        server.process(&client_addr, &d.data);
    }
    let got = drain_payloads(&mut server);
    assert_eq!(got, vec![payload]);
}

#[test]
fn send_packet_rejects_bad_channels_and_wrong_states() {
    let mut client = new_host(1, 5070, 2);
    let target = addr(2, 5071);
    let ci = client.connect(&target, 1, 0).unwrap();
    let p = Packet::new(&vec![1], PacketMode::ReliableSequenced).unwrap();
    // Channel out of range on a one-channel connection.
    assert_eq!(client.send_packet(ci, p, 1), Err(Error::Capacity));
    // Not yet connected: the handshake never completed.
    let p = Packet::new(&vec![1], PacketMode::ReliableSequenced).unwrap();
    assert_eq!(client.send_packet(ci, p, 0), Err(Error::Protocol));
}

#[test]
fn oversized_unreliable_payload_is_fragmented_and_carried_reliably() {
    let mut client = new_host(1, 5080, 2);
    let mut server = new_host(2, 5081, 2);
    let (ci, _si) = handshake(&mut client, &mut server, 1);
    // Too large for one datagram: transparently fragmented on send, whatever
    // the mode, and reassembled byte-identical at the receiver.
    let payload: Vec<u8> = (0..4000u32).map(|i| (i % 233) as u8).collect();
    let p = Packet::new(&payload, PacketMode::UnreliableUnsequenced).unwrap();
    assert_eq!(client.send_packet(ci, p, 0), Ok(()));
    client.service(2).unwrap();
    let client_addr = client.address();
    let fragments = client.take_outgoing();
    assert!(fragments.len() > 1);
    for d in fragments {
        server.process(&client_addr, &d.data);
    }
    let got = drain_payloads(&mut server);
    assert_eq!(got, vec![payload]);
}

#[test]
fn peer_receive_dequeues_in_delivery_order() {
    let mut client = new_host(1, 5090, 2);
    let mut server = new_host(2, 5091, 2);
    let (_ci, si) = handshake(&mut client, &mut server, 1);
    let client_addr = client.address();
    for seq in [1u16, 2] {
        let bytes = encode(&Command::ReliableData { channel: 0, seq, payload: vec![seq as u8] });
        server.process(&client_addr, &bytes);
    }
    let first = server.peer_receive(si).unwrap();
    assert_eq!(first.packet.data(), &vec![1u8]);
    assert_eq!(first.channel_id, 0);
    let second = server.peer_receive(si).unwrap();
    assert_eq!(second.packet.data(), &vec![2u8]);
    assert!(server.peer_receive(si).is_none());
}

#[test]
fn lost_reliable_frame_is_retransmitted_until_acknowledged() {
    let mut client = new_host(1, 5100, 2);
    let mut server = new_host(2, 5101, 2);
    let (ci, _si) = handshake(&mut client, &mut server, 1);

    let payload = vec![9u8];
    let p = Packet::new(&payload, PacketMode::ReliableSequenced).unwrap();
    client.send_packet(ci, p, 0).unwrap();
    client.service(10).unwrap();
    // The first transmission is lost.
    let lost = client.take_outgoing();
    assert_eq!(lost.len(), 1);
    // Far past the retransmission timeout the frame goes out again.
    client.service(50_000).unwrap();
    let retry = client.take_outgoing();
    assert_eq!(retry.len(), 1);
    assert_eq!(retry[0].data, lost[0].data);
    // This copy arrives; the packet is delivered once.
    let client_addr = client.address();
    server.process(&client_addr, &retry[0].data);
    let got = drain_payloads(&mut server);
    assert_eq!(got, vec![payload]);
}

#[test]
fn sustained_loss_closes_the_throttle_and_drops_unreliable_sends() {
    let mut client = new_host(1, 5110, 2);
    let mut server = new_host(2, 5111, 2);
    let (ci, _si) = handshake(&mut client, &mut server, 1);
    // A short measurement interval, no acceleration, full deceleration, and a
    // quick, generous retransmission budget.
    client.configure_throttling(ci, 10, 0, 32);
    client.set_peer_timeout(ci, 100, 10, 20);
    // One reliable frame that is never acknowledged: every retransmission
    // marks loss.
    let p = Packet::new(&vec![1], PacketMode::ReliableSequenced).unwrap();
    client.send_packet(ci, p, 0).unwrap();
    client.service(10).unwrap();
    client.take_outgoing();
    let mut t = 10u32;
    for _ in 0..6 {
        t += 2000;
        client.service(t).unwrap();
        client.take_outgoing();
    }
    assert_eq!(client.peer(ci).packet_throttle(), 0);
    // Unreliable sends are now dropped silently: accepted, nothing queued.
    let p = Packet::new(&vec![2], PacketMode::UnreliableSequenced).unwrap();
    assert_eq!(client.send_packet(ci, p, 0), Ok(()));
    client.flush();
    assert!(client.take_outgoing().is_empty());
    // Reliable traffic is never throttled: it still queues.
    let p = Packet::new(&vec![3], PacketMode::ReliableSequenced).unwrap();
    assert_eq!(client.send_packet(ci, p, 0), Ok(()));
    client.flush();
    assert_eq!(client.take_outgoing().len(), 1);
}
