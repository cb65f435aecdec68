use citizen_enet::address::{Address, WireAddress};
use citizen_enet::fragment::{make_chunks, MAX_FRAGMENT_SIZE};
use citizen_enet::packet::{Packet, PacketMode};
use citizen_enet::throttle::{next_random, Throttle, PACKET_THROTTLE_SCALE};
use citizen_enet::wire::{decode, encode, Command};

#[test]
fn v4_address_round_trips_through_wire_form() {
    let a = Address::new_v4(192, 168, 1, 20, 9001);
    let w = a.to_wire();
    assert_eq!(w.host[..10], [0u8; 10]);
    assert_eq!(w.host[10], 0xFF);
    assert_eq!(w.host[11], 0xFF);
    assert_eq!(&w.host[12..], &[192, 168, 1, 20]);
    assert_eq!(w.port, 9001);
    assert_eq!(w.scope_id, 0);
    let back = Address::from_wire(&w);
    assert_eq!(back, a);
    assert!(back.is_v4());
    assert_eq!(back.port(), 9001);
}

#[test]
fn v6_address_round_trips_with_scope_id() {
    let mut octets = vec![0u8; 16];
    octets[0] = 0xfe;
    octets[1] = 0x80;
    octets[15] = 0x01;
    let a = Address::new_v6(octets.clone(), 443, 7);
    let w = a.to_wire();
    assert_eq!(w.host, octets);
    assert_eq!(w.scope_id, 7);
    let back = Address::from_wire(&w);
    assert_eq!(back, a);
    assert!(!back.is_v4());
    assert_eq!(back.scope_id(), 7);
    assert_eq!(back.port(), 443);
}

#[test]
fn v4_mapped_v6_decodes_as_v4() {
    // The one family outside the round-trip law: a native IPv6 address that
    // already carries the IPv4-mapped form comes back as the IPv4 address.
    let mut octets = vec![0u8; 16];
    octets[10] = 0xFF;
    octets[11] = 0xFF;
    octets[12] = 10;
    octets[13] = 0;
    octets[14] = 0;
    octets[15] = 1;
    let a = Address::new_v6(octets, 80, 0);
    let back = Address::from_wire(&a.to_wire());
    assert!(back.is_v4());
    assert_eq!(back.ip()[..], [10, 0, 0, 1]);
}

#[test]
fn localhost_v4_keeps_its_octets() {
    let a = Address::new_v4(127, 0, 0, 1, 0);
    assert_eq!(a.ip()[..], [127, 0, 0, 1]);
    assert_eq!(a.port(), 0);
    let back = Address::from_wire(&a.to_wire());
    assert_eq!(back, a);
}

#[test]
fn wire_address_decode_handles_arbitrary_v6() {
    let host: Vec<u8> = (0u8..16).collect();
    let w = WireAddress { host: host.clone(), port: 5, scope_id: 3 };
    let a = Address::from_wire(&w);
    assert!(!a.is_v4());
    assert_eq!(a.ip(), &host);
}

#[test]
fn packet_modes_report_reliability_and_sequencing() {
    assert!(!PacketMode::UnreliableSequenced.is_reliable());
    assert!(PacketMode::UnreliableSequenced.is_sequenced());
    assert!(!PacketMode::UnreliableUnsequenced.is_reliable());
    assert!(!PacketMode::UnreliableUnsequenced.is_sequenced());
    assert!(PacketMode::ReliableSequenced.is_reliable());
    assert!(PacketMode::ReliableSequenced.is_sequenced());
}

#[test]
fn packet_mode_flags_round_trip() {
    for mode in [
        PacketMode::UnreliableSequenced,
        PacketMode::UnreliableUnsequenced,
        PacketMode::ReliableSequenced,
    ] {
        assert_eq!(PacketMode::from_flags(mode.to_flags()), mode);
    }
    assert_eq!(PacketMode::from_flags(0), PacketMode::UnreliableSequenced);
}

#[test]
fn packet_keeps_its_bytes_and_mode() {
    let bytes = vec![1u8, 2, 3, 4];
    let p = Packet::new(&bytes, PacketMode::ReliableSequenced).unwrap();
    assert_eq!(p.data(), &bytes);
    assert_eq!(p.mode(), PacketMode::ReliableSequenced);
}

#[test]
fn commands_round_trip_through_their_wire_bytes() {
    let cases = vec![
        Command::Connect { channel_count: 4, user_data: 0xDEAD_BEEF },
        Command::ConnectAccept { channel_count: 2 },
        Command::ConnectDone,
        Command::Disconnect { user_data: 42 },
        Command::DisconnectAck,
        Command::ReliableData { channel: 1, seq: 513, payload: vec![9, 8, 7] },
        Command::UnreliableData { channel: 0, seq: 65535, payload: vec![] },
        Command::UnsequencedData { channel: 3, payload: vec![5] },
        Command::Fragment {
            channel: 2,
            seq: 11,
            start_seq: 10,
            frag_count: 3,
            frag_index: 1,
            payload: vec![0xAA; 40],
        },
        Command::Ack { channel: 1, seq: 513 },
    ];
    for c in &cases {
        let bytes = encode(c);
        let back = decode(&bytes).expect("round trip must decode");
        assert_eq!(encode(&back), bytes);
    }
}

#[test]
fn malformed_datagrams_decode_to_nothing() {
    assert!(decode(&vec![]).is_none());
    assert!(decode(&vec![0]).is_none());
    assert!(decode(&vec![200, 1, 2]).is_none());
    // A connect frame with a truncated user-data field.
    assert!(decode(&vec![1, 4, 1, 2]).is_none());
    // An ack frame with a trailing byte.
    assert!(decode(&vec![10, 1, 2, 3, 4]).is_none());
}

#[test]
fn throttle_rises_under_clear_intervals_and_falls_under_loss() {
    let mut t = Throttle::new(0);
    assert_eq!(t.value, PACKET_THROTTLE_SCALE);
    // Sustained loss drags it down, clamped at zero.
    for k in 1..=40u32 {
        t.note_loss();
        t.tick(k * t.interval);
        assert!(t.value <= PACKET_THROTTLE_SCALE);
    }
    assert_eq!(t.value, 0);
    // Loss-free intervals with traffic bring it back up, clamped at the scale.
    for k in 41..=80u32 {
        t.note_ack();
        t.tick(k * t.interval);
        assert!(t.value <= PACKET_THROTTLE_SCALE);
    }
    assert_eq!(t.value, PACKET_THROTTLE_SCALE);
}

#[test]
fn throttle_holds_between_interval_boundaries() {
    let mut t = Throttle::new(0);
    t.note_loss();
    t.tick(t.interval - 1);
    assert_eq!(t.value, PACKET_THROTTLE_SCALE);
    t.tick(t.interval);
    assert_eq!(t.value, PACKET_THROTTLE_SCALE - t.deceleration);
}

#[test]
fn throttle_configure_overrides_parameters() {
    let mut t = Throttle::new(0);
    t.configure(1000, 8, 16);
    assert_eq!(t.interval, 1000);
    assert_eq!(t.acceleration, 8);
    assert_eq!(t.deceleration, 16);
    t.note_loss();
    t.tick(1000);
    assert_eq!(t.value, PACKET_THROTTLE_SCALE - 16);
}

#[test]
fn full_throttle_admits_every_draw() {
    let t = Throttle::new(0);
    let mut s = 1u32;
    for _ in 0..100 {
        s = next_random(s);
        assert!(t.admits(s));
    }
}

#[test]
fn random_sequence_is_deterministic() {
    assert_eq!(next_random(12345), next_random(12345));
    assert_ne!(next_random(12345), next_random(54321));
}

#[test]
fn chunks_cover_the_payload_in_order() {
    let data: Vec<u8> = (0..2500u32).map(|i| (i % 251) as u8).collect();
    let chunks = make_chunks(&data, MAX_FRAGMENT_SIZE);
    assert_eq!(chunks.len(), 3);
    assert_eq!(chunks[0].len(), MAX_FRAGMENT_SIZE);
    assert_eq!(chunks[1].len(), MAX_FRAGMENT_SIZE);
    assert_eq!(chunks[2].len(), 2500 - 2 * MAX_FRAGMENT_SIZE);
    let mut joined: Vec<u8> = Vec::new();
    for c in &chunks {
        joined.extend_from_slice(c);
    }
    assert_eq!(joined, data);
}

#[test]
fn small_payload_is_a_single_chunk() {
    let data = vec![1u8, 2, 3];
    let chunks = make_chunks(&data, MAX_FRAGMENT_SIZE);
    assert_eq!(chunks.len(), 1);
    assert_eq!(chunks[0], data);
}
