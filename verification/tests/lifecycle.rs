use citizen_enet::address::Address;
use citizen_enet::host::{BandwidthLimit, ChannelLimit, Event, Host};
use citizen_enet::peer::PeerState;
use citizen_enet::wire::{encode, Command};
use citizen_enet::Error;

fn addr(last: u8, port: u16) -> Address {
    Address::new_v4(127, 0, 0, last, port)
}

fn new_host(last: u8, port: u16, peer_limit: usize) -> Host<u32> {
    Host::new(
        addr(last, port),
        peer_limit,
        ChannelLimit::Maximum,
        BandwidthLimit::Unlimited,
        BandwidthLimit::Unlimited,
    )
    .unwrap()
}

/// Delivers everything `from` has queued into `to`, stamped with `from`'s
/// address, and returns how many datagrams moved.
fn pump(from: &mut Host<u32>, to: &mut Host<u32>) -> usize {
    let from_addr = from.address();
    let datagrams = from.take_outgoing();
    let n = datagrams.len();
    for d in datagrams {
        to.process(&from_addr, &d.data);
    }
    n
}

/// Runs the full three-way handshake between a fresh client and server;
/// returns (client peer index, server peer index).
fn handshake(client: &mut Host<u32>, server: &mut Host<u32>, channels: usize) -> (usize, usize) {
    let server_addr = server.address();
    let ci = client.connect(&server_addr, channels, 555).unwrap();
    client.service(0).unwrap();
    pump(client, server); // Connect
    server.service(0).unwrap();
    pump(server, client); // ConnectAccept
    let connected = client.service(1).unwrap();
    assert!(matches!(connected, Some(Event::Connect(i)) if i == ci));
    pump(client, server); // ConnectDone
    let si = 0;
    let server_side = server.service(1).unwrap();
    assert!(matches!(server_side, Some(Event::Connect(i)) if i == si));
    (ci, si)
}

#[test]
fn connect_yields_exactly_one_connect_event_per_side() {
    let mut client = new_host(1, 4000, 4);
    let mut server = new_host(2, 4001, 4);
    let (ci, si) = handshake(&mut client, &mut server, 2);
    assert_eq!(client.peer(ci).state(), PeerState::Connected);
    assert_eq!(server.peer(si).state(), PeerState::Connected);
    assert_eq!(server.peer(si).event_data(), 555);
    assert_eq!(client.peer(ci).channel_count(), 2);
    assert_eq!(server.peer(si).channel_count(), 2);
    // No second connect event on either side.
    assert!(client.check_events().unwrap().is_none());
    assert!(server.check_events().unwrap().is_none());
}

#[test]
fn disconnect_yields_exactly_one_disconnect_event_with_user_data() {
    let mut client = new_host(1, 4010, 4);
    let mut server = new_host(2, 4011, 4);
    let (ci, _si) = handshake(&mut client, &mut server, 1);

    client.disconnect(ci, 4242);
    assert_eq!(client.peer(ci).state(), PeerState::Disconnecting);
    client.service(2).unwrap();
    pump(&mut client, &mut server); // Disconnect notice
    // The remote surfaces one disconnect event carrying the notice's data.
    let remote_event = server.service(2).unwrap();
    assert!(matches!(remote_event, Some(Event::Disconnect(_, 4242))));
    pump(&mut server, &mut client); // DisconnectAck
    let local_event = client.service(3).unwrap();
    assert!(matches!(local_event, Some(Event::Disconnect(i, 4242)) if i == ci));
    assert_eq!(client.peer(ci).state(), PeerState::Disconnected);
    // Exactly one each: nothing further queued.
    assert!(client.check_events().unwrap().is_none());
    assert!(server.check_events().unwrap().is_none());
}

#[test]
fn disconnect_now_yields_no_local_event() {
    let mut client = new_host(1, 4020, 4);
    let mut server = new_host(2, 4021, 4);
    let (ci, _si) = handshake(&mut client, &mut server, 1);

    client.disconnect_now(ci, 7);
    assert_eq!(client.peer(ci).state(), PeerState::Disconnected);
    assert!(client.service(2).unwrap().is_none());
    assert!(client.check_events().unwrap().is_none());
}

#[test]
fn capacity_admits_the_first_inbound_connection_and_refuses_the_second() {
    let mut server = new_host(9, 4030, 1);
    let first = addr(10, 4100);
    let second = addr(11, 4101);
    let connect = encode(&Command::Connect { channel_count: 1, user_data: 0 });

    server.process(&first, &connect);
    assert_eq!(server.peer_slots(), 1);
    assert_eq!(server.peer(0).state(), PeerState::AcknowledgingConnect);

    // The second simultaneous connection is silently refused.
    server.process(&second, &connect);
    assert_eq!(server.peer_slots(), 1);
    assert!(server.peer(0).address().same_as(&first));

    // Exactly one accepting reply goes out, to the first client.
    server.service(0).unwrap();
    let out = server.take_outgoing();
    assert_eq!(out.len(), 1);
    assert!(out[0].to.same_as(&first));
}

#[test]
fn connect_refuses_invalid_channel_counts_and_full_tables() {
    let mut client = new_host(1, 4040, 1);
    let target = addr(2, 4041);
    assert_eq!(client.connect(&target, 0, 0), Err(Error::Capacity));
    let ok = client.connect(&target, 1, 0);
    assert!(ok.is_ok());
    // The single slot is taken by a live handshake: no room for another.
    assert_eq!(client.connect(&addr(3, 4042), 1, 0), Err(Error::Capacity));
}

#[test]
fn host_rejects_a_zero_peer_limit() {
    let r: Result<Host<u32>, Error> = Host::new(
        addr(1, 4050),
        0,
        ChannelLimit::Maximum,
        BandwidthLimit::Unlimited,
        BandwidthLimit::Unlimited,
    );
    assert_eq!(r.err(), Some(Error::Capacity));
}

#[test]
fn disconnected_slots_are_reused() {
    let mut client = new_host(1, 4060, 1);
    let mut server = new_host(2, 4061, 4);
    let (ci, _si) = handshake(&mut client, &mut server, 1);
    client.disconnect_now(ci, 0);
    assert_eq!(client.peer(ci).state(), PeerState::Disconnected);
    let again = client.connect(&server.address(), 1, 1).unwrap();
    assert_eq!(again, ci);
    assert_eq!(client.peer_slots(), 1);
}

#[test]
fn host_accessors_reflect_configuration() {
    let mut h: Host<u32> = Host::new(
        addr(5, 4070),
        3,
        ChannelLimit::Limited(4),
        BandwidthLimit::Limited(1000),
        BandwidthLimit::Unlimited,
    )
    .unwrap();
    assert_eq!(h.peer_count(), 3);
    assert_eq!(h.channel_limit(), ChannelLimit::Limited(4));
    assert_eq!(h.incoming_bandwidth(), 1000);
    assert_eq!(h.outgoing_bandwidth(), 0);
    assert!(h.address().same_as(&addr(5, 4070)));
    h.set_bandwith_limits(BandwidthLimit::Unlimited, BandwidthLimit::Limited(2000));
    assert_eq!(h.incoming_bandwidth(), 0);
    assert_eq!(h.outgoing_bandwidth(), 2000);
    h.set_channel_limit(ChannelLimit::Maximum);
    assert_eq!(h.channel_limit(), ChannelLimit::Maximum);
}

#[test]
fn reset_returns_the_peer_to_disconnected_without_events() {
    let mut client = new_host(1, 4080, 2);
    let mut server = new_host(2, 4081, 2);
    let (ci, _si) = handshake(&mut client, &mut server, 1);
    client.reset_peer(ci);
    assert_eq!(client.peer(ci).state(), PeerState::Disconnected);
    assert!(client.service(5).unwrap().is_none());
}

#[test]
fn handshake_timeout_returns_the_peer_to_disconnected() {
    let mut client = new_host(1, 4090, 2);
    let ci = client.connect(&addr(2, 4091), 1, 0).unwrap();
    client.set_peer_timeout(ci, 2, 10, 50);
    client.service(0).unwrap();
    client.take_outgoing();
    // Nothing ever answers; drive time far past the retransmission limit.
    let mut t = 0u32;
    for _ in 0..64 {
        t += 1000;
        client.service(t).unwrap();
        client.take_outgoing();
    }
    assert_eq!(client.peer(ci).state(), PeerState::Disconnected);
    // A failed outbound handshake is a connection failure, not a disconnect.
    assert!(client.check_events().unwrap().is_none());
}

#[test]
fn peers_iterates_one_entry_per_allocated_slot() {
    // The whole table is allocated at creation: iteration yields exactly
    // peer_count() entries, one per slot, connected or not.
    let h = new_host(1, 4110, 5);
    assert_eq!(h.peer_count(), 5);
    assert_eq!(h.peer_slots(), 5);
    let ids = h.peers();
    assert_eq!(ids, vec![0, 1, 2, 3, 4]);
    for i in ids {
        assert_eq!(h.peer(i).state(), PeerState::Disconnected);
    }
}
