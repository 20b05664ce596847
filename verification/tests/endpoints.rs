use udp_connections::client::{Client, ClientDisconnectReason, ClientEvent};
use udp_connections::error::ConnectionError;
use udp_connections::server::{Server, ServerDisconnectReason, ServerEvent};
use udp_connections::socket::{Endpoint, NetworkAddr};

fn client_addr() -> NetworkAddr {
    Endpoint::local_port(40000)
}

fn server_addr() -> NetworkAddr {
    Endpoint::local_port(40001)
}

/// One cooperative tick over an ideal loopback: both sides run their
/// maintenance, every datagram is delivered, and all events are drained.
fn tick(
    client: &mut Client,
    server: &mut Server,
    now: u64,
    cl_events: &mut Vec<ClientEvent>,
    sv_events: &mut Vec<ServerEvent>,
) {
    while let Some(e) = client.next_event() {
        cl_events.push(e);
    }
    while let Some(e) = server.next_event() {
        sv_events.push(e);
    }
    for d in client.update(now) {
        let (replies, ev) = server.handle_datagram(now, &d.data, client_addr());
        if let Some(e) = ev {
            sv_events.push(e);
        }
        for r in replies {
            if let Some(e) = client.handle_datagram(now, &r.data, server_addr()) {
                cl_events.push(e);
            }
        }
    }
    for d in server.update(now) {
        if let Some(e) = client.handle_datagram(now, &d.data, server_addr()) {
            cl_events.push(e);
        }
    }
    while let Some(e) = client.next_event() {
        cl_events.push(e);
    }
    while let Some(e) = server.next_event() {
        sv_events.push(e);
    }
}

fn connect_pair(client: &mut Client, server: &mut Server) {
    let mut cl = Vec::new();
    let mut sv = Vec::new();
    client.connect(server_addr(), 0);
    tick(client, server, 0, &mut cl, &mut sv);
    assert_eq!(cl, vec![ClientEvent::Connected(0)]);
    assert_eq!(sv, vec![ServerEvent::ClientConnected(0)]);
}

#[test]
fn test_handshake() {
    let mut server = Server::new(b"A", 1);
    let mut client = Client::new(b"A");
    assert!(client.is_disconnected());
    connect_pair(&mut client, &mut server);
    assert!(client.is_connected());
    assert_eq!(client.remote_addr(), Some(server_addr()));
    assert_eq!(server.connected_clients(), vec![0]);
    assert_eq!(client.connection().unwrap().id(), 0);
    assert_eq!(server.connection(0).unwrap().addrs(), client_addr());
}

#[test]
fn test_payload_and_ack() {
    let mut server = Server::new(b"A", 1);
    let mut client = Client::new(b"A");
    connect_pair(&mut client, &mut server);

    let mut cl = Vec::new();
    let mut sv = Vec::new();
    let (seq, dg) = client.send(&[0xAA, 0xBB], 100).unwrap();
    assert_eq!(seq, 1);
    let (_, ev) = server.handle_datagram(100, &dg.data, client_addr());
    sv.push(ev.unwrap());
    assert_eq!(sv, vec![ServerEvent::PacketReceived(0, true, vec![0xAA, 0xBB])]);

    // the server's next keep-alive carries the ack for sequence 1
    tick(&mut client, &mut server, 700, &mut cl, &mut sv);
    assert!(cl.contains(&ClientEvent::PacketAcknowledged(1)));
}

#[test]
fn test_identifier_mismatch_times_out() {
    let mut server = Server::new(b"A", 1);
    let mut client = Client::new(b"B");
    let mut cl = Vec::new();
    let mut sv = Vec::new();
    client.connect(server_addr(), 0);
    for now in [0u64, 1000, 2000, 3000, 4000, 5000, 5001] {
        tick(&mut client, &mut server, now, &mut cl, &mut sv);
    }
    assert_eq!(cl, vec![ClientEvent::Disconnected(ClientDisconnectReason::TimedOut)]);
    assert_eq!(sv, vec![]);
    assert!(client.is_disconnected());
}

#[test]
fn test_capacity_rejection() {
    let mut server = Server::new(b"A", 1);
    let mut first = Client::new(b"A");
    connect_pair(&mut first, &mut server);

    // a second client from another address is denied
    let mut second = Client::new(b"A");
    second.connect(server_addr(), 0);
    let mut cl = Vec::new();
    for d in second.update(0) {
        let (replies, ev) = server.handle_datagram(0, &d.data, Endpoint::local_port(40002));
        assert!(ev.is_none());
        for r in replies {
            if let Some(e) = second.handle_datagram(0, &r.data, server_addr()) {
                cl.push(e);
            }
        }
    }
    assert_eq!(cl, vec![ClientEvent::Disconnected(ClientDisconnectReason::ConnectionDenied)]);
    assert!(second.is_disconnected());
}

#[test]
fn test_graceful_shutdown() {
    let mut server = Server::new(b"A", 1);
    let mut client = Client::new(b"A");
    connect_pair(&mut client, &mut server);

    let mut cl = Vec::new();
    let mut sv = Vec::new();
    let farewells = client.disconnect().unwrap();
    assert_eq!(farewells.len(), 10);
    for d in farewells {
        let (_, ev) = server.handle_datagram(10, &d.data, client_addr());
        if let Some(e) = ev {
            sv.push(e);
        }
    }
    tick(&mut client, &mut server, 20, &mut cl, &mut sv);
    assert_eq!(
        sv,
        vec![ServerEvent::ClientDisconnected(0, ServerDisconnectReason::Disconnected)]
    );
    assert_eq!(cl, vec![ClientEvent::Disconnected(ClientDisconnectReason::Disconnected)]);
}

#[test]
fn test_connected_timeout() {
    let mut server = Server::new(b"A", 1);
    let mut client = Client::new(b"A");
    connect_pair(&mut client, &mut server);

    // the server falls silent; the client times out from last receive
    let mut cl = Vec::new();
    client.update(5200);
    while let Some(e) = client.next_event() {
        cl.push(e);
    }
    assert_eq!(cl, vec![ClientEvent::Disconnected(ClientDisconnectReason::TimedOut)]);

    // symmetrically, a silent client times its slot out on the server
    let mut server2 = Server::new(b"A", 1);
    let mut client2 = Client::new(b"A");
    connect_pair(&mut client2, &mut server2);
    let mut sv = Vec::new();
    server2.update(5200);
    while let Some(e) = server2.next_event() {
        sv.push(e);
    }
    assert_eq!(sv, vec![ServerEvent::ClientDisconnected(0, ServerDisconnectReason::TimedOut)]);
}

#[test]
fn test_duplicate_suppression() {
    let mut server = Server::new(b"A", 1);
    let mut client = Client::new(b"A");
    connect_pair(&mut client, &mut server);

    let (_, dg) = client.send(&[7, 8, 9], 50).unwrap();
    let (_, ev) = server.handle_datagram(50, &dg.data, client_addr());
    assert!(matches!(ev, Some(ServerEvent::PacketReceived(0, true, _))));

    // replaying the identical payload emits no event
    let (replies, ev) = server.handle_datagram(60, &dg.data, client_addr());
    assert!(ev.is_none());
    assert!(replies.is_empty());
    assert!(server.next_event().is_none());
}

#[test]
fn test_ack_partition() {
    let mut server = Server::new(b"A", 1);
    let mut client = Client::new(b"A");
    connect_pair(&mut client, &mut server);

    let mut cl = Vec::new();
    let mut sv = Vec::new();
    let mut now = 0;
    for i in 1..=100u16 {
        now += 600;
        let (seq, dg) = client.send(&[i as u8], now).unwrap();
        assert_eq!(seq, i);
        let (_, ev) = server.handle_datagram(now, &dg.data, client_addr());
        assert!(ev.is_some());
        tick(&mut client, &mut server, now, &mut cl, &mut sv);
    }
    tick(&mut client, &mut server, now + 600, &mut cl, &mut sv);

    let mut acked = Vec::new();
    let mut lost = Vec::new();
    for e in &cl {
        match e {
            ClientEvent::PacketAcknowledged(s) => acked.push(*s),
            ClientEvent::PacketLost(s) => lost.push(*s),
            _ => {},
        }
    }
    // under lossless delivery every sequence is acked exactly once and
    // nothing is reported lost
    assert!(lost.is_empty());
    let mut sorted = acked.clone();
    sorted.sort();
    sorted.dedup();
    assert_eq!(sorted.len(), acked.len());
    assert_eq!(sorted, (1..=100u16).collect::<Vec<u16>>());
}

#[test]
fn test_send_when_not_connected() {
    let mut client = Client::new(b"A");
    assert!(matches!(client.send(&[1], 0), Err(ConnectionError::Disconnected)));
    client.connect(server_addr(), 0);
    assert!(matches!(client.send(&[1], 0), Err(ConnectionError::ConnectionNotReady)));
    assert!(client.connection().is_err());

    let mut server = Server::new(b"A", 2);
    assert!(matches!(server.send(0, &[1], 0), Err(ConnectionError::Disconnected)));
    assert!(matches!(server.send(7, &[1], 0), Err(ConnectionError::Disconnected)));
    assert!(matches!(server.disconnect(0), Err(ConnectionError::Disconnected)));
}

#[test]
fn test_error_messages() {
    assert_eq!(ConnectionError::Disconnected.message(), "Connection could not be found");
    assert_eq!(ConnectionError::ConnectionNotReady.message(), "Connection is not ready");
}

#[test]
fn test_endpoint_addresses() {
    assert_eq!(Endpoint::local_port(9000), NetworkAddr { host: 0x7F00_0001, port: 9000 });
    assert_eq!(Endpoint::local_any(), NetworkAddr { host: 0x7F00_0001, port: 0 });
    assert_eq!(Endpoint::remote_port(9000), NetworkAddr { host: 0, port: 9000 });
    assert_eq!(Endpoint::remote_any(), NetworkAddr { host: 0, port: 0 });
}

#[test]
fn test_payload_size_edges() {
    let mut server = Server::new(b"A", 1);
    let mut client = Client::new(b"A");
    connect_pair(&mut client, &mut server);

    // an empty payload is delivered as an empty packet
    let (_, dg) = client.send(&[], 10).unwrap();
    let (_, ev) = server.handle_datagram(10, &dg.data, client_addr());
    assert_eq!(ev, Some(ServerEvent::PacketReceived(0, true, vec![])));

    // the largest payload fits a single maximum-sized datagram
    let big = vec![0x5Au8; 1485];
    let (_, dg) = client.send(&big, 20).unwrap();
    assert_eq!(dg.data.len(), 1500);
    let (_, ev) = server.handle_datagram(20, &dg.data, client_addr());
    assert_eq!(ev, Some(ServerEvent::PacketReceived(0, true, big)));
}

#[test]
fn test_link_estimates_start_at_zero() {
    let mut server = Server::new(b"A", 1);
    let mut client = Client::new(b"A");
    connect_pair(&mut client, &mut server);
    let vc = client.connection().unwrap();
    assert_eq!(vc.rtt(), 0);
    assert_eq!(vc.packet_loss(), 0);
}
