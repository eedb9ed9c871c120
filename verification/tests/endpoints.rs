use bevy_quinn::{
    udp_transmit, ConnectionId, DatagramOutcome, Endpoint, EndpointCallback, EndpointConfig,
    Message, Response, StreamId, UpdateError,
};
use quinn_proto::{ClientConfig, ServerConfig, VarInt};
use quinn_udp::RecvMeta;
use std::sync::Arc;
use std::time::{Duration, Instant};

const CLIENT: &str = "127.0.0.1:5001";
const SERVER: &str = "127.0.0.1:5002";

/// An endpoint, its address and what it reported.
struct Side {
    endpoint: Endpoint,
    address: &'static str,
    reports: Vec<EndpointCallback>,
    failures: Vec<UpdateError>,
    drained: usize,
}

fn configs() -> (ServerConfig, ClientConfig) {
    let certified = rcgen::generate_simple_self_signed(vec!["localhost".to_string()]).unwrap();
    let certificate = certified.cert.der().clone();
    let key = rustls::pki_types::PrivatePkcs8KeyDer::from(certified.key_pair.serialize_der());
    let server = ServerConfig::with_single_cert(vec![certificate.clone()], key.into()).unwrap();
    let mut roots = rustls::RootCertStore::empty();
    roots.add(certificate).unwrap();
    let client = ClientConfig::with_root_certificates(Arc::new(roots)).unwrap();
    (server, client)
}

fn side(server_config: Option<ServerConfig>, receive_budget: usize, address: &'static str) -> Side {
    let config = EndpointConfig { server_config, receive_budget };
    Side {
        endpoint: Endpoint::new(config, false, 1, 1).unwrap(),
        address,
        reports: Vec::new(),
        failures: Vec::new(),
        drained: 0,
    }
}

fn meta(address: &str) -> RecvMeta {
    let mut meta = RecvMeta::default();
    meta.addr = address.parse().unwrap();
    meta
}

fn message(len: usize, stride: usize, from: &str) -> Message {
    Message { len, stride, ecn: None, origin: meta(from) }
}

/// Transmits what the connections have to transmit, and updates them.
fn step(side: &mut Side, now: Instant) -> Vec<Vec<u8>> {
    let mut sent = Vec::new();
    for id in side.endpoint.connection_ids() {
        let connection = side.endpoint.connection_mut(id).unwrap();
        while let Some(transmit) = connection.poll_transmit(now, 1) {
            let udp = udp_transmit(&transmit, connection.send_buffer());
            assert_eq!(udp.contents.len(), transmit.size);
            sent.push(udp.contents.to_vec());
        }
        let report = side.endpoint.update_connection(id, now, &mut side.reports).unwrap();
        if let Some(failure) = report.failure {
            side.failures.push(failure);
        }
        if report.drained {
            side.drained += 1;
        }
    }
    sent
}

fn deliver(side: &mut Side, datagrams: &[Vec<u8>], from: &str, now: Instant) -> Vec<Response> {
    let mut responses = Vec::new();
    for datagram in datagrams {
        let message = message(datagram.len(), datagram.len(), from);
        side.endpoint.handle_message(now, &message, datagram, &mut responses);
    }
    responses
}

/// Lets two endpoints talk to each other for some rounds.
fn talk(a: &mut Side, b: &mut Side, now: Instant) {
    for _ in 0..12 {
        let sent = step(a, now);
        assert!(deliver(b, &sent, a.address, now).is_empty());
        let sent = step(b, now);
        assert!(deliver(a, &sent, b.address, now).is_empty());
    }
}

/// A client and a server that have connected to each other, and the ids of the connection.
fn connected(now: Instant, budget: usize) -> (Side, Side, ConnectionId, ConnectionId) {
    let (server_config, client_config) = configs();
    let mut server = side(Some(server_config), budget, SERVER);
    let mut client = side(None, budget, CLIENT);
    assert!(client.endpoint.connect(now, client_config, &meta(SERVER), "localhost").is_ok());
    talk(&mut client, &mut server, now);
    let at_client = client.endpoint.connection_ids()[0];
    let at_server = server.endpoint.connection_ids()[0];
    assert!(client.failures.is_empty() && server.failures.is_empty());
    client.reports.clear();
    server.reports.clear();
    (client, server, at_client, at_server)
}

#[test]
fn an_endpoint_starts_without_connections() {
    let side = side(None, 0, CLIENT);
    assert!(side.endpoint.connection_ids().is_empty());
    assert!(side.endpoint.connection(ConnectionId(0)).is_none());
    assert_eq!(side.endpoint.receive_buffer_len(), 1472);
}

#[test]
fn the_receive_buffer_of_an_endpoint_has_room_for_a_batch() {
    let config = EndpointConfig { server_config: None, receive_budget: 0 };
    let endpoint = Endpoint::new(config, true, 64, 32).unwrap();
    assert_eq!(endpoint.receive_buffer_len(), 1472 * 64 * 32);
    let config = EndpointConfig { server_config: None, receive_budget: 0 };
    assert!(Endpoint::new(config, true, usize::MAX, 32).is_none());
}

#[test]
fn both_sides_report_the_connection() {
    let now = Instant::now();
    let (server_config, client_config) = configs();
    let mut server = side(Some(server_config), 100, SERVER);
    let mut client = side(None, 100, CLIENT);
    assert!(client.endpoint.connect(now, client_config, &meta(SERVER), "localhost").is_ok());
    assert_eq!(client.endpoint.connection_ids().len(), 1);
    assert!(server.endpoint.connection_ids().is_empty());

    talk(&mut client, &mut server, now);
    let at_client = client.endpoint.connection_ids()[0];
    let at_server = server.endpoint.connection_ids()[0];
    assert!(matches!(
        client.reports[..],
        [EndpointCallback::SuccessfulConnection(handle)] if handle == at_client.0
    ));
    assert!(matches!(
        server.reports[..],
        [EndpointCallback::SuccessfulConnection(handle)] if handle == at_server.0
    ));
    assert!(client.endpoint.connection(at_client).unwrap().is_client());
    assert!(!server.endpoint.connection(at_server).unwrap().is_client());
}

#[test]
fn statistics_count_what_was_sent() {
    let now = Instant::now();
    let (client, server, at_client, at_server) = connected(now, 100);
    let sent = server.endpoint.connection(at_server).unwrap().get_statistics();
    let received = client.endpoint.connection(at_client).unwrap().get_statistics();
    assert!(sent.udp_tx.datagrams > 0);
    assert_eq!(sent.udp_tx.datagrams, received.udp_rx.datagrams);
    assert_eq!(sent.udp_tx.bytes, received.udp_rx.bytes);
}

#[test]
fn the_protocol_knows_what_was_negotiated() {
    let now = Instant::now();
    let (client, _, at_client, _) = connected(now, 100);
    let connection = client.endpoint.connection(at_client).unwrap();
    assert!(connection.protocol().crypto_session().handshake_data().is_some());
    assert!(!connection.protocol().is_handshaking());
}

#[test]
fn data_arrives_in_order_and_streams_finish() {
    let now = Instant::now();
    let (mut client, mut server, at_client, at_server) = connected(now, 10_000);

    let connection = client.endpoint.connection_mut(at_client).unwrap();
    let id = connection.open_uni().unwrap();
    assert!(id.may_send(true) && !id.may_receive(true));
    let buffer = connection.get_send_stream_mut(id).unwrap();
    assert!(buffer.write(b"hello "));
    assert!(buffer.write(b"world"));
    buffer.finish();
    assert_eq!(connection.get_send_stream(id).unwrap().bytes_buffered(), 11);
    assert!(connection.get_receive_stream(id).is_none());

    talk(&mut client, &mut server, now);
    // everything was sent, so the stream is gone, without a report on this side
    assert!(client.endpoint.connection(at_client).unwrap().get_send_stream(id).is_none());
    assert!(client.reports.is_empty());

    assert!(matches!(
        server.reports[..],
        [
            EndpointCallback::OpenedReceiveStream { stream_id: opened, connection_handle },
            EndpointCallback::ClosedReceiveStream { stream_id: closed, .. }
        ] if opened == id && closed == id && connection_handle == at_server.0
    ));
    server.reports.clear();
    let connection = server.endpoint.connection_mut(at_server).unwrap();
    let buffer = connection.get_receive_stream_mut(id).unwrap();
    assert!(buffer.closed());
    assert_eq!(buffer.read_exact(6).unwrap().as_ref(), b"hello ");
    talk(&mut client, &mut server, now);
    assert!(server.reports.is_empty());

    let connection = server.endpoint.connection_mut(at_server).unwrap();
    assert_eq!(connection.get_receive_stream_mut(id).unwrap().read().as_ref(), b"world");
    talk(&mut client, &mut server, now);
    assert!(matches!(
        server.reports[..],
        [EndpointCallback::FinishedReceiveStream { stream_id, .. }] if stream_id == id
    ));
    assert!(server.endpoint.connection(at_server).unwrap().get_receive_stream(id).is_none());
    assert!(client.failures.is_empty() && server.failures.is_empty());
}

#[test]
fn a_bidirectional_stream_of_the_peer_can_be_answered() {
    let now = Instant::now();
    let (mut client, mut server, at_client, at_server) = connected(now, 10_000);

    let connection = server.endpoint.connection_mut(at_server).unwrap();
    let id = connection.open_bi().unwrap();
    connection.get_send_stream_mut(id).unwrap().write(b"ping");
    talk(&mut client, &mut server, now);
    assert!(matches!(
        client.reports[..],
        [
            EndpointCallback::OpenedReceiveStream { stream_id: received, .. },
            EndpointCallback::OpenedSendStream { stream_id: sent, .. }
        ] if received == id && sent == id
    ));
    let connection = client.endpoint.connection_mut(at_client).unwrap();
    assert_eq!(connection.get_receive_stream_mut(id).unwrap().read().as_ref(), b"ping");
    assert!(connection.get_send_stream(id).is_some());
    // nothing is reported on the side that opened the stream
    assert!(server.reports.is_empty());
}

#[test]
fn an_answer_on_a_stream_without_a_receive_buffer_is_an_error() {
    let now = Instant::now();
    let (mut client, mut server, at_client, at_server) = connected(now, 10_000);

    let connection = client.endpoint.connection_mut(at_client).unwrap();
    let id = connection.open_bi().unwrap();
    connection.get_send_stream_mut(id).unwrap().write(b"ping");
    talk(&mut client, &mut server, now);
    let connection = server.endpoint.connection_mut(at_server).unwrap();
    connection.get_send_stream_mut(id).unwrap().write(b"pong");
    talk(&mut client, &mut server, now);
    assert!(matches!(
        client.failures[0],
        UpdateError::MissingReceiveStream(stream) if stream == id
    ));
}

#[test]
fn no_more_than_the_budget_is_received() {
    let now = Instant::now();
    let (mut client, mut server, at_client, at_server) = connected(now, 10);

    let connection = client.endpoint.connection_mut(at_client).unwrap();
    let id = connection.open_uni().unwrap();
    connection.get_send_stream_mut(id).unwrap().write(b"0123456789abcdef");
    talk(&mut client, &mut server, now);
    let connection = server.endpoint.connection_mut(at_server).unwrap();
    assert_eq!(connection.get_receive_stream_mut(id).unwrap().read().as_ref(), b"0123456789");

    let connection = client.endpoint.connection_mut(at_client).unwrap();
    connection.get_send_stream_mut(id).unwrap().write(b"ghi");
    talk(&mut client, &mut server, now);
    let connection = server.endpoint.connection_mut(at_server).unwrap();
    assert_eq!(connection.get_receive_stream_mut(id).unwrap().len(), 0);
}

#[test]
fn a_reset_stream_is_abandoned_and_closed_on_the_other_side() {
    let now = Instant::now();
    let (mut client, mut server, at_client, at_server) = connected(now, 10_000);

    let connection = client.endpoint.connection_mut(at_client).unwrap();
    let id = connection.open_uni().unwrap();
    connection.get_send_stream_mut(id).unwrap().write(b"abc");
    talk(&mut client, &mut server, now);
    let connection = client.endpoint.connection_mut(at_client).unwrap();
    connection.get_send_stream_mut(id).unwrap().write(b"never sent");
    assert!(connection.reset_stream(id, VarInt::from_u32(3)).is_ok());
    assert!(connection.get_send_stream(id).is_none());
    server.reports.clear();
    talk(&mut client, &mut server, now);
    assert!(matches!(
        server.reports[0],
        EndpointCallback::ClosedReceiveStream { stream_id, .. } if stream_id == id
    ));
    let connection = server.endpoint.connection_mut(at_server).unwrap();
    assert_eq!(connection.get_receive_stream_mut(id).unwrap().read().as_ref(), b"abc");
    talk(&mut client, &mut server, now);
    assert!(matches!(
        server.reports[1],
        EndpointCallback::FinishedReceiveStream { stream_id, .. } if stream_id == id
    ));
}

#[test]
fn a_stream_that_is_not_open_cannot_be_reset() {
    let now = Instant::now();
    let (mut client, _, at_client, _) = connected(now, 100);
    let connection = client.endpoint.connection_mut(at_client).unwrap();
    assert!(connection.reset_stream(StreamId(2 + 4 * 1000), VarInt::from_u32(0)).is_err());
}

#[test]
fn an_opened_stream_can_be_reset_once() {
    let now = Instant::now();
    let (mut client, _, at_client, _) = connected(now, 100);
    let connection = client.endpoint.connection_mut(at_client).unwrap();
    for id in [connection.open_uni().unwrap(), connection.open_bi().unwrap()] {
        assert!(connection.reset_stream(id, VarInt::from_u32(1)).is_ok());
        assert!(connection.get_send_stream(id).is_none());
        assert!(connection.reset_stream(id, VarInt::from_u32(1)).is_err());
    }
}

#[test]
fn streams_run_out() {
    let now = Instant::now();
    let (mut client, _, at_client, _) = connected(now, 100);
    let connection = client.endpoint.connection_mut(at_client).unwrap();
    let mut opened = Vec::new();
    while let Some(id) = connection.open_uni() {
        assert!(connection.get_send_stream(id).is_some());
        opened.push(id);
        assert!(opened.len() <= 100);
    }
    assert_eq!(opened.len(), 100);
    assert_eq!(opened[0], StreamId(2));
    assert_eq!(opened[1], StreamId(6));
    assert!(connection.open_uni().is_none());
    assert_eq!(connection.open_bi().unwrap(), StreamId(0));
}

#[test]
fn a_message_of_many_datagrams_is_taken_apart() {
    let now = Instant::now();
    let (mut client, mut server, at_client, at_server) = connected(now, 10_000);
    let connection = client.endpoint.connection_mut(at_client).unwrap();
    let id = connection.open_uni().unwrap();
    let data: Vec<u8> = (0..3000u32).map(|i| i as u8).collect();
    connection.get_send_stream_mut(id).unwrap().write(&data);
    step(&mut client, now);

    // the datagrams come in one message, of which only the last may be shorter
    let sent = step(&mut client, now);
    assert!(sent.len() > 1);
    let stride = sent[0].len();
    let mut whole = sent.concat();
    assert!(sent[..sent.len() - 1].iter().all(|datagram| datagram.len() == stride));
    let len = whole.len();
    whole.extend_from_slice(b"what an earlier message left in the buffer");
    let mut responses = Vec::new();
    let message = message(len, stride, CLIENT);
    server.endpoint.handle_message(now, &message, &whole, &mut responses);
    assert!(responses.is_empty());
    step(&mut server, now);
    let connection = server.endpoint.connection_mut(at_server).unwrap();
    assert_eq!(connection.get_receive_stream_mut(id).unwrap().read().as_ref(), &data[..]);
}

#[test]
fn an_empty_message_changes_nothing() {
    let now = Instant::now();
    let mut server = side(Some(configs().0), 100, SERVER);
    let mut responses = Vec::new();
    let message = message(0, 0, CLIENT);
    server.endpoint.handle_message(now, &message, b"", &mut responses);
    assert!(responses.is_empty());
    assert!(server.endpoint.connection_ids().is_empty());
}

#[test]
fn only_a_server_accepts_connections() {
    let now = Instant::now();
    let (server_config, client_config) = configs();
    let mut client = side(None, 100, CLIENT);
    assert!(client.endpoint.connect(now, client_config, &meta(SERVER), "localhost").is_ok());
    let sent = step(&mut client, now);
    assert!(!sent.is_empty());

    let mut idle = side(None, 100, SERVER);
    deliver(&mut idle, &sent, CLIENT, now);
    assert!(idle.endpoint.connection_ids().is_empty());

    let mut server = side(Some(server_config), 100, SERVER);
    assert!(deliver(&mut server, &sent, CLIENT, now).is_empty());
    assert_eq!(server.endpoint.connection_ids().len(), 1);
}

#[test]
fn handles_tell_connections_apart() {
    let now = Instant::now();
    let (server_config, client_config) = configs();
    let mut server = side(Some(server_config), 100, SERVER);
    let mut client = side(None, 100, CLIENT);
    for _ in 0..3 {
        assert!(client
            .endpoint
            .connect(now, client_config.clone(), &meta(SERVER), "localhost")
            .is_ok());
    }
    talk(&mut client, &mut server, now);
    let mut ids = client.endpoint.connection_ids();
    ids.sort();
    ids.dedup();
    assert_eq!(ids.len(), 3);
    assert_eq!(server.endpoint.connection_ids().len(), 3);
    assert_eq!(client.reports.len(), 3);
    assert_eq!(server.reports.len(), 3);
}

#[test]
fn an_invalid_address_cannot_be_connected_to() {
    let now = Instant::now();
    let mut client = side(None, 100, CLIENT);
    let result = client.endpoint.connect(now, configs().1, &meta("127.0.0.1:0"), "localhost");
    assert!(matches!(result, Err(quinn_proto::ConnectError::InvalidRemoteAddress(_))));
    let result = client.endpoint.connect(now, configs().1, &meta(SERVER), "not a name");
    assert!(matches!(result, Err(quinn_proto::ConnectError::InvalidServerName(_))));
    assert!(client.endpoint.connection_ids().is_empty());
}

/// An initial packet of a version that does not exist.
fn unknown_version() -> Vec<u8> {
    let mut packet = vec![0xc0, 0xfa, 0xce, 0xb0, 0x0c, 8, 1, 2, 3, 4, 5, 6, 7, 8, 4, 9, 9, 9, 9];
    packet.resize(1200, 0);
    packet
}

#[test]
fn a_datagram_of_an_unknown_version_is_answered() {
    let now = Instant::now();
    let mut server = side(Some(configs().0), 100, SERVER);
    let responses = deliver(&mut server, &[unknown_version()], CLIENT, now);
    assert_eq!(responses.len(), 1);
    let udp = udp_transmit(&responses[0].transmit, &responses[0].contents);
    assert_eq!(udp.contents, &responses[0].contents[..]);
    assert_eq!(udp.route.destination, CLIENT.parse().unwrap());
    // the answer has version 0, and goes back to the one who sent the datagram
    assert_eq!(&udp.contents[1..5], &[0, 0, 0, 0]);
    assert_eq!(&udp.contents[5..10], &[4, 9, 9, 9, 9]);

    // an endpoint that is no server does not answer
    let mut idle = side(None, 100, SERVER);
    assert!(deliver(&mut idle, &[unknown_version()], CLIENT, now).is_empty());
}

/// A peer that uses the protocol directly.
struct Raw {
    endpoint: quinn_proto::Endpoint,
    connection: Option<(quinn_proto::ConnectionHandle, quinn_proto::Connection)>,
}

fn raw(config: &Arc<quinn_proto::EndpointConfig>, server_config: &ServerConfig) -> Raw {
    let server_config = Some(Arc::new(server_config.clone()));
    Raw {
        endpoint: quinn_proto::Endpoint::new(config.clone(), server_config, false, None),
        connection: None,
    }
}

fn raw_config() -> Arc<quinn_proto::EndpointConfig> {
    let mut config = quinn_proto::EndpointConfig::default();
    config.cid_generator(|| Box::new(quinn_proto::RandomConnectionIdGenerator::new(8)));
    Arc::new(config)
}

/// Takes in datagrams, and gives those that are to be sent.
fn raw_step(raw: &mut Raw, datagrams: &[Vec<u8>], now: Instant) -> Vec<Vec<u8>> {
    let mut sent = Vec::new();
    for datagram in datagrams {
        let mut buffer = Vec::new();
        let from = CLIENT.parse().unwrap();
        let data = datagram.as_slice().into();
        match raw.endpoint.handle(now, from, None, None, data, &mut buffer) {
            Some(quinn_proto::DatagramEvent::NewConnection(incoming)) => {
                let mut buffer = Vec::new();
                raw.connection =
                    Some(raw.endpoint.accept(incoming, now, &mut buffer, None).unwrap());
            }
            Some(quinn_proto::DatagramEvent::ConnectionEvent(_, event)) => {
                raw.connection.as_mut().unwrap().1.handle_event(event);
            }
            Some(quinn_proto::DatagramEvent::Response(transmit)) => {
                sent.push(buffer[..transmit.size].to_vec());
            }
            None => {}
        }
    }
    if let Some((handle, connection)) = &mut raw.connection {
        while let Some(event) = connection.poll_endpoint_events() {
            if let Some(event) = raw.endpoint.handle_event(*handle, event) {
                connection.handle_event(event);
            }
        }
        while connection.poll().is_some() {}
        let mut buffer = Vec::new();
        while let Some(transmit) = connection.poll_transmit(now, 1, &mut buffer) {
            sent.push(buffer[..transmit.size].to_vec());
            buffer.clear();
        }
    }
    sent
}

fn raw_talk(client: &mut Side, peer: &mut Raw, now: Instant) {
    for _ in 0..12 {
        let sent = step(client, now);
        let answers = raw_step(peer, &sent, now);
        assert!(deliver(client, &answers, SERVER, now).is_empty());
    }
}

#[test]
fn a_stream_that_the_peer_stops_is_removed_and_reported() {
    let now = Instant::now();
    let (server_config, client_config) = configs();
    let mut peer = raw(&raw_config(), &server_config);
    let mut client = side(None, 100, CLIENT);
    assert!(client.endpoint.connect(now, client_config, &meta(SERVER), "localhost").is_ok());
    raw_talk(&mut client, &mut peer, now);
    let at_client = client.endpoint.connection_ids()[0];

    let connection = client.endpoint.connection_mut(at_client).unwrap();
    let id = connection.open_uni().unwrap();
    connection.get_send_stream_mut(id).unwrap().write(b"abc");
    raw_talk(&mut client, &mut peer, now);
    client.reports.clear();

    let connection = &mut peer.connection.as_mut().unwrap().1;
    let stream = connection.streams().accept(quinn_proto::Dir::Uni).unwrap();
    assert_eq!(u64::from(stream), id.0);
    connection.recv_stream(stream).stop(VarInt::from_u32(42)).unwrap();
    raw_talk(&mut client, &mut peer, now);
    assert!(matches!(
        client.reports[..],
        [EndpointCallback::ClosedSendStream { stream_id, error_code, connection_handle }]
            if stream_id == id && error_code == VarInt::from_u32(42)
                && connection_handle == at_client.0
    ));
    assert!(client.endpoint.connection(at_client).unwrap().get_send_stream(id).is_none());
    assert!(client.failures.is_empty());
}

#[test]
fn a_drained_connection_is_removed() {
    let now = Instant::now();
    let (server_config, client_config) = configs();
    let config = raw_config();
    let mut peer = raw(&config, &server_config);
    let mut client = side(None, 100, CLIENT);
    assert!(client.endpoint.connect(now, client_config, &meta(SERVER), "localhost").is_ok());
    raw_talk(&mut client, &mut peer, now);
    let id = client.endpoint.connection_ids()[0];
    assert_eq!(client.drained, 0);

    // the peer has been started anew, and does not know the connection any more
    let mut peer = raw(&config, &server_config);
    let connection = client.endpoint.connection_mut(id).unwrap();
    let stream = connection.open_uni().unwrap();
    connection.get_send_stream_mut(stream).unwrap().write(b"are you there?");
    client.reports.clear();
    raw_talk(&mut client, &mut peer, now);
    assert_eq!(client.drained, 1);
    assert!(client.failures.is_empty());
    assert!(client.endpoint.connection(id).is_none());
    assert!(client.endpoint.connection_ids().is_empty());
    assert!(client.endpoint.update_connection(id, now, &mut client.reports).is_none());
    assert!(client.reports.is_empty());
}

#[test]
fn a_datagram_for_a_connection_that_is_not_held_is_an_error() {
    let now = Instant::now();
    let (server_config, client_config) = configs();
    let mut raw = raw(&raw_config(), &server_config).endpoint;
    // a datagram that another endpoint has found to belong to one of its connections
    let mut server = side(None, 100, SERVER);
    let mut other = side(None, 100, CLIENT);
    assert!(other.endpoint.connect(now, client_config, &meta(SERVER), "localhost").is_ok());
    let first = step(&mut other, now);
    let from = CLIENT.parse().unwrap();
    let mut buffer = Vec::new();
    let event = raw.handle(now, from, None, None, first[0].as_slice().into(), &mut buffer);
    let incoming = match event {
        Some(quinn_proto::DatagramEvent::NewConnection(incoming)) => incoming,
        _ => unreachable!(),
    };
    let (handle, _) = raw.accept(incoming, now, &mut buffer, None).unwrap();
    let event = raw.handle(now, from, None, None, first[0].as_slice().into(), &mut buffer);
    let datagram = match event {
        Some(quinn_proto::DatagramEvent::ConnectionEvent(to, event)) => {
            assert_eq!(to, handle);
            bevy_quinn::proto::RoutedDatagram { event }
        }
        _ => unreachable!(),
    };
    let mut responses = Vec::new();
    let result = server.endpoint.on_datagram(
        now,
        Some(DatagramOutcome::Routed(77, datagram)),
        Vec::new(),
        &mut responses,
    );
    assert!(matches!(result, Err(unknown) if unknown.0 == ConnectionId(77)));
    assert!(responses.is_empty());
    assert!(server
        .endpoint
        .on_datagram(now, None, Vec::new(), &mut responses)
        .is_ok());
}

#[test]
fn an_idle_connection_is_removed_once_its_timer_has_run_out() {
    let now = Instant::now();
    let (mut client, _, at_client, _) = connected(now, 100);
    step(&mut client, now + Duration::from_secs(1));
    assert_eq!(client.drained, 0);
    assert!(client.endpoint.connection(at_client).is_some());

    step(&mut client, now + Duration::from_secs(120));
    assert_eq!(client.drained, 1);
    assert!(client.failures.is_empty());
    assert!(client.reports.is_empty());
    assert!(client.endpoint.connection_ids().is_empty());
}

#[test]
fn what_the_peer_does_not_take_stays_buffered() {
    let now = Instant::now();
    let (mut server_config, client_config) = configs();
    let mut transport = quinn_proto::TransportConfig::default();
    transport.stream_receive_window(VarInt::from_u32(3));
    server_config.transport_config(Arc::new(transport));
    let mut peer = raw(&raw_config(), &server_config);
    let mut client = side(None, 100, CLIENT);
    assert!(client.endpoint.connect(now, client_config, &meta(SERVER), "localhost").is_ok());
    raw_talk(&mut client, &mut peer, now);
    let at_client = client.endpoint.connection_ids()[0];
    client.reports.clear();

    let connection = client.endpoint.connection_mut(at_client).unwrap();
    let id = connection.open_uni().unwrap();
    let buffer = connection.get_send_stream_mut(id).unwrap();
    buffer.write(b"12345");
    buffer.finish();
    raw_talk(&mut client, &mut peer, now);
    let connection = client.endpoint.connection(at_client).unwrap();
    assert_eq!(connection.get_send_stream(id).unwrap().bytes_buffered(), 2);

    // once the peer has read what it took, it takes the rest, and the stream goes
    let mut received = Vec::new();
    let connection = &mut peer.connection.as_mut().unwrap().1;
    let stream = connection.streams().accept(quinn_proto::Dir::Uni).unwrap();
    for _ in 0..2 {
        let connection = &mut peer.connection.as_mut().unwrap().1;
        let mut readable = connection.recv_stream(stream);
        let mut chunks = readable.read(true).unwrap();
        while let Ok(Some(chunk)) = chunks.next(usize::MAX) {
            received.extend_from_slice(&chunk.bytes);
        }
        let _ = chunks.finalize();
        raw_talk(&mut client, &mut peer, now);
    }
    assert_eq!(received, b"12345");
    assert!(client.endpoint.connection(at_client).unwrap().get_send_stream(id).is_none());
    assert!(client.reports.is_empty() && client.failures.is_empty());
}

#[test]
fn a_stream_is_reported_closed_once_and_does_not_grow() {
    let now = Instant::now();
    let (mut client, mut server, at_client, at_server) = connected(now, 10_000);
    let connection = client.endpoint.connection_mut(at_client).unwrap();
    let id = connection.open_uni().unwrap();
    let buffer = connection.get_send_stream_mut(id).unwrap();
    buffer.write(b"abc");
    buffer.finish();
    talk(&mut client, &mut server, now);
    assert_eq!(server.reports.len(), 2);
    for _ in 0..3 {
        talk(&mut client, &mut server, now);
        let connection = server.endpoint.connection(at_server).unwrap();
        assert_eq!(connection.get_receive_stream(id).unwrap().len(), 3);
    }
    assert_eq!(server.reports.len(), 2);
    assert!(server.failures.is_empty());
}

#[test]
fn an_attempt_that_is_refused_is_answered() {
    let now = Instant::now();
    let certified = rcgen::generate_simple_self_signed(vec!["localhost".to_string()]).unwrap();
    let certificate = certified.cert.der().clone();
    let key = rustls::pki_types::PrivatePkcs8KeyDer::from(certified.key_pair.serialize_der());
    let provider = Arc::new(rustls::crypto::ring::default_provider());
    let mut crypto = rustls::ServerConfig::builder_with_provider(provider)
        .with_protocol_versions(&[&rustls::version::TLS13])
        .unwrap()
        .with_no_client_auth()
        .with_single_cert(vec![certificate], key.into())
        .unwrap();
    // a protocol that the client does not offer
    crypto.alpn_protocols = vec![b"other".to_vec()];
    let crypto = quinn_proto::crypto::rustls::QuicServerConfig::try_from(crypto).unwrap();
    let mut server = side(Some(ServerConfig::with_crypto(Arc::new(crypto))), 100, SERVER);

    let mut client = side(None, 100, CLIENT);
    assert!(client.endpoint.connect(now, configs().1, &meta(SERVER), "localhost").is_ok());
    let sent = step(&mut client, now);
    let responses = deliver(&mut server, &sent, CLIENT, now);
    assert!(server.endpoint.connection_ids().is_empty());
    assert_eq!(responses.len(), 1);
    assert!(responses[0].transmit.size > 0);
    assert_eq!(responses[0].transmit.size, responses[0].contents.len());
}

#[test]
fn an_update_leaves_the_contents_of_the_last_transmit() {
    let now = Instant::now();
    let (mut client, _, at_client, _) = connected(now, 100);
    let connection = client.endpoint.connection_mut(at_client).unwrap();
    let id = connection.open_uni().unwrap();
    connection.get_send_stream_mut(id).unwrap().write(b"abc");
    step(&mut client, now);
    let connection = client.endpoint.connection_mut(at_client).unwrap();
    let transmit = connection.poll_transmit(now, 1).unwrap();
    let contents = connection.send_buffer().to_vec();
    assert_eq!(contents.len(), transmit.size);

    client.endpoint.update_connection(at_client, now, &mut client.reports);
    let connection = client.endpoint.connection_mut(at_client).unwrap();
    assert!(connection.open_uni().is_some() && connection.open_bi().is_some());
    assert!(connection.reset_stream(id, VarInt::from_u32(0)).is_ok());
    assert_eq!(connection.send_buffer(), &contents[..]);
}

#[test]
fn a_transmit_of_many_datagrams_arrives_as_one_message() {
    let now = Instant::now();
    let (mut client, mut server, at_client, at_server) = connected(now, 100_000);
    let connection = client.endpoint.connection_mut(at_client).unwrap();
    let id = connection.open_uni().unwrap();
    let data: Vec<u8> = (0..5000u32).map(|i| i as u8).collect();
    connection.get_send_stream_mut(id).unwrap().write(&data);
    client.endpoint.update_connection(at_client, now, &mut client.reports);

    let connection = client.endpoint.connection_mut(at_client).unwrap();
    let transmit = connection.poll_transmit(now, 10).unwrap();
    let stride = transmit.segment_size.unwrap();
    assert!(transmit.size > stride && transmit.size <= 10 * stride);
    let udp = udp_transmit(&transmit, connection.send_buffer());
    assert_eq!(udp.segment_size, Some(stride));
    let mut responses = Vec::new();
    let message = message(udp.contents.len(), stride, CLIENT);
    server.endpoint.handle_message(now, &message, udp.contents, &mut responses);
    assert!(responses.is_empty());
    server.endpoint.update_connection(at_server, now, &mut server.reports);
    // nothing but the stream that was opened is reported
    assert!(matches!(
        server.reports[..],
        [EndpointCallback::OpenedReceiveStream { stream_id, .. }] if stream_id == id
    ));
    let connection = server.endpoint.connection_mut(at_server).unwrap();
    assert_eq!(connection.get_receive_stream_mut(id).unwrap().read().as_ref(), &data[..]);
}
