use bytes::{Bytes, BytesMut};
use sctp::association::state::AssociationState;
use sctp::association::timer::Timer;
use sctp::association::{Association, Event};
use sctp::config::{
    client_config, server_config, ClientConfig, EndpointConfig, ServerConfig, TransportConfig,
};
use sctp::endpoint::{AssociationHandle, ConnectError, DatagramEvent, Endpoint};
use sctp::param::{ParamHeader, ParamType, ParamUnknown};
use sctp::shared::{
    AssociationEvent, AssociationEventInner, EcnCodepoint, EndpointEvent, EndpointEventInner,
    IpAddr, IssuedAid, Payload, Side, SocketAddr, Transmit,
};
use sctp::simulation::{min_opt, Pair, TestEndpoint};
use sctp::util::{
    AidGenerator, AidGeneratorFactory, AssociationIdGenerator, CreateAidGenerator,
    RandomAssociationIdGenerator,
};
use sctp::{Error, Instant};
use std::sync::Arc;

/// Yields each number three times.
struct Stutter {
    n: u32,
}

impl AssociationIdGenerator for Stutter {
    fn generate_aid(&mut self) -> u32 {
        self.n += 1;
        self.n / 3
    }
}

struct CreateStutter {}

impl CreateAidGenerator for CreateStutter {
    fn create(&self) -> AidGenerator {
        AidGenerator { generator: Box::new(Stutter { n: 0 }) }
    }
}

fn moment(nanos: u64) -> Instant {
    Instant { nanos }
}

fn host(port: u16) -> SocketAddr {
    SocketAddr::new(IpAddr::V6(1), port)
}

fn stutter_config() -> Arc<EndpointConfig> {
    let mut config = EndpointConfig::new();
    config.aid_generator(AidGeneratorFactory { factory: Box::new(CreateStutter {}) });
    Arc::new(config)
}

fn endpoint() -> Endpoint {
    Endpoint::new(stutter_config(), None)
}

fn connect(e: &mut Endpoint, port: u16) -> Result<(AssociationHandle, Association), ConnectError> {
    e.connect(client_config(), host(port), "localhost", moment(0))
}

fn pair() -> Pair {
    Pair::new(stutter_config(), server_config(), host(44433), host(4433), moment(100))
}

#[test]
fn connecting_enters_an_association() {
    let mut e = endpoint();
    let (ch, conn) = connect(&mut e, 5000).unwrap();
    assert_eq!(conn.get_state(), AssociationState::CookieWait);
    assert_eq!(conn.side, Side::Client);
    assert_eq!(e.connections.len(), 1);
    assert_eq!(e.connections[ch.0].initial_remote, host(5000));
    assert_eq!(e.connections[ch.0].loc_cids.len(), 1);
    let id = e.connections[ch.0].loc_cids[&0];
    assert_eq!(e.connection_ids[&id], ch);
    assert_eq!(usize::from(ch), ch.0);
}

#[test]
fn port_zero_is_no_remote() {
    let mut e = endpoint();
    match connect(&mut e, 0) {
        Err(ConnectError::InvalidRemoteAddress(at)) => assert_eq!(at, host(0)),
        _ => panic!("an invalid address"),
    }
    assert!(e.connections.is_empty() && e.connection_ids.is_empty());
}

#[test]
fn identifiers_are_not_given_out_twice() {
    let mut e = endpoint();
    let mut ids = Vec::new();
    for _ in 0..5 {
        let (ch, _) = connect(&mut e, 5000).unwrap();
        ids.push(e.connections[ch.0].loc_cids[&0]);
    }
    assert_eq!(ids, vec![0, 1, 2, 3, 4]);
}

#[test]
fn more_identifiers_are_issued_on_request() {
    let mut e = endpoint();
    let (ch, _) = connect(&mut e, 5000).unwrap();
    let need = EndpointEvent(EndpointEventInner::NeedIdentifiers(moment(7), 3));
    match e.handle_event(ch, need) {
        Some(AssociationEvent(AssociationEventInner::NewIdentifiers(ids, now))) => {
            assert_eq!(now, moment(7));
            assert_eq!(
                ids,
                vec![
                    IssuedAid { sequence: 1, id: 1 },
                    IssuedAid { sequence: 2, id: 2 },
                    IssuedAid { sequence: 3, id: 3 },
                ]
            );
        }
        _ => panic!("new identifiers"),
    }
    assert_eq!(e.connections[ch.0].cids_issued, 3);
    assert!((0..4).all(|id| e.connection_ids[&id] == ch));
}

#[test]
fn retired_identifiers_lead_nowhere() {
    let mut e = endpoint();
    let (ch, _) = connect(&mut e, 5000).unwrap();
    let retire = |seq, more| {
        EndpointEvent(EndpointEventInner::RetireAssociationId(moment(1), seq, more))
    };
    assert!(e.handle_event(ch, retire(9, true)).is_none());
    assert_eq!(e.connection_ids.len(), 1);
    assert!(e.handle_event(ch, retire(0, false)).is_none());
    assert!(e.connection_ids.is_empty() && e.connections[ch.0].loc_cids.is_empty());
    let need = EndpointEvent(EndpointEventInner::NeedIdentifiers(moment(1), 1));
    assert!(e.handle_event(ch, need).is_some());
    assert!(e.handle_event(ch, retire(1, true)).is_some());
    assert_eq!(e.connections[ch.0].loc_cids.keys().copied().collect::<Vec<u64>>(), vec![2]);
}

#[test]
fn a_drained_association_leaves_no_trace() {
    let mut e = endpoint();
    let (a, _) = connect(&mut e, 5000).unwrap();
    let (b, _) = connect(&mut e, 5001).unwrap();
    let need = EndpointEvent(EndpointEventInner::NeedIdentifiers(moment(1), 2));
    e.handle_event(a, need);
    e.connection_remotes = vec![(host(5000), a), (host(5001), b), (host(5000), b)];
    e.connection_ids_initial.insert(e.connections[a.0].init_cid, a);
    assert!(e.handle_event(a, EndpointEvent::drained()).is_none());
    assert_eq!(e.connections.len(), 1);
    assert_eq!(e.connection_ids.len(), 1);
    assert!(e.connection_ids.values().all(|ch| *ch == b));
    assert!(e.connection_ids_initial.is_empty());
    assert_eq!(e.connection_remotes, vec![(host(5001), b)]);
}

#[test]
fn the_rest_of_an_endpoint() {
    let mut e = Endpoint::new(Arc::new(EndpointConfig::default()), None);
    assert_eq!(e.config().get_max_payload_size(), 1200);
    assert!(e.poll_transmit().is_none());
    e.transmits.push_back(out(host(1), b"x"));
    assert!(e.poll_transmit().is_some());
    assert!(!e.reject_new_connections);
    e.reject_new_connections();
    assert!(e.reject_new_connections);
    e.set_server_config(Some(Arc::new(ServerConfig::new())));
    assert!(e.server_config.is_some());
    let data = BytesMut::from(&b"datagram"[..]);
    assert!(e.handle(moment(0), host(1), None, Some(EcnCodepoint::Ce), data).is_none());
}

#[test]
fn random_generators_are_the_default() {
    let mut g = RandomAssociationIdGenerator::default();
    let draws: Vec<u32> = (0..64).map(|_| g.generate_aid()).collect();
    assert!(draws.iter().any(|d| *d != draws[0]));
    let mut e = Endpoint::new(Arc::new(EndpointConfig::new()), None);
    let (_, a) = connect(&mut e, 1).unwrap();
    let (_, b) = connect(&mut e, 1).unwrap();
    assert!(a.my_verification_tag != b.my_verification_tag || a.my_next_tsn != b.my_next_tsn);
}

#[test]
fn configurations_are_built() {
    let mut t = TransportConfig::default();
    t.max_receive_buffer_size(11).max_message_size(12).max_num_outbound_streams(13);
    t.max_num_inbound_streams(14);
    let a = Association::from_numbers(Side::Server, &t, 5, 6);
    assert_eq!((a.max_receive_buffer_size, a.max_message_size), (11, 12));
    assert_eq!((a.my_max_num_outbound_streams, a.my_max_num_inbound_streams), (13, 14));
    let mut c = EndpointConfig::new();
    c.max_payload_size(77);
    assert_eq!(c.get_max_payload_size(), 77);
    let max = TransportConfig::default().max_message_size;
    assert_eq!(ClientConfig::default().transport.max_message_size, max);
    assert_eq!(ServerConfig::default().transport.max_message_size, max);
}

#[test]
fn parameters_go_round() {
    let p = ParamUnknown { typ: 0x8008, value: Bytes::from_static(b"\x82\xc0") };
    assert_eq!(p.value_length(), 2);
    assert_eq!(
        p.header(),
        ParamHeader { typ: ParamType::Unknown { param_type: 0x8008 }, value_length: 2 }
    );
    let mut buf = BytesMut::from(&b"head"[..]);
    assert_eq!(p.marshal_to(&mut buf), Ok(10));
    assert_eq!(&buf[..], b"head\x80\x08\x00\x06\x82\xc0");
    let mut raw = buf[4..].to_vec();
    raw.extend_from_slice(b"tail");
    assert_eq!(ParamUnknown::unmarshal(&Bytes::from(raw)), Ok(p.clone()));
    assert_eq!(*p.clone_to(), p);
}

#[test]
fn broken_parameters_are_refused() {
    let read = |raw: &'static [u8]| ParamUnknown::unmarshal(&Bytes::from_static(raw)).err();
    assert_eq!(read(b"\x00\x07\x00"), Some(Error::ErrParamHeaderTooShort));
    assert_eq!(
        read(b"\x00\x07\x00\x03"),
        Some(Error::ErrParamHeaderSelfReportedLengthShorter)
    );
    assert_eq!(
        read(b"\x00\x07\x00\x06\x01"),
        Some(Error::ErrParamHeaderSelfReportedLengthLonger)
    );
    assert_eq!(read(b"\x00\x07\x00\x04"), None);
}

fn out(remote: SocketAddr, data: &'static [u8]) -> Transmit {
    Transmit {
        now: moment(0),
        remote,
        ecn: Some(EcnCodepoint::Ect0),
        local_ip: None,
        payload: Payload::RawEncode(vec![Bytes::from_static(data)]),
    }
}

#[test]
fn the_earlier_of_two_times() {
    assert_eq!(min_opt::<Instant>(None, None), None);
    assert_eq!(min_opt(Some(moment(2)), None), Some(moment(2)));
    assert_eq!(min_opt(None, Some(moment(3))), Some(moment(3)));
    assert_eq!(min_opt(Some(moment(2)), Some(moment(3))), Some(moment(2)));
    assert_eq!(min_opt(Some(moment(4)), Some(moment(3))), Some(moment(3)));
    assert_eq!(min_opt(Some(9u8), Some(4)), Some(4));
    assert_eq!(min_opt(Some("b"), Some("a")), min_opt(Some("a"), Some("b")));
    assert!(moment(3) < moment(4) && moment(4).max(moment(3)) == moment(4));
}

#[test]
fn delays_hold_back_and_let_go() {
    let mut t = TestEndpoint::new(endpoint(), host(1));
    t.outbound.push_back(out(host(2), b"one"));
    t.outbound.push_back(out(host(2), b"two"));
    t.delay_outbound();
    assert_eq!((t.outbound.len(), t.delayed.len()), (0, 2));
    t.outbound.push_back(out(host(2), b"three"));
    t.finish_delay();
    assert_eq!((t.outbound.len(), t.delayed.len()), (3, 0));
    let Payload::RawEncode(last) = &t.outbound[2].payload;
    assert_eq!(&last[0][..], b"two");
}

#[test]
fn events_find_their_way() {
    let mut t = TestEndpoint::new(endpoint(), host(1));
    let conn = Association::from_numbers(Side::Server, &TransportConfig::default(), 1, 1);
    t.route(AssociationHandle(3), DatagramEvent::NewAssociation(conn));
    assert_eq!(t.assert_accept(), AssociationHandle(3));
    assert!(t.accepted.is_none());
    let datagram = AssociationEvent(AssociationEventInner::Datagram(out(host(2), b"in")));
    t.route(AssociationHandle(3), DatagramEvent::AssociationEvent(datagram));
    let ids = AssociationEvent(AssociationEventInner::NewIdentifiers(vec![], moment(0)));
    t.route(AssociationHandle(3), DatagramEvent::AssociationEvent(ids));
    t.drive(moment(5), host(2));
    assert!(t.conn_events.is_empty());
    assert_eq!(t.connections[0].1.inbound.len(), 1);
}

#[test]
fn events_are_handed_out_association_by_association() {
    let mut t = TestEndpoint::new(endpoint(), host(1));
    let conn = Association::from_numbers(Side::Server, &TransportConfig::default(), 1, 1);
    t.insert_connection(AssociationHandle(1), conn);
    for (ch, data) in [(2, b"1st"), (1, b"2nd"), (2, b"3rd")] {
        let event = AssociationEvent(AssociationEventInner::Datagram(out(host(2), data)));
        t.route(AssociationHandle(ch), DatagramEvent::AssociationEvent(event));
    }
    let waiting: Vec<(usize, usize)> =
        t.conn_events.iter().map(|(ch, events)| (ch.0, events.len())).collect();
    assert_eq!(waiting, [(2, 2), (1, 1)]);
    t.drive(moment(5), host(2));
    let got: Vec<Bytes> = t.connections[0]
        .1
        .inbound
        .iter()
        .map(|x| {
            let Payload::RawEncode(contents) = &x.payload;
            contents[0].clone()
        })
        .collect();
    assert_eq!(got, ["1st", "3rd", "2nd"]);
}

#[test]
fn a_new_pair_is_quiet() {
    let p = pair();
    for side in [&p.client, &p.server] {
        assert!(side.timeout.is_none() && side.accepted.is_none());
        assert!(side.outbound.is_empty() && side.delayed.is_empty() && side.inbound.is_empty());
        assert!(side.connections.is_empty() && side.conn_events.is_empty());
    }
}

#[test]
fn identifiers_come_from_the_generator() {
    let mut e = endpoint();
    connect(&mut e, 1).unwrap();
    connect(&mut e, 2).unwrap();
    let mut ids: Vec<u32> = e.connection_ids.keys().copied().collect();
    ids.sort_unstable();
    assert_eq!(ids, [0, 1]);
}

#[test]
fn identifiers_are_given_out_as_they_are_drawn() {
    let mut e = endpoint();
    let (ch, _) = connect(&mut e, 1).unwrap();
    let need = EndpointEvent(EndpointEventInner::NeedIdentifiers(moment(0), 3));
    let event = e.handle_event(ch, need).unwrap();
    match event.0 {
        AssociationEventInner::NewIdentifiers(ids, _) => {
            let ids: Vec<(u64, u32)> = ids.iter().map(|i| (i.sequence, i.id)).collect();
            assert_eq!(ids, [(1, 1), (2, 2), (3, 3)]);
        }
        _ => panic!("identifiers"),
    }
}

#[test]
fn driving_serves_timers_and_takes_what_is_ready() {
    let mut t = TestEndpoint::new(endpoint(), host(1));
    let (ch, mut conn) = t.endpoint.connect(client_config(), host(2), "", moment(0)).unwrap();
    conn.timers.set(Timer::Ack, moment(50));
    conn.transmits.push_back(out(host(2), b"conn"));
    conn.endpoint_events
        .push_back(EndpointEvent(EndpointEventInner::NeedIdentifiers(moment(0), 2)));
    t.insert_connection(ch, conn);
    t.endpoint.transmits.push_back(out(host(2), b"endpoint"));
    t.inbound.push_back((moment(3), None, Bytes::from_static(b"due")));
    t.inbound.push_back((moment(9), None, Bytes::from_static(b"later")));
    t.drive(moment(5), host(2));
    assert_eq!(t.inbound.len(), 1);
    assert_eq!(t.outbound.len(), 2);
    assert_eq!(t.endpoint.connection_ids.len(), 3);
    assert_eq!(t.timeout, Some(moment(50)));
    assert_eq!(t.next_wakeup(), Some(moment(9)));
    assert!(!t.is_idle());
    t.drive(moment(50), host(2));
    assert!(t.is_idle() && t.timeout.is_none() && t.next_wakeup().is_none());
    assert_eq!(t.connections[0].1.stats.n_ack_timeouts, 1);
}

#[test]
fn a_pair_connects_and_steps() {
    let mut p = pair();
    let ch = p.begin_connect(client_config());
    assert_eq!(p.client.connections.len(), 1);
    assert!(!p.step().0);
    p.latency = 10;
    let conn = p.client_conn_mut(ch);
    conn.timers.set(Timer::T1Init, moment(250));
    conn.transmits.push_back(out(host(4433), b"to the server"));
    conn.transmits.push_back(out(host(7), b"elsewhere"));
    let (busy, client_sent, server_sent) = p.step();
    assert!(busy);
    assert_eq!(client_sent.len(), 2);
    assert_eq!(client_sent[1], (Bytes::from_static(b"elsewhere"), host(7)));
    assert!(server_sent.is_empty());
    assert_eq!(p.time, moment(110));
    assert!(p.step().0);
    assert_eq!(p.time, moment(250));
    assert!(!p.step().0);
    assert_eq!(p.time, moment(250));
}

#[test]
fn the_server_sends_to_the_client() {
    let mut p = pair();
    p.server.outbound.push_back(out(host(44433), b"to the client"));
    let sent = p.drive_server();
    assert_eq!(sent.len(), 1);
    assert!(p.server.outbound.is_empty());
    assert_eq!(
        p.client.inbound[0],
        (moment(100), Some(EcnCodepoint::Ect0), Bytes::from_static(b"to the client"))
    );
    assert!(p.drive_client().is_empty());
    assert!(p.client.inbound.is_empty());
}

#[test]
fn a_connection_is_finished_when_both_sides_say_so() {
    let mut p = pair();
    let ch = p.begin_connect(client_config());
    let conn = Association::from_numbers(Side::Server, &TransportConfig::default(), 1, 1);
    p.server.insert_connection(AssociationHandle(0), conn);
    assert!(!p.finish_connect(ch, AssociationHandle(0)));
    p.client_conn_mut(ch).events.push_back(Event::Connected);
    p.server_conn_mut(AssociationHandle(0)).events.push_back(Event::Connected);
    assert!(p.finish_connect(ch, AssociationHandle(0)));
    assert!(p.client_conn_mut(ch).events.is_empty());
}
