use bytes::Bytes;
use sctp::association::internal::RtxTimerId;
use sctp::association::loops::{ReadAction, ReadEvent, ReadState, WriteAction, WriteEvent, WriteState};
use sctp::association::state::{AckState, AssociationState};
use sctp::association::timer::{Timer, TimerTable};
use sctp::association::{Association, Event};
use sctp::chunk::{ChunkPayloadData, PayloadProtocolIdentifier};
use sctp::config::TransportConfig;
use sctp::packet::{ChunkCookieEcho, PacketChunk, CT_FORWARD_TSN, CT_RECONFIG};
use sctp::shared::{EndpointEvent, IpAddr, Payload, Side, SocketAddr, Transmit};
use sctp::{sna16gt, sna16lt, sna16lte, sna32gt, sna32lt, sna32lte, Error, Instant};

fn at(nanos: u64) -> Instant {
    Instant { nanos }
}

fn new_association(side: Side) -> Association {
    Association::from_numbers(side, &TransportConfig::default(), 1000, 42)
}

fn established_with(streams: &[u16]) -> Association {
    let mut a = new_association(Side::Client);
    a.set_state(AssociationState::Established);
    for id in streams {
        assert!(a.open_stream(*id, PayloadProtocolIdentifier::Binary).is_ok());
    }
    a
}

fn in_flight(tsn: u32, stream_identifier: u16) -> ChunkPayloadData {
    ChunkPayloadData {
        tsn,
        stream_identifier,
        user_data: Bytes::from_static(b"data"),
        ..ChunkPayloadData::default()
    }
}

fn transmit() -> Transmit {
    Transmit {
        now: at(1),
        remote: SocketAddr::new(IpAddr::V4(0x7f00_0001), 5000),
        ecn: None,
        local_ip: None,
        payload: Payload::RawEncode(vec![Bytes::from_static(b"raw")]),
    }
}

#[test]
fn serial_numbers_wrap() {
    assert!(sna32lt(u32::MAX, 0));
    assert!(sna32gt(0, u32::MAX));
    assert!(!sna32lt(5, 5) && sna32lte(5, 5) && !sna32gt(5, 5));
    assert!(sna32lt(0, 0x7fff_ffff) && !sna32lt(0, 0x8000_0000));
    assert!(sna32gt(0, 0x8000_0000));
    assert!(sna16lt(u16::MAX, 0) && sna16gt(0, u16::MAX) && sna16lte(7, 7));
    assert!(!sna16lt(0, 0x8000) && sna16gt(0, 0x8000));
}

#[test]
fn a_client_starts_with_an_init() {
    let a = new_association(Side::Client);
    assert_eq!(a.get_state(), AssociationState::CookieWait);
    assert_eq!(a.control_queue.len(), 1);
    let packet = &a.control_queue[0];
    assert_eq!((packet.source_port, packet.destination_port), (5000, 5000));
    assert_eq!(packet.verification_tag, 0);
    match &packet.chunks[0] {
        PacketChunk::Init(init) => {
            assert_eq!(init.initiate_tag, 42);
            assert_eq!(init.initial_tsn, 1000);
            assert_eq!(init.supported_extensions, vec![CT_RECONFIG, CT_FORWARD_TSN]);
        }
        _ => panic!("an INIT chunk"),
    }
    assert_eq!(a.cumulative_tsn_ack_point, 999);
    assert_eq!(a.cwnd, 4380);
    assert_eq!(a.max_payload_size, 1200);
}

#[test]
fn a_server_waits() {
    let a = new_association(Side::Server);
    assert_eq!(a.get_state(), AssociationState::Closed);
    assert!(a.control_queue.is_empty());
    assert_eq!((a.bytes_sent(), a.bytes_received()), (0, 0));
}

#[test]
fn the_first_number_is_not_zero() {
    let a = Association::from_numbers(Side::Server, &TransportConfig::default(), 0, 1);
    assert_eq!(a.my_next_tsn, 1);
    assert_eq!(a.cumulative_tsn_ack_point, 0);
}

#[test]
fn init_goes_out_once_and_cookie_echo_as_often_as_need_be() {
    let mut a = new_association(Side::Client);
    assert_eq!(a.send_init(), Err(Error::ErrInitNotStoredToSend));
    assert_eq!(a.control_queue.len(), 1);
    assert_eq!(a.send_cookie_echo(), Err(Error::ErrCookieEchoNotStoredToSend));
    a.stored_cookie_echo = Some(ChunkCookieEcho { cookie: Bytes::from_static(b"cookie") });
    assert_eq!(a.send_cookie_echo(), Ok(()));
    assert_eq!(a.send_cookie_echo(), Ok(()));
    assert_eq!(a.control_queue.len(), 3);
    match &a.control_queue[2].chunks[0] {
        PacketChunk::CookieEcho(echo) => assert_eq!(&echo.cookie[..], b"cookie"),
        _ => panic!("a COOKIE-ECHO chunk"),
    }
}

#[test]
fn streams_open_once() {
    let mut a = established_with(&[1]);
    assert!(matches!(
        a.open_stream(1, PayloadProtocolIdentifier::String),
        Err(Error::ErrStreamAlreadyExist)
    ));
    assert!(matches!(a.stream(2), Err(Error::ErrStreamNotExisted)));
    let s = a.open_stream(2, PayloadProtocolIdentifier::String).unwrap();
    assert_eq!(s.state().default_payload_type, PayloadProtocolIdentifier::String);
    let mut ids = a.stream_identifiers();
    ids.sort();
    assert_eq!(ids, vec![1, 2]);
}

#[test]
fn closing_an_association_puts_it_to_rest() {
    let mut a = established_with(&[1, 2, 3]);
    a.loops_open = true;
    a.timers.set(Timer::T3RTX, at(5));
    assert_eq!(a.close(), Ok(()));
    assert_eq!(a.get_state(), AssociationState::Closed);
    assert!(a.streams.is_empty() && !a.loops_open && a.is_idle());
    assert_eq!(a.retired.len(), 3);
    assert!(a.retired.iter().all(|s| s.closed));
    assert_eq!(a.close(), Ok(()));
    assert_eq!(a.retired.len(), 3);
}

#[test]
fn unregistering_puts_a_stream_aside() {
    let mut a = established_with(&[1, 2]);
    a.unregister_stream(9);
    assert_eq!((a.streams.len(), a.retired.len()), (2, 0));
    a.unregister_stream(1);
    assert_eq!((a.streams.len(), a.retired.len()), (1, 1));
    assert_eq!(a.retired[0].stream_identifier(), 1);
    assert!(a.retired[0].closed);
}

#[test]
fn an_expired_ack_timer_calls_for_an_acknowledgement() {
    let mut a = established_with(&[]);
    a.awake_write_loop_ch = Some(false);
    a.on_ack_timeout();
    assert_eq!(a.ack_state, AckState::Immediate);
    assert_eq!(a.stats.n_ack_timeouts, 1);
    assert_eq!(a.awake_write_loop_ch, Some(true));
}

#[test]
fn an_expired_t3_timer_slows_down() {
    let mut a = established_with(&[1]);
    a.cwnd = 20_000;
    a.use_forward_tsn = true;
    a.cumulative_tsn_ack_point = 999;
    a.advanced_peer_tsn_ack_point = 999;
    let mut gone = in_flight(1000, 1);
    gone.abandoned = true;
    gone.all_inflight = true;
    let mut there = in_flight(1001, 1);
    there.acked = true;
    a.inflight_queue.push(gone);
    a.inflight_queue.push(there);
    a.inflight_queue.push(in_flight(1002, 1));
    a.on_retransmission_timeout(RtxTimerId::T3RTX, 1);
    assert_eq!(a.ssthresh, 10_000);
    assert_eq!(a.cwnd, a.mtu);
    assert_eq!(a.advanced_peer_tsn_ack_point, 1000);
    assert!(a.will_send_forward_tsn);
    assert!(!a.inflight_queue.get(1000).unwrap().retransmit);
    assert!(!a.inflight_queue.get(1001).unwrap().retransmit);
    assert!(a.inflight_queue.get(1002).unwrap().retransmit);
    assert_eq!(a.stats.n_t3timeouts, 1);
}

#[test]
fn a_blank_association_slows_down_as_well() {
    let mut a = Association {
        cwnd: 20_000,
        mtu: 1228,
        advanced_peer_tsn_ack_point: 9,
        ..Association::default()
    };
    a.on_retransmission_timeout(RtxTimerId::T3RTX, 1);
    assert_eq!((a.ssthresh, a.cwnd), (10_000, 1228));
    assert_eq!(a.advanced_peer_tsn_ack_point, 9);
    assert!(!a.will_send_forward_tsn);
}

#[test]
fn the_slow_start_threshold_has_a_floor() {
    let mut a = established_with(&[]);
    a.cwnd = 100;
    a.on_retransmission_timeout(RtxTimerId::T3RTX, 1);
    assert_eq!(a.ssthresh, 4 * a.mtu);
    assert!(!a.will_send_forward_tsn);
}

#[test]
fn the_other_retransmission_timers() {
    let mut a = established_with(&[]);
    a.set_state(AssociationState::ShutdownSent);
    a.on_retransmission_timeout(RtxTimerId::T2Shutdown, 1);
    assert!(a.will_send_shutdown && !a.will_send_shutdown_ack);
    a.set_state(AssociationState::ShutdownAckSent);
    a.on_retransmission_timeout(RtxTimerId::T2Shutdown, 2);
    assert!(a.will_send_shutdown_ack);
    a.on_retransmission_timeout(RtxTimerId::Reconfig, 1);
    assert!(a.will_retransmit_reconfig);
    a.stored_cookie_echo = Some(ChunkCookieEcho { cookie: Bytes::from_static(b"c") });
    let n = a.control_queue.len();
    a.on_retransmission_timeout(RtxTimerId::T1Cookie, 1);
    assert_eq!(a.control_queue.len(), n + 1);
    a.on_retransmission_timeout(RtxTimerId::T1Init, 1);
    assert_eq!(a.control_queue.len(), n + 1);
}

#[test]
fn a_handshake_that_fails_is_reported() {
    let mut a = new_association(Side::Client);
    a.on_retransmission_failure(RtxTimerId::T1Init);
    assert!(a.handshake_completed_ch.is_none());
    a.handshake_completed_ch = Some(Vec::new());
    a.on_retransmission_failure(RtxTimerId::T1Init);
    a.on_retransmission_failure(RtxTimerId::T1Cookie);
    a.on_retransmission_failure(RtxTimerId::T3RTX);
    assert_eq!(
        a.handshake_completed_ch,
        Some(vec![Some(Error::ErrHandshakeInitAck), Some(Error::ErrHandshakeCookieEcho)])
    );
}

#[test]
fn timers_are_kept_apart() {
    let mut t = TimerTable::default();
    assert_eq!(t.next_timeout(), None);
    t.set(Timer::T3RTX, at(30));
    t.set(Timer::Ack, at(20));
    assert_eq!(t.get(Timer::T3RTX), Some(at(30)));
    assert_eq!(t.get(Timer::T1Init), None);
    assert_eq!(t.next_timeout(), Some(at(20)));
    assert!(t.is_expired(Timer::Ack, at(20)) && !t.is_expired(Timer::Ack, at(19)));
    assert!(!t.is_expired(Timer::T1Init, at(1000)));
    t.stop(Timer::Ack);
    assert_eq!(t.next_timeout(), Some(at(30)));
}

#[test]
fn expired_timers_are_looked_after() {
    let mut a = established_with(&[]);
    a.timers.set(Timer::Ack, at(10));
    a.timers.set(Timer::Reconfig, at(20));
    a.timers.set(Timer::T3RTX, at(30));
    assert_eq!(a.poll_timeout(), Some(at(10)));
    a.handle_timeout(at(20));
    assert_eq!(a.ack_state, AckState::Immediate);
    assert!(a.will_retransmit_reconfig);
    assert_eq!(a.stats.n_t3timeouts, 0);
    assert_eq!(a.poll_timeout(), Some(at(30)));
    assert!(!a.is_idle());
}

#[test]
fn what_waits_is_taken_in_order() {
    let mut a = established_with(&[]);
    a.handle_transmit(transmit());
    assert_eq!(a.inbound.len(), 1);
    assert!(a.poll_transmit(at(0)).is_none());
    a.transmits.push_back(transmit());
    assert!(a.poll_transmit(at(0)).is_some());
    a.endpoint_events.push_back(EndpointEvent::drained());
    assert_eq!(a.poll_endpoint_event(), Some(EndpointEvent::drained()));
    assert_eq!(a.poll_endpoint_event(), None);
    a.events.push_back(Event::Connected);
    assert_eq!(a.poll_event(), Some(Event::Connected));
    assert_eq!(a.poll_event(), None);
}

#[test]
fn the_read_loop_counts_and_copies() {
    let mut a = established_with(&[1]);
    a.bytes_received = usize::MAX;
    let buffer = [1u8, 2, 3, 4];
    let (state, action) = a.read_loop(ReadState::Receiving, ReadEvent::Received(&buffer, 3));
    assert_eq!(state, ReadState::Handling);
    match action {
        ReadAction::Handle(raw) => assert_eq!(&raw[..], &[1, 2, 3]),
        _ => panic!("a packet to handle"),
    }
    assert_eq!(a.bytes_received(), 2);
    let (state, action) = a.read_loop(state, ReadEvent::Handled(true));
    assert_eq!(state, ReadState::Receiving);
    assert!(matches!(action, ReadAction::Receive));
    assert_eq!(a.get_state(), AssociationState::Established);
}

#[test]
fn the_read_loop_ends_by_closing() {
    for event in [ReadEvent::Stopped, ReadEvent::Failed] {
        let mut a = established_with(&[1]);
        let (state, action) = a.read_loop(ReadState::Receiving, event);
        assert_eq!(state, ReadState::Exited);
        assert!(matches!(action, ReadAction::Exit));
        assert_eq!(a.get_state(), AssociationState::Closed);
        assert!(a.streams.is_empty());
    }
    let mut a = established_with(&[1]);
    let (state, _) = a.read_loop(ReadState::Handling, ReadEvent::Handled(false));
    assert_eq!(state, ReadState::Exited);
    assert_eq!(a.get_state(), AssociationState::Closed);
}

#[test]
fn the_write_loop_sends_what_was_gathered() {
    let mut a = established_with(&[1]);
    a.awake_write_loop_ch = Some(true);
    let packets = vec![Bytes::from_static(b"one"), Bytes::from_static(b"four")];
    let (state, action) = a.write_loop(WriteState::Gathering, WriteEvent::Gathered(packets, true));
    assert!(matches!(action, WriteAction::Send(raw) if &raw[..] == b"one"));
    let (state, action) = a.write_loop(state, WriteEvent::Sent(true));
    assert!(matches!(action, WriteAction::Send(raw) if &raw[..] == b"four"));
    assert_eq!(a.bytes_sent(), 3);
    let (state, action) = a.write_loop(state, WriteEvent::Sent(true));
    assert_eq!(a.bytes_sent(), 7);
    assert!(matches!(state, WriteState::Waiting) && matches!(action, WriteAction::Wait));
    let (state, action) = a.write_loop(state, WriteEvent::Awake);
    assert!(matches!(state, WriteState::Gathering) && matches!(action, WriteAction::Gather));
    assert_eq!(a.awake_write_loop_ch, Some(false));
}

#[test]
fn the_write_loop_ends_by_closing() {
    let mut a = established_with(&[1]);
    let (state, _) = a.write_loop(
        WriteState::Gathering,
        WriteEvent::Gathered(vec![Bytes::from_static(b"last")], false),
    );
    let (state, action) = a.write_loop(state, WriteEvent::Sent(true));
    assert!(matches!(state, WriteState::Exited) && matches!(action, WriteAction::Exit));
    assert_eq!(a.bytes_sent(), 4);
    assert_eq!(a.get_state(), AssociationState::Closed);

    let mut a = established_with(&[1]);
    let (state, _) = a.write_loop(
        WriteState::Gathering,
        WriteEvent::Gathered(vec![Bytes::from_static(b"lost")], true),
    );
    let (_, action) = a.write_loop(state, WriteEvent::Sent(false));
    assert!(matches!(action, WriteAction::Exit));
    assert_eq!(a.bytes_sent(), 0);

    let mut a = established_with(&[1]);
    let (_, action) = a.write_loop(WriteState::Gathering, WriteEvent::Gathered(vec![], false));
    assert!(matches!(action, WriteAction::Exit));
    let mut a = established_with(&[1]);
    let (_, action) = a.write_loop(WriteState::Gathering, WriteEvent::Gathered(vec![], true));
    assert!(matches!(action, WriteAction::Wait));
    let (_, action) = a.write_loop(WriteState::Waiting, WriteEvent::Stopped);
    assert!(matches!(action, WriteAction::Exit));
    assert_eq!(a.get_state(), AssociationState::Closed);
}

#[test]
fn given_up_data_is_not_sent() {
    let mut a = established_with(&[1, 2]);
    a.stream(1).unwrap().write(&Bytes::from_static(b"mine")).unwrap();
    a.stream(2).unwrap().write(&Bytes::from_static(b"yours")).unwrap();
    a.stream(1).unwrap().close().unwrap();
    a.inflight_queue.push(in_flight(7, 1));
    a.inflight_queue.push(in_flight(8, 2));
    a.give_up_stream(1);
    let left: Vec<(u16, usize)> =
        a.pending_queue.iter().map(|c| (c.stream_identifier, c.user_data.len())).collect();
    assert_eq!(left, vec![(2, 5), (1, 0)]);
    assert_eq!(a.streams[&1].buffered_amount(), 0);
    assert_eq!(a.streams[&2].buffered_amount(), 5);
    a.inflight_queue.mark_all_to_retrasmit();
    assert!(!a.inflight_queue.get(7).unwrap().retransmit);
    assert!(a.inflight_queue.get(8).unwrap().retransmit);
}
