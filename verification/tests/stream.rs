use bytes::Bytes;
use sctp::association::state::AssociationState;
use sctp::association::Association;
use sctp::chunk::{ChunkPayloadData, PayloadProtocolIdentifier};
use sctp::config::TransportConfig;
use sctp::queue::reassembly_queue::{Chunks, ReassemblyQueue};
use sctp::shared::Side;
use sctp::stream::{ReliabilityType, StreamState};
use sctp::Error;

fn established(streams: &[u16]) -> Association {
    let mut a = Association::from_numbers(Side::Client, &TransportConfig::default(), 1, 7);
    a.set_state(AssociationState::Established);
    for id in streams {
        assert!(a.open_stream(*id, PayloadProtocolIdentifier::Binary).is_ok());
    }
    a
}

fn message(n: usize) -> Bytes {
    Bytes::from((0..n).map(|i| (i * 7 % 251) as u8).collect::<Vec<u8>>())
}

fn take_all(chunks: Option<Chunks>) -> Vec<u8> {
    let mut chunks = chunks.expect("a message");
    let mut all = Vec::new();
    while let Some(chunk) = chunks.next(usize::MAX) {
        all.extend_from_slice(&chunk.bytes);
    }
    all
}

fn numbered(chunks: Vec<ChunkPayloadData>, first: u32) -> Vec<ChunkPayloadData> {
    chunks
        .into_iter()
        .enumerate()
        .map(|(i, mut c)| {
            c.tsn = first.wrapping_add(i as u32);
            c
        })
        .collect()
}

fn sender(unordered: bool) -> StreamState {
    let mut s = StreamState::new(Side::Client, 3, 100, PayloadProtocolIdentifier::Binary);
    s.set_reliability_params(unordered, ReliabilityType::Reliable, 0);
    s
}

#[test]
fn packetize_cuts_a_message_into_full_fragments() {
    let mut s = sender(false);
    let raw = message(250);
    let chunks = s.packetize(&raw, PayloadProtocolIdentifier::Binary);
    let sizes: Vec<usize> = chunks.iter().map(|c| c.user_data.len()).collect();
    assert_eq!(sizes, vec![100, 100, 50]);
    assert!(chunks[0].beginning_fragment && !chunks[0].ending_fragment);
    assert!(!chunks[1].beginning_fragment && !chunks[1].ending_fragment);
    assert!(!chunks[2].beginning_fragment && chunks[2].ending_fragment);
    assert!(chunks.iter().all(|c| c.stream_identifier == 3 && c.stream_sequence_number == 0));
    assert_eq!(s.sequence_number, 1);
    assert_eq!(s.buffered_amount(), 250);
    let joined: Vec<u8> = chunks.iter().flat_map(|c| c.user_data.to_vec()).collect();
    assert_eq!(joined, raw.to_vec());
}

#[test]
fn packetize_ends_a_message_that_fills_its_fragments() {
    let chunks = sender(false).packetize(&message(200), PayloadProtocolIdentifier::Binary);
    assert_eq!(chunks.len(), 2);
    assert!(chunks[1].ending_fragment && !chunks[0].ending_fragment);
}

#[test]
fn packetize_of_nothing_takes_a_sequence_number_only() {
    let mut s = sender(false);
    assert!(s.packetize(&Bytes::new(), PayloadProtocolIdentifier::Binary).is_empty());
    assert_eq!(s.sequence_number, 1);
    assert_eq!(s.buffered_amount(), 0);
}

#[test]
fn unordered_messages_take_no_sequence_number_but_dcep_does() {
    let mut s = sender(true);
    let plain = s.packetize(&message(10), PayloadProtocolIdentifier::String);
    assert!(plain[0].unordered);
    assert_eq!(s.sequence_number, 0);
    let dcep = s.packetize(&message(10), PayloadProtocolIdentifier::Dcep);
    assert!(!dcep[0].unordered);
    assert_eq!(s.sequence_number, 1);
}

#[test]
fn sequence_numbers_start_over() {
    let mut s = sender(false);
    s.sequence_number = u16::MAX;
    s.packetize(&message(1), PayloadProtocolIdentifier::Binary);
    assert_eq!(s.sequence_number, 0);
}

#[test]
fn written_is_read_in_any_order_of_arrival() {
    let raw = message(450);
    for order in [
        vec![0usize, 1, 2, 3, 4],
        vec![4, 3, 2, 1, 0],
        vec![2, 0, 4, 1, 3],
        vec![1, 1, 0, 4, 0, 3, 2, 2],
    ] {
        let mut s = sender(false);
        let chunks = numbered(s.packetize(&raw, PayloadProtocolIdentifier::Binary), u32::MAX - 1);
        let mut receiver = StreamState::new(Side::Server, 3, 100, PayloadProtocolIdentifier::Binary);
        for i in &order {
            receiver.handle_data(&chunks[*i]);
        }
        assert_eq!(receiver.get_num_bytes_in_reassembly_queue(), 450);
        assert_eq!(take_all(receiver.reassembly_queue.read()), raw.to_vec());
        assert_eq!(receiver.reassembly_queue.next_ssn, 1);
        assert_eq!(receiver.get_num_bytes_in_reassembly_queue(), 0);
        assert!(receiver.reassembly_queue.read().is_none());
    }
}

#[test]
fn written_is_read_unordered_in_any_order_of_arrival() {
    let raw = message(350);
    for order in [vec![0usize, 1, 2, 3], vec![3, 2, 1, 0], vec![2, 0, 3, 1]] {
        let mut s = sender(true);
        let chunks = numbered(s.packetize(&raw, PayloadProtocolIdentifier::Binary), 77);
        let mut q = ReassemblyQueue::new(3);
        let (last, first) = order.split_last().unwrap();
        for i in first {
            assert!(!q.push(chunks[*i].clone()));
        }
        assert!(q.push(chunks[*last].clone()));
        assert_eq!(take_all(q.read()), raw.to_vec());
        assert_eq!(q.get_num_bytes(), 0);
    }
}

#[test]
fn ordered_messages_wait_for_their_turn() {
    let mut s = sender(false);
    let one = numbered(s.packetize(&message(20), PayloadProtocolIdentifier::Binary), 10);
    let two = numbered(s.packetize(&message(30), PayloadProtocolIdentifier::Binary), 11);
    let mut q = ReassemblyQueue::new(3);
    q.push(two[0].clone());
    assert!(q.read().is_none());
    q.push(one[0].clone());
    assert_eq!(take_all(q.read()).len(), 20);
    assert_eq!(take_all(q.read()).len(), 30);
}

#[test]
fn chunks_of_other_streams_and_of_the_past_are_not_stored() {
    let mut s = sender(false);
    let one = numbered(s.packetize(&message(20), PayloadProtocolIdentifier::Binary), 10);
    let mut q = ReassemblyQueue::new(4);
    assert!(!q.push(one[0].clone()));
    assert_eq!(q.get_num_bytes(), 0);
    let mut q = ReassemblyQueue::new(3);
    q.next_ssn = 1;
    assert!(!q.push(one[0].clone()));
    assert_eq!(q.get_num_bytes(), 0);
}

#[test]
fn skipped_messages_are_dropped() {
    let mut s = sender(false);
    let one = numbered(s.packetize(&message(150), PayloadProtocolIdentifier::Binary), 10);
    let two = numbered(s.packetize(&message(30), PayloadProtocolIdentifier::Binary), 12);
    let mut receiver = StreamState::new(Side::Server, 3, 100, PayloadProtocolIdentifier::Binary);
    receiver.handle_data(&one[0]);
    receiver.handle_data(&two[0]);
    receiver.handle_forward_tsn_for_unordered(11);
    assert_eq!(receiver.get_num_bytes_in_reassembly_queue(), 130);
    receiver.handle_forward_tsn_for_ordered(0);
    assert_eq!(receiver.get_num_bytes_in_reassembly_queue(), 30);
    assert_eq!(take_all(receiver.reassembly_queue.read()).len(), 30);
}

#[test]
fn skipped_unordered_fragments_are_dropped() {
    let mut s = sender(true);
    let one = numbered(s.packetize(&message(150), PayloadProtocolIdentifier::Binary), 10);
    let mut receiver = StreamState::new(Side::Server, 3, 100, PayloadProtocolIdentifier::Binary);
    receiver.set_reliability_params(true, ReliabilityType::Timed, 10);
    receiver.handle_data(&one[0]);
    receiver.handle_forward_tsn_for_ordered(5);
    assert_eq!(receiver.get_num_bytes_in_reassembly_queue(), 100);
    receiver.handle_forward_tsn_for_unordered(10);
    assert_eq!(receiver.get_num_bytes_in_reassembly_queue(), 0);
}

#[test]
fn delivery_frees_the_buffer() {
    let mut s = sender(false);
    s.packetize(&message(250), PayloadProtocolIdentifier::Binary);
    s.on_buffer_released(-5);
    assert_eq!(s.buffered_amount(), 250);
    s.on_buffer_released(100);
    assert_eq!(s.buffered_amount(), 150);
    s.on_buffer_released(1000);
    assert_eq!(s.buffered_amount(), 0);
}

#[test]
fn thresholds_and_types_are_kept() {
    let mut s = sender(false);
    assert_eq!(s.stream_identifier(), 3);
    assert_eq!(s.buffered_amount_low_threshold(), 0);
    s.set_buffered_amount_low_threshold(64);
    assert_eq!(s.buffered_amount_low_threshold(), 64);
    s.set_default_payload_type(PayloadProtocolIdentifier::String);
    assert_eq!(s.default_payload_type, PayloadProtocolIdentifier::String);
}

#[test]
fn reliability_types_have_numbers_and_names() {
    assert_eq!(ReliabilityType::from(0u8), ReliabilityType::Reliable);
    assert_eq!(ReliabilityType::from(1u8), ReliabilityType::Rexmit);
    assert_eq!(ReliabilityType::from(2u8), ReliabilityType::Timed);
    assert_eq!(ReliabilityType::from(9u8), ReliabilityType::Reliable);
    assert_eq!(ReliabilityType::default(), ReliabilityType::Reliable);
    assert_eq!(ReliabilityType::Rexmit.as_str(), "Rexmit");
    assert_eq!(ReliabilityType::Timed.as_str(), "Timed");
    assert_eq!(ReliabilityType::Reliable.as_str(), "Reliable");
}

#[test]
fn a_write_queues_its_fragments() {
    let mut a = established(&[5]);
    a.awake_write_loop_ch = Some(false);
    let raw = message(3000);
    assert_eq!(a.stream(5).unwrap().write(&raw), Ok(3000));
    let sizes: Vec<usize> = a.pending_queue.iter().map(|c| c.user_data.len()).collect();
    assert_eq!(sizes, vec![1200, 1200, 600]);
    assert!(a.pending_queue.iter().all(|c| c.payload_type == PayloadProtocolIdentifier::Binary));
    assert_eq!(a.awake_write_loop_ch, Some(true));
}

#[test]
fn a_write_takes_the_type_that_it_is_given() {
    let mut a = established(&[5]);
    let r = a.stream(5).unwrap().write_sctp(&message(3), PayloadProtocolIdentifier::String);
    assert_eq!(r, Ok(3));
    assert_eq!(a.pending_queue[0].payload_type, PayloadProtocolIdentifier::String);
}

#[test]
fn too_large_messages_are_refused() {
    let mut a = established(&[5]);
    a.set_max_message_size(10);
    assert_eq!(a.max_message_size(), 10);
    let r = a.stream(5).unwrap().write(&message(11));
    assert_eq!(r, Err(Error::ErrOutboundPacketTooLarge));
    assert!(a.pending_queue.is_empty());
    assert_eq!(a.stream(5).unwrap().write(&message(10)), Ok(10));
}

#[test]
fn an_association_that_goes_down_takes_no_data() {
    for state in [
        AssociationState::ShutdownPending,
        AssociationState::ShutdownSent,
        AssociationState::ShutdownReceived,
        AssociationState::ShutdownAckSent,
    ] {
        let mut a = established(&[5]);
        a.set_state(state);
        assert_eq!(a.stream(5).unwrap().write(&message(1)), Err(Error::ErrStreamClosed));
        assert!(a.pending_queue.is_empty());
    }
}

#[test]
fn an_association_that_is_not_set_up_takes_no_data() {
    let mut a = established(&[5]);
    a.set_state(AssociationState::CookieWait);
    let r = a.stream(5).unwrap().write(&message(1));
    assert_eq!(r, Err(Error::ErrPayloadDataStateNotExist));
    assert!(a.pending_queue.is_empty());
    assert_eq!(a.stream(5).unwrap().close(), Err(Error::ErrResetPacketInStateNotExist));
    assert!(a.stream(5).unwrap().is_closed());
}

#[test]
fn chunks_are_written_up_to_the_first_that_fails() {
    let mut a = established(&[5]);
    a.set_max_message_size(10);
    let mut bufs = [message(4), message(10), message(11), message(2)];
    assert_eq!(a.stream(5).unwrap().write_chunks(&mut bufs, 0), Ok(2));
    assert!(bufs[0].is_empty() && bufs[1].is_empty());
    assert_eq!(bufs[2].len(), 11);
    assert_eq!(bufs[3].len(), 2);
    assert_eq!(a.pending_queue.len(), 2);
    let r = a.stream(5).unwrap().write_chunks(&mut bufs, 2);
    assert_eq!(r, Err(Error::ErrOutboundPacketTooLarge));
    assert_eq!(a.stream(5).unwrap().write_chunks(&mut bufs, 3), Ok(1));
    assert_eq!(a.stream(5).unwrap().write_chunks(&mut bufs, 4), Ok(0));
}

#[test]
fn closing_asks_for_a_reset_once() {
    let mut a = established(&[5]);
    assert_eq!(a.stream(5).unwrap().close(), Ok(()));
    assert_eq!(a.pending_queue.len(), 1);
    assert!(a.pending_queue[0].beginning_fragment && a.pending_queue[0].ending_fragment);
    assert!(a.pending_queue[0].user_data.is_empty());
    assert_eq!(a.pending_queue[0].stream_identifier, 5);
    assert_eq!(a.stream(5).unwrap().close(), Ok(()));
    assert_eq!(a.pending_queue.len(), 1);
}

#[test]
fn a_closed_stream_is_neither_read_nor_written() {
    let mut a = established(&[5]);
    assert!(matches!(a.stream(5).unwrap().read(), Ok(None)));
    a.stream(5).unwrap().close().unwrap();
    assert!(matches!(a.stream(5).unwrap().read(), Err(Error::ErrStreamClosed)));
    assert!(matches!(a.stream(5).unwrap().read_sctp(), Err(Error::ErrStreamClosed)));
    assert_eq!(a.stream(5).unwrap().write(&message(1)), Err(Error::ErrStreamClosed));
    assert_eq!(a.pending_queue.len(), 1);
}

#[test]
fn the_state_of_a_stream_can_be_changed() {
    let mut a = established(&[5]);
    let mut s = a.stream(5).unwrap();
    assert_eq!(s.state().stream_identifier(), 5);
    s.state_mut().set_default_payload_type(PayloadProtocolIdentifier::Dcep);
    assert_eq!(s.state().default_payload_type, PayloadProtocolIdentifier::Dcep);
    s.write(&message(2)).unwrap();
    assert_eq!(a.pending_queue[0].payload_type, PayloadProtocolIdentifier::Dcep);
}

#[test]
fn a_message_is_taken_in_pieces() {
    let mut s = sender(false);
    let raw = message(250);
    let chunks = numbered(s.packetize(&raw, PayloadProtocolIdentifier::Binary), 1);
    let mut set = Chunks::new(0, PayloadProtocolIdentifier::Binary, chunks);
    assert!(set.is_complete());
    assert_eq!(set.len(), 250);
    let a = set.next(60).unwrap();
    let b = set.next(100).unwrap();
    let c = set.next(1000).unwrap();
    assert!(set.next(10).is_none());
    assert_eq!([&a.bytes[..], &b.bytes[..], &c.bytes[..]].concat(), raw.to_vec());
    assert_eq!((a.bytes.len(), b.bytes.len(), c.bytes.len()), (60, 100, 90));
}

#[test]
fn a_message_crosses_between_associations() {
    let mut a = established(&[5]);
    let mut b = established(&[5]);
    let raw = message(3000);
    assert_eq!(a.stream(5).unwrap().write(&raw), Ok(3000));
    let chunks = numbered(a.pending_queue.drain(..).collect(), u32::MAX);
    for i in [2usize, 0, 1] {
        b.streams.get_mut(&5).unwrap().handle_data(&chunks[i]);
    }
    assert_eq!(take_all(b.stream(5).unwrap().read().unwrap()), raw.to_vec());
    assert!(b.stream(5).unwrap().read().unwrap().is_none());
}
