use bytes::Bytes;
use sctp::association::state::AssociationState;
use sctp::association::{Association, AssociationError};
use sctp::chunk::PayloadProtocolIdentifier;
use sctp::config::TransportConfig;
use sctp::connection::error::{
    ErrorCauseCode, ErrorKind, ReadError, ReadExactError, ReadToEndError, StoppedError,
    UnknownStream, WriteError,
};
use sctp::connection::stream::Stream;
use sctp::connection::{Connection, Poll};
use sctp::queue::reassembly_queue::Chunk;
use sctp::shared::Side;
use sctp::stream::{StreamEvent, StreamState};
use sctp::Error;

const ID: u16 = 4;

fn connection() -> Connection {
    let mut a = Association::from_numbers(Side::Client, &TransportConfig::default(), 1, 1);
    a.set_state(AssociationState::Established);
    assert!(a.open_stream(ID, PayloadProtocolIdentifier::Binary).is_ok());
    Connection::new(a)
}

fn lost() -> Connection {
    let mut conn = connection();
    conn.error = Some(AssociationError::TimedOut);
    conn
}

/// Lets messages arrive on the stream, one after the other.
fn deliver(conn: &mut Connection, messages: &[&[u8]]) {
    let mut peer = StreamState::new(Side::Server, ID, 4, PayloadProtocolIdentifier::Binary);
    let mut tsn = 100;
    for m in messages {
        let mut chunks =
            peer.packetize(&Bytes::copy_from_slice(m), PayloadProtocolIdentifier::Binary);
        if m.is_empty() {
            let mut c = sctp::chunk::ChunkPayloadData::default();
            c.stream_identifier = ID;
            c.stream_sequence_number = peer.sequence_number.wrapping_sub(1);
            c.beginning_fragment = true;
            c.ending_fragment = true;
            chunks.push(c);
        }
        for mut c in chunks {
            c.tsn = tsn;
            tsn += 1;
            conn.inner.streams.get_mut(&ID).unwrap().handle_data(&c);
        }
    }
}

#[test]
fn a_write_wakes_the_driver() {
    let mut conn = connection();
    let mut s = Stream::new(ID);
    assert_eq!(s.id(), ID);
    assert_eq!(s.write(b"hello").poll(&mut conn), Poll::Ready(Ok(5)));
    assert!(conn.awake);
    assert_eq!(&conn.inner.pending_queue[0].user_data[..], b"hello");
}

#[test]
fn writes_fail_with_the_reason() {
    let mut s = Stream::new(ID);
    let mut conn = lost();
    let gone = WriteError::AssociationLost(AssociationError::TimedOut);
    assert_eq!(s.write(b"x").poll(&mut conn), Poll::Ready(Err(gone)));
    assert_eq!(s.write_all(b"x").poll(&mut conn), Poll::Ready(Err(gone)));
    assert_eq!(s.write_all(b"").poll(&mut conn), Poll::Ready(Ok(())));
    assert!(!conn.awake);
    let mut conn = connection();
    let mut other = Stream::new(9);
    let unknown = WriteError::Error(Error::ErrStreamNotExisted);
    assert_eq!(other.write(b"x").poll(&mut conn), Poll::Ready(Err(unknown)));
    conn.inner.set_max_message_size(2);
    let large = WriteError::Error(Error::ErrOutboundPacketTooLarge);
    assert_eq!(s.write(b"xyz").poll(&mut conn), Poll::Ready(Err(large)));
    assert!(!conn.awake);
}

#[test]
fn write_all_writes_all() {
    let mut conn = connection();
    let mut s = Stream::new(ID);
    let mut op = s.write_all(b"everything");
    assert_eq!(op.poll(&mut conn), Poll::Ready(Ok(())));
    assert!(op.buf.is_empty());
    assert_eq!(op.poll(&mut conn), Poll::Ready(Ok(())));
    assert_eq!(conn.inner.pending_queue.len(), 1);
}

#[test]
fn chunks_are_written_and_emptied() {
    let mut conn = connection();
    conn.inner.set_max_message_size(5);
    let mut s = Stream::new(ID);
    let mut bufs = [Bytes::from_static(b"ab"), Bytes::from_static(b"toolong"), Bytes::new()];
    assert_eq!(s.write_chunks(&mut bufs).poll(&mut conn), Poll::Ready(Ok(1)));
    assert!(bufs[0].is_empty() && bufs[1].len() == 7);

    let mut one = s.write_chunk(Bytes::from_static(b"cd"));
    assert_eq!(one.poll(&mut conn), Poll::Ready(Ok(())));
    assert!(one.buf[0].is_empty());
    assert_eq!(s.write_chunk(Bytes::new()).poll(&mut conn), Poll::Ready(Ok(())));
    let large = WriteError::Error(Error::ErrOutboundPacketTooLarge);
    let mut one = s.write_chunk(Bytes::from_static(b"toolong"));
    assert_eq!(one.poll(&mut conn), Poll::Ready(Err(large)));
    assert_eq!(one.buf[0].len(), 7);
    assert_eq!(conn.inner.pending_queue.len(), 2);
}

#[test]
fn a_list_of_chunks_is_written_as_far_as_it_goes() {
    let mut conn = connection();
    conn.inner.set_max_message_size(5);
    let mut s = Stream::new(ID);
    let mut bufs = [Bytes::from_static(b"ab"), Bytes::from_static(b"cde")];
    let mut op = s.write_all_chunks(&mut bufs);
    assert_eq!(op.poll(&mut conn), Poll::Ready(Ok(())));
    assert_eq!(op.offset, 2);
    assert_eq!(op.poll(&mut conn), Poll::Ready(Ok(())));
    assert_eq!(conn.inner.pending_queue.len(), 2);
    let mut bufs = [Bytes::from_static(b"ab"), Bytes::from_static(b"toolong")];
    let mut op = s.write_all_chunks(&mut bufs);
    let large = WriteError::Error(Error::ErrOutboundPacketTooLarge);
    assert_eq!(op.poll(&mut conn), Poll::Ready(Err(large)));
    assert_eq!(op.offset, 1);
    assert_eq!(conn.inner.pending_queue.len(), 3);
}

#[test]
fn finishing_closes_once_and_waits() {
    let mut conn = connection();
    let mut s = Stream::new(ID);
    assert_eq!(s.finish().poll(&mut conn, Poll::Pending), Poll::Pending);
    assert!(s.finishing && conn.awake && conn.finishing.contains(&ID));
    assert_eq!(conn.inner.pending_queue.len(), 1);
    assert_eq!(s.poll_finish(&mut conn, Poll::Pending), Poll::Pending);
    assert_eq!(conn.inner.pending_queue.len(), 1);
    conn.error = Some(AssociationError::Reset);
    assert_eq!(s.poll_finish(&mut conn, Poll::Ready(None)), Poll::Ready(Ok(())));
    let e = WriteError::Stopped(ErrorCauseCode(3));
    assert_eq!(s.poll_finish(&mut conn, Poll::Ready(Some(e))), Poll::Ready(Err(e)));
    assert_eq!(
        s.poll_finish(&mut conn, Poll::Pending),
        Poll::Ready(Err(WriteError::AssociationLost(AssociationError::Reset)))
    );
}

#[test]
fn finishing_fails_where_closing_fails() {
    let mut conn = connection();
    conn.inner.set_state(AssociationState::CookieEchoed);
    let mut s = Stream::new(ID);
    let e = WriteError::Error(Error::ErrResetPacketInStateNotExist);
    assert_eq!(s.finish().poll(&mut conn, Poll::Pending), Poll::Ready(Err(e)));
    assert!(!s.finishing && conn.finishing.is_empty() && !conn.awake);
}

#[test]
fn nothing_is_written_after_close() {
    let mut conn = connection();
    let mut s = Stream::new(ID);
    assert_eq!(s.write(b"dropped").poll(&mut conn), Poll::Ready(Ok(7)));
    assert_eq!(s.close(&mut conn, ErrorCauseCode(0)), Ok(()));
    assert_eq!(conn.inner.pending_queue.len(), 1);
    assert!(conn.inner.pending_queue[0].user_data.is_empty());
    assert_eq!(conn.inner.streams[&ID].buffered_amount(), 0);
    assert_eq!(
        s.write(b"late").poll(&mut conn),
        Poll::Ready(Err(WriteError::Error(Error::ErrStreamClosed)))
    );
    assert_eq!(Stream::new(9).close(&mut conn, ErrorCauseCode(0)), Err(UnknownStream {}));
}

#[test]
fn a_stream_that_is_being_finished_keeps_its_data_when_closed() {
    let mut conn = connection();
    let mut s = Stream::new(ID);
    assert_eq!(s.write(b"kept").poll(&mut conn), Poll::Ready(Ok(4)));
    assert_eq!(s.finish().poll(&mut conn, Poll::Pending), Poll::Pending);
    assert_eq!(s.close(&mut conn, ErrorCauseCode(0)), Ok(()));
    assert_eq!(conn.inner.pending_queue.len(), 2);
    assert_eq!(&conn.inner.pending_queue[0].user_data[..], b"kept");
}

#[test]
fn a_stopped_stream_is_unknown() {
    let mut conn = connection();
    let mut s = Stream::new(ID);
    deliver(&mut conn, &[b"unread"]);
    assert_eq!(s.stop(&mut conn, ErrorCauseCode(1)), Ok(()));
    assert!(s.all_data_read && conn.awake);
    assert_eq!(conn.inner.streams[&ID].get_num_bytes_in_reassembly_queue(), 0);
    assert_eq!(s.stop(&mut conn, ErrorCauseCode(1)), Err(UnknownStream {}));
    assert_eq!(s.close(&mut conn, ErrorCauseCode(1)), Err(UnknownStream {}));
    assert_eq!(s.write(b"x").poll(&mut conn), Poll::Ready(Err(WriteError::UnknownStream)));
    let mut bufs = [Bytes::from_static(b"x")];
    assert_eq!(
        s.write_chunks(&mut bufs).poll(&mut conn),
        Poll::Ready(Err(WriteError::UnknownStream))
    );
    assert_eq!(
        s.finish().poll(&mut conn, Poll::Ready(None)),
        Poll::Ready(Err(WriteError::UnknownStream))
    );
    assert_eq!(s.stopped().poll(&mut conn), Poll::Ready(Err(StoppedError::UnknownStream)));
    let mut buf = [0u8; 4];
    assert_eq!(s.read(&mut buf).poll(&mut conn), Poll::Ready(Err(ReadError::UnknownStream)));
}

#[test]
fn waiting_for_a_stop() {
    let mut conn = connection();
    let mut s = Stream::new(ID);
    assert_eq!(s.stopped().poll(&mut conn), Poll::Pending);
    assert!(conn.stopped.contains(&ID));
    conn.inner.stream(ID).unwrap().close().unwrap();
    assert_eq!(s.poll_stopped(&mut conn), Poll::Pending);
    let stop = StreamEvent::Stopped { id: ID, error_code: 7 };
    assert_eq!(conn.handle_stream_event(stop), None);
    assert!(conn.stopped.is_empty());
    assert_eq!(s.poll_stopped(&mut conn), Poll::Ready(Ok(ErrorCauseCode(7))));
    assert_eq!(s.stopped().poll(&mut conn), Poll::Ready(Ok(ErrorCauseCode(7))));
    assert_eq!(
        Stream::new(9).stopped().poll(&mut conn),
        Poll::Ready(Err(StoppedError::Error(Error::ErrStreamNotExisted)))
    );
}

#[test]
fn a_message_that_is_too_large_needs_no_room() {
    let mut conn = connection();
    let mut s = Stream::new(ID);
    conn.inner.set_max_message_size(2);
    let stream = conn.inner.streams.get_mut(&ID).unwrap();
    stream.buffered_amount = usize::MAX - 1;
    stream.max_payload_size = 0;
    let large = WriteError::Error(Error::ErrOutboundPacketTooLarge);
    assert_eq!(s.write(b"xyz").poll(&mut conn), Poll::Ready(Err(large)));
    assert_eq!(s.write_all(b"xyz").poll(&mut conn), Poll::Ready(Err(large)));
    let mut bufs = [Bytes::from_static(b"xyz"), Bytes::from_static(b"x")];
    assert_eq!(s.write_chunks(&mut bufs).poll(&mut conn), Poll::Ready(Err(large)));
    let stream = &conn.inner.streams[&ID];
    assert_eq!((stream.buffered_amount, stream.sequence_number), (usize::MAX - 1, 0));
    assert!(conn.inner.pending_queue.is_empty());
    let lost = WriteError::AssociationLost(AssociationError::Reset);
    conn.error = Some(AssociationError::Reset);
    assert_eq!(s.write(b"xy").poll(&mut conn), Poll::Ready(Err(lost)));
}

#[test]
fn a_stream_that_the_peer_stopped_takes_no_data() {
    let mut conn = connection();
    let mut s = Stream::new(ID);
    let stop = StreamEvent::Stopped { id: ID, error_code: 7 };
    conn.handle_stream_event(stop);
    let stopped = WriteError::Stopped(ErrorCauseCode(7));
    assert_eq!(s.write(b"x").poll(&mut conn), Poll::Ready(Err(stopped)));
    let mut bufs = [Bytes::from_static(b"x")];
    assert_eq!(s.write_chunks(&mut bufs).poll(&mut conn), Poll::Ready(Err(stopped)));
    assert!(conn.inner.pending_queue.is_empty() && !conn.awake);
}

#[test]
fn letting_go_closes_what_is_not_done() {
    let mut conn = connection();
    Stream::new(ID).release(&mut conn);
    assert!(conn.awake && conn.inner.streams[&ID].closed);
    let mut conn = lost();
    Stream::new(ID).release(&mut conn);
    assert!(!conn.awake && !conn.inner.streams[&ID].closed);
    let mut conn = connection();
    Stream { stream: ID, finishing: true, all_data_read: true }.release(&mut conn);
    assert!(!conn.awake && !conn.inner.streams[&ID].closed);
    Stream::new(9).release(&mut conn);
    assert!(conn.awake);
}

#[test]
fn reading_fills_the_buffer_and_drops_the_rest() {
    let mut conn = connection();
    deliver(&mut conn, &[b"0123456789", b"next"]);
    let mut s = Stream::new(ID);
    let mut buf = [0u8; 6];
    assert_eq!(s.read(&mut buf).poll(&mut conn), Poll::Ready(Ok(Some(6))));
    assert_eq!(&buf, b"012345");
    let mut buf = [0u8; 6];
    assert_eq!(s.read(&mut buf).poll(&mut conn), Poll::Ready(Ok(Some(4))));
    assert_eq!(&buf, b"next\0\0");
    let mut buf = [0u8; 6];
    assert_eq!(s.read(&mut buf).poll(&mut conn), Poll::Pending);
    assert!(conn.blocked_readers.contains(&ID));
    conn.error = Some(AssociationError::LocallyClosed);
    assert_eq!(
        s.read(&mut buf).poll(&mut conn),
        Poll::Ready(Err(ReadError::AssociationLost(AssociationError::LocallyClosed)))
    );
}

#[test]
fn what_is_there_is_read_after_the_loss() {
    let mut conn = lost();
    deliver(&mut conn, &[b"last"]);
    let mut s = Stream::new(ID);
    let mut buf = [0u8; 8];
    assert_eq!(s.read(&mut buf).poll(&mut conn), Poll::Ready(Ok(Some(4))));
}

#[test]
fn reading_into_nothing_or_of_nothing() {
    let mut conn = connection();
    deliver(&mut conn, &[b""]);
    let mut s = Stream::new(ID);
    let mut none: [u8; 0] = [];
    assert_eq!(s.read(&mut none).poll(&mut conn), Poll::Ready(Ok(Some(0))));
    let mut buf = [0u8; 2];
    assert_eq!(s.read(&mut buf).poll(&mut conn), Poll::Ready(Ok(None)));
}

#[test]
fn reading_fails_with_the_reason() {
    let mut conn = connection();
    let mut buf = [0u8; 2];
    assert_eq!(
        Stream::new(9).read(&mut buf).poll(&mut conn),
        Poll::Ready(Err(ReadError::Error(Error::ErrStreamNotExisted)))
    );
    conn.inner.stream(ID).unwrap().close().unwrap();
    assert_eq!(
        Stream::new(ID).read(&mut buf).poll(&mut conn),
        Poll::Ready(Err(ReadError::Error(Error::ErrStreamClosed)))
    );
}

#[test]
fn a_finished_stream_ends() {
    let mut conn = connection();
    deliver(&mut conn, &[b"rest"]);
    let mut s = Stream::new(ID);
    let mut buf = [0u8; 8];
    assert_eq!(conn.handle_stream_event(StreamEvent::Finished { id: ID }), None);
    assert_eq!(s.read(&mut buf).poll(&mut conn), Poll::Ready(Ok(Some(4))));
    assert_eq!(s.read(&mut buf).poll(&mut conn), Poll::Ready(Ok(None)));
    assert!(matches!(s.read_chunk(4).poll(&mut conn), Poll::Ready(Ok(None))));
    let mut bufs = [Bytes::new()];
    assert_eq!(s.read_chunks(&mut bufs).poll(&mut conn), Poll::Ready(Ok(None)));
    assert_eq!(
        s.read_exact(&mut buf).poll(&mut conn),
        Poll::Ready(Err(ReadExactError::FinishedEarly))
    );
    assert_eq!(s.read_to_end(4).poll(&mut conn), Poll::Ready(Ok(Vec::new())));
    assert!(conn.blocked_readers.is_empty());
    conn.error = Some(AssociationError::Reset);
    assert_eq!(
        Stream::new(ID).read(&mut buf).poll(&mut conn),
        Poll::Ready(Err(ReadError::AssociationLost(AssociationError::Reset)))
    );
}

#[test]
fn a_reset_ends_a_stream_that_is_gone() {
    let mut conn = connection();
    let mut buf = [0u8; 8];
    conn.inner.stream(ID).unwrap().close().unwrap();
    conn.end_stream(ID);
    conn.end_stream(9);
    assert_eq!(Stream::new(ID).read(&mut buf).poll(&mut conn), Poll::Ready(Ok(None)));
    assert_eq!(Stream::new(9).read(&mut buf).poll(&mut conn), Poll::Ready(Ok(None)));
}

#[test]
fn events_reach_whoever_waits() {
    let mut conn = connection();
    let mut buf = [0u8; 8];
    let mut s = Stream::new(ID);
    assert_eq!(s.read(&mut buf).poll(&mut conn), Poll::Pending);
    assert_eq!(conn.handle_stream_event(StreamEvent::Readable { id: ID }), None);
    assert!(conn.blocked_readers.is_empty());
    assert_eq!(s.poll_finish(&mut conn, Poll::Pending), Poll::Pending);
    let stop = StreamEvent::Stopped { id: ID, error_code: 3 };
    let told = conn.handle_stream_event(stop);
    assert_eq!(told, Some(Some(WriteError::Stopped(ErrorCauseCode(3)))));
    assert!(conn.finishing.is_empty());

    let mut conn = connection();
    let mut s = Stream::new(ID);
    assert_eq!(s.poll_finish(&mut conn, Poll::Pending), Poll::Pending);
    let told = conn.handle_stream_event(StreamEvent::Finished { id: ID });
    assert_eq!(told, Some(None));
    assert_eq!(s.poll_finish(&mut conn, Poll::Ready(told.unwrap())), Poll::Ready(Ok(())));
    assert_eq!(conn.handle_stream_event(StreamEvent::Opened), None);
}

#[test]
fn reading_exactly_goes_over_messages() {
    let mut conn = connection();
    deliver(&mut conn, &[b"abc", b"def", b"ghi"]);
    let mut s = Stream::new(ID);
    let mut buf = [0u8; 7];
    assert_eq!(s.read_exact(&mut buf).poll(&mut conn), Poll::Ready(Ok(())));
    assert_eq!(&buf, b"abcdefg");

    let mut conn = connection();
    deliver(&mut conn, &[b"abc"]);
    let mut buf = [0u8; 7];
    let mut op = s.read_exact(&mut buf);
    assert_eq!(op.poll(&mut conn), Poll::Pending);
    assert_eq!(op.buf.filled(), b"abc");
    conn.error = Some(AssociationError::Reset);
    assert_eq!(
        op.poll(&mut conn),
        Poll::Ready(Err(ReadExactError::ReadError(ReadError::AssociationLost(
            AssociationError::Reset
        ))))
    );

    let mut conn = connection();
    deliver(&mut conn, &[b"ab", b""]);
    let mut buf = [0u8; 7];
    assert_eq!(
        s.read_exact(&mut buf).poll(&mut conn),
        Poll::Ready(Err(ReadExactError::FinishedEarly))
    );
}

#[test]
fn reading_chunks() {
    let mut conn = connection();
    deliver(&mut conn, &[b"0123456789", b"abcdef", b"xyz"]);
    let mut s = Stream::new(ID);
    match s.read_chunk(4).poll(&mut conn) {
        Poll::Ready(Ok(Some(chunk))) => assert_eq!(&chunk.bytes[..], b"0123"),
        _ => panic!("a chunk"),
    }
    let mut bufs = [Bytes::new(), Bytes::from_static(b"other")];
    assert_eq!(s.read_chunks(&mut bufs).poll(&mut conn), Poll::Ready(Ok(Some(1))));
    assert_eq!(&bufs[0][..], b"abcdef");
    assert_eq!(&bufs[1][..], b"other");
    let mut none: [Bytes; 0] = [];
    assert_eq!(s.read_chunks(&mut none).poll(&mut conn), Poll::Ready(Ok(Some(0))));
    match s.read_chunk(usize::MAX).poll(&mut conn) {
        Poll::Ready(Ok(Some(chunk))) => assert_eq!(&chunk.bytes[..], b"xyz"),
        _ => panic!("a chunk"),
    }
    assert!(matches!(s.read_chunk(1).poll(&mut conn), Poll::Pending));
}

#[test]
fn reading_to_the_end_gathers() {
    let mut conn = connection();
    deliver(&mut conn, &[b"abc", b"de"]);
    let mut op = Stream::new(ID).read_to_end(10);
    assert_eq!(op.poll(&mut conn), Poll::Pending);
    assert_eq!((op.size, op.read.len()), (5, 2));
    assert!(op.gather(Some(Chunk { bytes: Bytes::from_static(b"f") })).is_none());
    assert_eq!(op.gather(None), Some(Ok(b"abcdef".to_vec())));
    assert_eq!(Stream::new(ID).read_to_end(3).gather(None), Some(Ok(Vec::new())));
}

#[test]
fn reading_a_finished_stream_to_its_end() {
    let mut conn = connection();
    deliver(&mut conn, &[b"abc", b"de"]);
    let mut op = Stream::new(ID).read_to_end(10);
    assert_eq!(op.poll(&mut conn), Poll::Pending);
    assert!(conn.blocked_readers.contains(&ID));
    conn.end_stream(ID);
    assert!(!conn.blocked_readers.contains(&ID));
    assert_eq!(op.poll(&mut conn), Poll::Ready(Ok(b"abcde".to_vec())));
}

#[test]
fn reading_to_the_end_has_a_limit() {
    let mut conn = connection();
    deliver(&mut conn, &[b"abc", b"de"]);
    let mut op = Stream::new(ID).read_to_end(4);
    assert_eq!(op.poll(&mut conn), Poll::Ready(Err(ReadToEndError::TooLong)));
    let mut conn = lost();
    let mut op = Stream::new(ID).read_to_end(4);
    let gone = ReadError::AssociationLost(AssociationError::TimedOut);
    assert_eq!(op.poll(&mut conn), Poll::Ready(Err(ReadToEndError::Read(gone))));
}

#[test]
fn errors_have_kinds() {
    assert_eq!(WriteError::Stopped(ErrorCauseCode(1)).kind(), ErrorKind::ConnectionReset);
    assert_eq!(WriteError::UnknownStream.kind(), ErrorKind::NotConnected);
    assert_eq!(WriteError::Error(Error::ErrStreamClosed).kind(), ErrorKind::NotConnected);
    assert_eq!(ReadError::Reset(ErrorCauseCode(1)).kind(), ErrorKind::ConnectionReset);
    assert_eq!(ReadError::IllegalOrderedRead.kind(), ErrorKind::InvalidInput);
    assert_eq!(
        ReadError::AssociationLost(AssociationError::Reset).kind(),
        ErrorKind::NotConnected
    );
    assert_eq!(UnknownStream::from(Error::ErrStreamClosed), UnknownStream {});
}
