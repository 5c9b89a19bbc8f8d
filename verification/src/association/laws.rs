//! What holds of associations, in terms of their fields and of the chunks in their queues.

use vstd::prelude::*;

use crate::association::abandon::{drops, gave_up_stream, keeps};
use crate::association::internal::{
    acknowledges, handles_timeout, handshake_error, lists_streams, retransmits, serves_timer,
    serves_timers, stream_views, RtxTimerId,
};
use crate::association::loops::{counted, WriteAction, WriteState};
use crate::association::poll::popped;
use crate::association::state::{AckMode, AckState, AssociationState};
use crate::association::stats::AssociationStats;
use crate::association::streams::retired_in_order;
use crate::association::timer::{Timer, TimerTable, TIMER_COUNT};
use crate::association::{side_of, Association};
use crate::buf::bytes_content;
use crate::chunk::{chunk_views, DataChunk};
use crate::config::{default_transport, initial_max_payload_size, TransportConfig};
use crate::error::Error;
use crate::packet::{packet_views, ChunkCookieEcho, ChunkInit, ChunkValue, Packet, PacketChunk};
use crate::queue::payload_queue::{
    given_up_at, given_up_run, lemma_run_exists, tsn_after,
};
use crate::queue::total::total;
use crate::shared::Side;
use crate::stream::handle::contents;
use crate::stream::state::StreamModel;
use crate::time::Instant;

verus! {

/// Whether a chunk with that transmission sequence number is there whose message was abandoned with
/// all of its fragments in flight.
pub open spec fn abandoned_at(chunks: Seq<DataChunk>, tsn: int) -> bool {
    exists|i: int|
        0 <= i < chunks.len() && (#[trigger] chunks[i]).tsn == tsn && chunks[i].abandoned
            && chunks[i].all_inflight
}

/// Whether a timer with that time is due.
pub open spec fn due(time: Option<Instant>, now: Instant) -> bool {
    time matches Some(t) && t.nanos <= now.nanos
}

/// Once the T3-rtx timer has expired, each chunk in flight that was neither acknowledged nor given up
/// is marked to be sent again, whichever fragment of its message it is. Every other chunk, and
/// everything else about each chunk, is as it was.
pub proof fn law_expired_t3_marks_what_is_in_flight(before: Association, after: Association, i: int)
    requires
        retransmits(before, RtxTimerId::T3RTX, after),
        0 <= i < before.inflight_queue@.len(),
    ensures
        after.inflight_queue@.len() == before.inflight_queue@.len(),
        !before.inflight_queue@[i].acked && !(before.inflight_queue@[i].abandoned
            && before.inflight_queue@[i].all_inflight) ==> after.inflight_queue@[i].retransmit,
        before.inflight_queue@[i].acked || (before.inflight_queue@[i].abandoned
            && before.inflight_queue@[i].all_inflight) ==> after.inflight_queue@[i]
            == before.inflight_queue@[i],
        after.inflight_queue@[i] == (DataChunk {
            retransmit: after.inflight_queue@[i].retransmit,
            ..before.inflight_queue@[i]
        }),
{
}

/// Once the T3-rtx timer has expired, the congestion window is one packet, and the threshold is the
/// greater of half of what the window was and of four packets. Where partial reliability is in use,
/// the acknowledgement point of the peer moves on over just those chunks behind it without a gap that
/// were given up, and the peer is told where that is ahead of what it has acknowledged. Nothing else
/// changes but the chunks in flight, the count of these timeouts, and that there is work to do.
pub proof fn law_expired_t3_slows_down(before: Association, after: Association)
    requires
        before.can_slow_down(),
        retransmits(before, RtxTimerId::T3RTX, after),
    ensures
        after.cwnd == before.mtu,
        after.ssthresh >= before.cwnd / 2,
        after.ssthresh >= 4 * before.mtu,
        after.ssthresh == before.cwnd / 2 || after.ssthresh == 4 * before.mtu,
        after.stats.n_t3timeouts == (before.stats.n_t3timeouts + 1) % 0x1_0000_0000_0000_0000,
        after.stats.n_datas == before.stats.n_datas,
        after.stats.n_sacks == before.stats.n_sacks,
        after.stats.n_ack_timeouts == before.stats.n_ack_timeouts,
        after.stats.n_fast_retrans == before.stats.n_fast_retrans,
        after.awake_write_loop_ch is Some <==> before.awake_write_loop_ch is Some,
        after.awake_write_loop_ch is Some ==> after.awake_write_loop_ch == Some(true),
        !before.use_forward_tsn ==> after.advanced_peer_tsn_ack_point
            == before.advanced_peer_tsn_ack_point && after.will_send_forward_tsn
            == before.will_send_forward_tsn,
        before.use_forward_tsn ==> exists|k: nat| #[trigger]
            moved_over(
                before.inflight_queue@,
                before.advanced_peer_tsn_ack_point,
                k,
                after.advanced_peer_tsn_ack_point,
            ),
        before.use_forward_tsn ==> after.will_send_forward_tsn == (before.will_send_forward_tsn
            || 0 < (after.advanced_peer_tsn_ack_point - before.cumulative_tsn_ack_point)
            % 0x1_0000_0000 <= 0x8000_0000),
        after == (Association {
            stats: after.stats,
            ssthresh: after.ssthresh,
            cwnd: after.cwnd,
            advanced_peer_tsn_ack_point: after.advanced_peer_tsn_ack_point,
            will_send_forward_tsn: after.will_send_forward_tsn,
            inflight_queue: after.inflight_queue,
            awake_write_loop_ch: after.awake_write_loop_ch,
            ..before
        }),
{
    if before.use_forward_tsn {
        let chunks = before.inflight_queue@;
        let point = before.advanced_peer_tsn_ack_point;
        let k = given_up_run(chunks, point);
        lemma_run_exists(chunks, point, 0);
        assert forall|tsn: u32| #[trigger] given_up_at(chunks, tsn) == abandoned_at(
            chunks,
            tsn as int,
        ) by {
            if abandoned_at(chunks, tsn as int) {
                let i = choose|i: int|
                    0 <= i < chunks.len() && (#[trigger] chunks[i]).tsn == tsn
                        && chunks[i].abandoned && chunks[i].all_inflight;
                assert(chunks[i].given_up());
            }
        }
        assert forall|j: int| 1 <= j <= k implies #[trigger] abandoned_at(
            chunks,
            (point + j) % 0x1_0000_0000,
        ) by {
            assert(given_up_at(chunks, tsn_after(point, j)));
        }
        assert(!given_up_at(chunks, tsn_after(point, k + 1int)));
        assert(moved_over(chunks, point, k, after.advanced_peer_tsn_ack_point));
    }
}

/// Whether `to` is `k` transmission sequence numbers behind `from`, chunks with all of these were
/// given up, and the next one was not.
pub open spec fn moved_over(chunks: Seq<DataChunk>, from: u32, k: nat, to: u32) -> bool {
    &&& to == (from + k) % 0x1_0000_0000
    &&& forall|j: int|
        1 <= j <= k ==> #[trigger] abandoned_at(chunks, (from + j) % 0x1_0000_0000)
    &&& !abandoned_at(chunks, (from + k + 1) % 0x1_0000_0000)
}

/// What the other retransmission timers do: the INIT chunk that is stored, if there is one, and the
/// COOKIE-ECHO chunk go into a packet for the peer; a shutdown is sent again as far as it has come;
/// and so is a reconfiguration request.
pub proof fn law_expired_timers_send_again(before: Association, after: Association, id: RtxTimerId)
    requires
        id != RtxTimerId::T3RTX,
        retransmits(before, id, after),
    ensures
        after.will_retransmit_reconfig == (before.will_retransmit_reconfig || id
            == RtxTimerId::Reconfig),
        after.will_send_shutdown == (before.will_send_shutdown || (id == RtxTimerId::T2Shutdown
            && before.state == AssociationState::ShutdownSent)),
        after.will_send_shutdown_ack == (before.will_send_shutdown_ack || (id
            == RtxTimerId::T2Shutdown && before.state == AssociationState::ShutdownAckSent)),
        id == RtxTimerId::T1Init && before.stored_init is Some ==> {
            &&& after.stored_init is None
            &&& after.source_port == 5000 && after.destination_port == 5000
            &&& after.control_queue@.len() == before.control_queue@.len() + 1
            &&& after.control_queue@.last()@.source_port == 5000
            &&& after.control_queue@.last()@.destination_port == 5000
            &&& after.control_queue@.last()@.verification_tag == before.peer_verification_tag
            &&& after.control_queue@.last()@.chunks == seq![
                ChunkValue::Init(before.stored_init->0@),
            ]
        },
        id == RtxTimerId::T1Cookie && before.stored_cookie_echo is Some ==> {
            &&& after.control_queue@.len() == before.control_queue@.len() + 1
            &&& after.control_queue@.last()@.source_port == before.source_port
            &&& after.control_queue@.last()@.destination_port == before.destination_port
            &&& after.control_queue@.last()@.verification_tag == before.peer_verification_tag
            &&& after.control_queue@.last()@.chunks == seq![
                ChunkValue::CookieEcho(before.stored_cookie_echo->0@),
            ]
        },
        forall|i: int|
            0 <= i < before.control_queue@.len() ==> (#[trigger] after.control_queue@[i])@
                == before.control_queue@[i]@,
        (id == RtxTimerId::T1Init && before.stored_init is None) || (id == RtxTimerId::T1Cookie
            && before.stored_cookie_echo is None) || (id == RtxTimerId::T2Shutdown && before.state
            != AssociationState::ShutdownSent && before.state
            != AssociationState::ShutdownAckSent) ==> after == before,
        id == RtxTimerId::Reconfig || (id == RtxTimerId::T2Shutdown && (before.state
            == AssociationState::ShutdownSent || before.state
            == AssociationState::ShutdownAckSent)) ==> (before.awake_write_loop_ch is Some
            ==> after.awake_write_loop_ch == Some(true)),
        after == (Association {
            will_retransmit_reconfig: after.will_retransmit_reconfig,
            will_send_shutdown: after.will_send_shutdown,
            will_send_shutdown_ack: after.will_send_shutdown_ack,
            stored_init: after.stored_init,
            source_port: after.source_port,
            destination_port: after.destination_port,
            control_queue: after.control_queue,
            awake_write_loop_ch: after.awake_write_loop_ch,
            ..before
        }),
{
    let had = packet_views(before.control_queue@);
    let has = packet_views(after.control_queue@);
    assert(had.len() == before.control_queue@.len() && has.len() == after.control_queue@.len());
    assert forall|i: int| 0 <= i < before.control_queue@.len() implies (
    #[trigger] after.control_queue@[i])@ == before.control_queue@[i]@ by {
        assert(has[i] == had[i]);
    }
    if has.len() == had.len() + 1 {
        assert(after.control_queue@.last()@ == has.last());
    }
}

/// Once the acknowledgement timer has expired, an acknowledgement is due at once, that is counted, and
/// there is work to do; nothing else changes.
pub proof fn law_expired_ack_timer_acknowledges(before: Association)
    ensures
        acknowledges(before).ack_state == AckState::Immediate,
        acknowledges(before).stats.n_ack_timeouts == (before.stats.n_ack_timeouts + 1)
            % 0x1_0000_0000_0000_0000,
        before.awake_write_loop_ch is Some ==> acknowledges(before).awake_write_loop_ch == Some(
            true,
        ),
        before.awake_write_loop_ch is None ==> acknowledges(before).awake_write_loop_ch is None,
        acknowledges(before) == (Association {
            ack_state: AckState::Immediate,
            stats: AssociationStats {
                n_ack_timeouts: acknowledges(before).stats.n_ack_timeouts,
                ..before.stats
            },
            awake_write_loop_ch: acknowledges(before).awake_write_loop_ch,
            ..before
        }),
{
}

/// A client that sets up an association offers what it goes by itself: the one packet that waits to
/// be sent is for the peer, which has no tag yet, and holds one INIT chunk with the association's own
/// receive buffer, numbers of streams, tag and first transmission sequence number. A server offers
/// nothing.
pub proof fn law_init_says_what_the_association_goes_by(
    a: Association,
    side: Side,
    config: TransportConfig,
    seed: u32,
    tag: u32,
)
    requires
        a.is_fresh(side, config, seed, tag),
    ensures
        side == Side::Client ==> {
            &&& a.control_queue@.len() == 1
            &&& a.control_queue@[0]@.source_port == 5000
            &&& a.control_queue@[0]@.destination_port == 5000
            &&& a.control_queue@[0]@.verification_tag == 0
            &&& a.control_queue@[0]@.chunks.len() == 1
            &&& a.control_queue@[0]@.chunks[0] matches ChunkValue::Init(init) && {
                &&& init.advertised_receiver_window_credit == a.max_receive_buffer_size
                &&& init.num_outbound_streams == a.my_max_num_outbound_streams
                &&& init.num_inbound_streams == a.my_max_num_inbound_streams
                &&& init.initiate_tag == a.my_verification_tag
                &&& init.initial_tsn == a.my_next_tsn
                &&& init.supported_extensions == seq![130u8, 192u8]
            }
            &&& a.state == AssociationState::CookieWait
            &&& a.source_port == 5000 && a.destination_port == 5000
        },
        side == Side::Server ==> {
            &&& a.control_queue@.len() == 0
            &&& a.state == AssociationState::Closed
            &&& a.source_port == 0 && a.destination_port == 0
        },
{
    assert(packet_views(a.control_queue@).len() == a.control_queue@.len());
    if side == Side::Client {
        assert(packet_views(a.control_queue@)[0] == a.control_queue@[0]@);
    }
}

/// A new association goes by its configuration and by the two random numbers: it takes and sends what
/// the configuration says, counts its chunks on from the first number, unless that is zero, and marks
/// its packets with the second. Its congestion window is `min(4 * MTU, max(2 * MTU, 4380))`, and a
/// chunk carries as much as fits a packet behind its headers. Nothing has happened to it yet.
pub proof fn law_new_association_goes_by_its_configuration(
    a: Association,
    side: Side,
    config: TransportConfig,
    seed: u32,
    tag: u32,
)
    requires
        a.is_fresh(side, config, seed, tag),
    ensures
        a.side == side,
        a.max_receive_buffer_size == config.max_receive_buffer_size,
        a.max_message_size == config.max_message_size,
        a.my_max_num_outbound_streams == config.max_num_outbound_streams,
        a.my_max_num_inbound_streams == config.max_num_inbound_streams,
        a.my_verification_tag == tag,
        seed != 0 ==> a.my_next_tsn == seed,
        seed == 0 ==> a.my_next_tsn == 1,
        a.my_next_rsn == a.my_next_tsn,
        a.min_tsn2measure_rtt == a.my_next_tsn,
        a.cumulative_tsn_ack_point + 1 == a.my_next_tsn,
        a.advanced_peer_tsn_ack_point + 1 == a.my_next_tsn,
        a.mtu == 1228,
        a.max_payload_size + 12 + 16 == a.mtu,
        a.cwnd <= 4 * a.mtu,
        a.cwnd == 4 * a.mtu || a.cwnd == 2 * a.mtu || a.cwnd == 4380,
        a.cwnd < 4 * a.mtu ==> a.cwnd >= 2 * a.mtu && a.cwnd >= 4380,
        a.inflight_queue_length == 0,
        !a.will_send_shutdown,
        a.bytes_received == 0,
        a.bytes_sent == 0,
        a.peer_verification_tag == 0,
        a.peer_last_tsn == 0,
        !a.will_send_forward_tsn,
        !a.will_retransmit_fast,
        !a.will_retransmit_reconfig,
        !a.will_send_shutdown_ack,
        !a.will_send_shutdown_complete,
        a.pending_queue@.len() == 0,
        a.inflight_queue@.len() == 0,
        !a.use_forward_tsn,
        a.rwnd == 0,
        a.ssthresh == 0,
        a.partial_bytes_acked == 0,
        !a.in_fast_recovery,
        a.fast_recover_exit_point == 0,
        a.stored_init is None,
        a.stored_cookie_echo is None,
        forall|id: u16| !#[trigger] a.streams@.contains_key(id),
        a.retired@.len() == 0,
        !a.delayed_ack_triggered,
        !a.immediate_ack_triggered,
        a.stats.n_datas == 0 && a.stats.n_sacks == 0 && a.stats.n_t3timeouts == 0
            && a.stats.n_ack_timeouts == 0 && a.stats.n_fast_retrans == 0,
        a.ack_state == AckState::Idle,
        a.ack_mode == AckMode::Normal,
        a.timers@.len() == TIMER_COUNT,
        forall|i: int| 0 <= i < TIMER_COUNT ==> (#[trigger] a.timers@[i]) is None,
        a.awake_write_loop_ch is None,
        !a.loops_open,
        a.handshake_completed_ch is None,
        a.inbound@.len() == 0,
        a.transmits@.len() == 0,
        a.endpoint_events@.len() == 0,
        a.events@.len() == 0,
{
}

/// A blank association has its numbers at zero, nothing in its queues, no streams and no timers that
/// run, and is closed.
pub proof fn law_blank_association_is_blank(a: Association)
    requires
        a.is_blank(),
    ensures
        a.state == AssociationState::Closed && a.side == Side::Client,
        a.max_message_size == 0 && a.max_receive_buffer_size == 0 && a.max_payload_size == 0,
        a.mtu == 0 && a.cwnd == 0 && a.rwnd == 0 && a.ssthresh == 0 && a.partial_bytes_acked == 0,
        a.my_next_tsn == 0 && a.my_next_rsn == 0 && a.my_verification_tag == 0
            && a.peer_verification_tag == 0 && a.peer_last_tsn == 0 && a.min_tsn2measure_rtt == 0
            && a.cumulative_tsn_ack_point == 0 && a.advanced_peer_tsn_ack_point == 0
            && a.fast_recover_exit_point == 0,
        a.source_port == 0 && a.destination_port == 0,
        a.my_max_num_inbound_streams == 0 && a.my_max_num_outbound_streams == 0,
        a.bytes_sent == 0 && a.bytes_received == 0 && a.inflight_queue_length == 0,
        !a.use_forward_tsn && !a.in_fast_recovery && !a.will_send_forward_tsn
            && !a.will_retransmit_fast && !a.will_retransmit_reconfig && !a.will_send_shutdown
            && !a.will_send_shutdown_ack && !a.will_send_shutdown_complete
            && !a.delayed_ack_triggered && !a.immediate_ack_triggered && !a.loops_open,
        a.control_queue@.len() == 0 && a.pending_queue@.len() == 0 && a.inflight_queue@.len() == 0
            && a.retired@.len() == 0 && a.inbound@.len() == 0 && a.transmits@.len() == 0
            && a.endpoint_events@.len() == 0 && a.events@.len() == 0,
        forall|id: u16| !#[trigger] a.streams@.contains_key(id),
        forall|i: int| 0 <= i < TIMER_COUNT ==> (#[trigger] a.timers@[i]) is None,
        a.stored_init is None && a.stored_cookie_echo is None && a.awake_write_loop_ch is None
            && a.handshake_completed_ch is None,
        a.ack_state == AckState::Idle && a.ack_mode == AckMode::Normal,
        a.stats.n_datas == 0 && a.stats.n_sacks == 0 && a.stats.n_t3timeouts == 0
            && a.stats.n_ack_timeouts == 0 && a.stats.n_fast_retrans == 0,
{
}

/// Where nothing else is asked for, an association may have a mebibyte wait on its side, messages of
/// up to 64 KiB, and as many streams in either direction as there are identifiers.
pub proof fn law_default_transport()
    ensures
        default_transport().max_receive_buffer_size == 1_048_576,
        default_transport().max_message_size == 65_536,
        default_transport().max_num_outbound_streams == 65_535,
        default_transport().max_num_inbound_streams == 65_535,
{
}

proof fn lemma_filter_twice<A>(s: Seq<A>, f: spec_fn(A) -> bool, g: spec_fn(A) -> bool)
    requires
        forall|x: A| #[trigger] g(x) ==> f(x),
    ensures
        s.filter(f).filter(g) == s.filter(g),
    decreases s.len(),
{
    reveal(Seq::filter);
    if s.len() > 0 {
        let rest = s.drop_last();
        lemma_filter_twice(rest, f, g);
        if f(s.last()) {
            assert(rest.filter(f).push(s.last()).drop_last() =~= rest.filter(f));
        }
    }
}

proof fn lemma_total_same<A>(s: Seq<A>, f: spec_fn(A) -> nat, g: spec_fn(A) -> nat)
    requires
        forall|x: A| #[trigger] f(x) == g(x),
    ensures
        total(s, f) == total(s, g),
    decreases s.len(),
{
    if s.len() > 0 {
        lemma_total_same(s.drop_last(), f, g);
        assert(f(s.last()) == g(s.last()));
    }
}

/// Giving up the data of a stream leaves the data of all other streams alone: their chunks wait to be
/// sent as they did, in the same order, their chunks in flight are as they were, and so are these
/// streams themselves.
pub proof fn law_other_streams_keep_their_data(
    before: Association,
    id: u16,
    after: Association,
    i: int,
    other: u16,
)
    requires
        gave_up_stream(before, id, after),
    ensures
        chunk_views(after.pending_queue@).filter(|c: DataChunk| c.stream_identifier != id)
            == chunk_views(before.pending_queue@).filter(
            |c: DataChunk| c.stream_identifier != id,
        ),
        after.inflight_queue@.len() == before.inflight_queue@.len(),
        0 <= i < before.inflight_queue@.len() && before.inflight_queue@[i].stream_identifier != id
            ==> after.inflight_queue@[i] == before.inflight_queue@[i],
        other != id && before.streams@.contains_key(other) ==> after.streams@.contains_key(other)
            && after.streams@[other] == before.streams@[other],
        other != id && !before.streams@.contains_key(other) ==> !after.streams@.contains_key(
            other,
        ),
        after == (Association {
            pending_queue: after.pending_queue,
            inflight_queue: after.inflight_queue,
            streams: after.streams,
            ..before
        }),
{
    lemma_filter_twice(
        chunk_views(before.pending_queue@),
        keeps(id),
        |c: DataChunk| c.stream_identifier != id,
    );
}

/// Giving up the data of a stream takes just that: of its chunks, those with data do not wait to be
/// sent any more, and those without, which end the stream, still do; those in flight are abandoned as
/// a whole and not sent again, and otherwise as they were. The stream buffers as many bytes less as
/// its dropped chunks had, and is otherwise as it was.
pub proof fn law_a_stream_gives_up_its_own_data(
    before: Association,
    id: u16,
    after: Association,
    i: int,
)
    requires
        gave_up_stream(before, id, after),
    ensures
        chunk_views(after.pending_queue@).filter(|c: DataChunk| c.stream_identifier == id)
            == chunk_views(before.pending_queue@).filter(
            |c: DataChunk| c.stream_identifier == id && c.user_data.len() == 0,
        ),
        0 <= i < before.inflight_queue@.len() && before.inflight_queue@[i].stream_identifier == id
            ==> after.inflight_queue@[i] == (DataChunk {
            abandoned: true,
            all_inflight: true,
            retransmit: false,
            ..before.inflight_queue@[i]
        }),
        after.streams@.contains_key(id),
        ({
            let gone = total(
                chunk_views(before.pending_queue@),
                |c: DataChunk|
                    if c.stream_identifier == id {
                        c.user_data.len()
                    } else {
                        0
                    },
            );
            let had = before.streams@[id]@.buffered_amount;
            &&& gone <= had ==> after.streams@[id]@.buffered_amount + gone == had
            &&& gone > had ==> after.streams@[id]@.buffered_amount == 0
            &&& after.streams@[id]@ == (StreamModel {
                buffered_amount: after.streams@[id]@.buffered_amount,
                ..before.streams@[id]@
            })
        }),
{
    let pending = chunk_views(before.pending_queue@);
    let own = |c: DataChunk| c.stream_identifier == id;
    let ends = |c: DataChunk| c.stream_identifier == id && c.user_data.len() == 0;
    lemma_filter_both(pending, keeps(id), own, ends);
    lemma_total_same(
        pending,
        drops(id),
        |c: DataChunk|
            if c.stream_identifier == id {
                c.user_data.len()
            } else {
                0
            },
    );
}

proof fn lemma_filter_both<A>(
    s: Seq<A>,
    f: spec_fn(A) -> bool,
    g: spec_fn(A) -> bool,
    h: spec_fn(A) -> bool,
)
    requires
        forall|x: A| #[trigger] h(x) == (f(x) && g(x)),
    ensures
        s.filter(f).filter(g) == s.filter(h),
    decreases s.len(),
{
    reveal(Seq::filter);
    if s.len() > 0 {
        let rest = s.drop_last();
        lemma_filter_both(rest, f, g, h);
        assert(h(s.last()) == (f(s.last()) && g(s.last())));
        if f(s.last()) {
            assert(rest.filter(f).push(s.last()).drop_last() =~= rest.filter(f));
        }
    }
}

/// What comes of a timer, in terms of the fields that it is about.
proof fn lemma_served(before: Association, t: Timer, now: Instant, after: Association)
    requires
        serves_timer(before, t, now, after),
        before.timers@.len() == TIMER_COUNT,
    ensures
        after.timers@.len() == TIMER_COUNT,
        forall|u: Timer| u != t ==> #[trigger] after.timers@[u.place()] == before.timers@[u.place()],
        after.timers@[t.place()] == (if due(before.timers@[t.place()], now) {
            None
        } else {
            before.timers@[t.place()]
        }),
        after.state == before.state,
        after.mtu == before.mtu,
        after.stored_cookie_echo == before.stored_cookie_echo,
        !due(before.timers@[t.place()], now) ==> after == before,
        ({
            let hit = due(before.timers@[t.place()], now);
            &&& after.stats.n_t3timeouts == (if hit && t == Timer::T3RTX {
                (before.stats.n_t3timeouts + 1) % 0x1_0000_0000_0000_0000
            } else {
                before.stats.n_t3timeouts as int
            })
            &&& after.cwnd == (if hit && t == Timer::T3RTX {
                before.mtu
            } else {
                before.cwnd
            })
            &&& after.inflight_queue@.len() == before.inflight_queue@.len()
            &&& !(hit && t == Timer::T3RTX) ==> after.inflight_queue == before.inflight_queue
            &&& hit && t == Timer::T3RTX ==> forall|i: int|
                0 <= i < before.inflight_queue@.len() && !before.inflight_queue@[i].acked && !(
                before.inflight_queue@[i].abandoned && before.inflight_queue@[i].all_inflight)
                    ==> (#[trigger] after.inflight_queue@[i]).retransmit
            &&& after.stats.n_ack_timeouts == (if hit && t == Timer::Ack {
                (before.stats.n_ack_timeouts + 1) % 0x1_0000_0000_0000_0000
            } else {
                before.stats.n_ack_timeouts as int
            })
            &&& after.ack_state == (if hit && t == Timer::Ack {
                AckState::Immediate
            } else {
                before.ack_state
            })
            &&& after.will_retransmit_reconfig == (before.will_retransmit_reconfig || (hit && t
                == Timer::Reconfig))
            &&& after.will_send_shutdown == (before.will_send_shutdown || (hit && t
                == Timer::T2Shutdown && before.state == AssociationState::ShutdownSent))
            &&& after.will_send_shutdown_ack == (before.will_send_shutdown_ack || (hit && t
                == Timer::T2Shutdown && before.state == AssociationState::ShutdownAckSent))
            &&& after.stored_init is Some == (before.stored_init is Some && !(hit && t
                == Timer::T1Init))
            &&& after.control_queue@.len() == before.control_queue@.len() + (if (hit && t
                == Timer::T1Init && before.stored_init is Some) || (hit && t == Timer::T1Cookie
                && before.stored_cookie_echo is Some) {
                1int
            } else {
                0int
            })
        }),
{
    assert(packet_views(before.control_queue@).len() == before.control_queue@.len());
    assert(packet_views(after.control_queue@).len() == after.control_queue@.len());
}

/// An association that looks after its timers acts on just those whose time has come: each of them
/// does its work once and is stopped, and the others run on and have no effect.
pub proof fn law_due_timers_are_acted_upon(before: Association, now: Instant, after: Association)
    requires
        handles_timeout(before, now, after),
        before.timers@.len() == TIMER_COUNT,
    ensures
        forall|t: Timer|
            after.timers@[#[trigger] t.place()] == (if due(before.timers@[t.place()], now) {
                None
            } else {
                before.timers@[t.place()]
            }),
        ({
            let t1 = due(before.timers@[Timer::T1Init.place()], now);
            let cookie = due(before.timers@[Timer::T1Cookie.place()], now);
            let t2 = due(before.timers@[Timer::T2Shutdown.place()], now);
            let t3 = due(before.timers@[Timer::T3RTX.place()], now);
            let reconfig = due(before.timers@[Timer::Reconfig.place()], now);
            let ack = due(before.timers@[Timer::Ack.place()], now);
            &&& after.state == before.state
            &&& after.stats.n_t3timeouts == (if t3 {
                (before.stats.n_t3timeouts + 1) % 0x1_0000_0000_0000_0000
            } else {
                before.stats.n_t3timeouts as int
            })
            &&& after.cwnd == (if t3 {
                before.mtu
            } else {
                before.cwnd
            })
            &&& after.inflight_queue@.len() == before.inflight_queue@.len()
            &&& !t3 ==> after.inflight_queue == before.inflight_queue
            &&& t3 ==> forall|i: int|
                0 <= i < before.inflight_queue@.len() && !before.inflight_queue@[i].acked && !(
                before.inflight_queue@[i].abandoned && before.inflight_queue@[i].all_inflight)
                    ==> (#[trigger] after.inflight_queue@[i]).retransmit
            &&& after.stats.n_ack_timeouts == (if ack {
                (before.stats.n_ack_timeouts + 1) % 0x1_0000_0000_0000_0000
            } else {
                before.stats.n_ack_timeouts as int
            })
            &&& after.ack_state == (if ack {
                AckState::Immediate
            } else {
                before.ack_state
            })
            &&& after.will_retransmit_reconfig == (before.will_retransmit_reconfig || reconfig)
            &&& after.will_send_shutdown == (before.will_send_shutdown || (t2 && before.state
                == AssociationState::ShutdownSent))
            &&& after.will_send_shutdown_ack == (before.will_send_shutdown_ack || (t2
                && before.state == AssociationState::ShutdownAckSent))
            &&& after.stored_init is Some == (before.stored_init is Some && !t1)
            &&& after.control_queue@.len() == before.control_queue@.len() + (if t1
                && before.stored_init is Some {
                1int
            } else {
                0int
            }) + (if cookie && before.stored_cookie_echo is Some {
                1int
            } else {
                0int
            })
        }),
{
    let steps = choose|steps: Seq<Association>| #[trigger]
        serves_timers(steps, now) && steps[0] == before && steps[TIMER_COUNT as int] == after;
    lemma_served(steps[0], Timer::T1Init, now, steps[1]);
    lemma_served(steps[1], Timer::T1Cookie, now, steps[2]);
    lemma_served(steps[2], Timer::T2Shutdown, now, steps[3]);
    lemma_served(steps[3], Timer::T3RTX, now, steps[4]);
    lemma_served(steps[4], Timer::Reconfig, now, steps[5]);
    lemma_served(steps[5], Timer::Ack, now, steps[6]);
}

/// A timer that fails the handshake says which step of it went unanswered; the others do not fail it.
pub proof fn law_failed_handshake_says_why()
    ensures
        handshake_error(RtxTimerId::T1Init) == Some(Error::ErrHandshakeInitAck),
        handshake_error(RtxTimerId::T1Cookie) == Some(Error::ErrHandshakeCookieEcho),
        handshake_error(RtxTimerId::T2Shutdown) is None,
        handshake_error(RtxTimerId::T3RTX) is None,
        handshake_error(RtxTimerId::Reconfig) is None,
{
}

/// Closing an association puts aside each of its streams, closed and otherwise as it was, behind those
/// that were put aside before, and nothing else. What waits to be sent, what is in flight and what has
/// arrived stays.
pub proof fn law_closing_puts_streams_aside(
    before: Association,
    after: Association,
    id: u16,
    i: int,
)
    requires
        before.state != AssociationState::Closed,
        before.closed_into(after),
    ensures
        after.state == AssociationState::Closed,
        !after.loops_open,
        !after.streams@.contains_key(id),
        forall|j: int| 0 <= j < TIMER_COUNT ==> (#[trigger] after.timers@[j]) is None,
        after.retired@.len() >= before.retired@.len(),
        0 <= i < before.retired@.len() ==> after.retired@[i]@ == before.retired@[i]@,
        before.streams@.contains_key(id) ==> exists|j: int|
            before.retired@.len() <= j < after.retired@.len() && (#[trigger] after.retired@[j])@
                == (StreamModel { closed: true, ..before.streams@[id]@ }),
        before.retired@.len() <= i < after.retired@.len() ==> exists|x: u16| #[trigger]
            before.streams@.contains_key(x) && after.retired@[i]@ == (StreamModel {
                closed: true,
                ..before.streams@[x]@
            }),
        after == (Association {
            state: after.state,
            timers: after.timers,
            loops_open: after.loops_open,
            streams: after.streams,
            retired: after.retired,
            ..before
        }),
{
    let ids = choose|ids: Seq<u16>| #[trigger]
        lists_streams(ids, before.streams@) && stream_views(after.retired@) == stream_views(
            before.retired@,
        ) + retired_in_order(ids, before.streams@);
    let had = stream_views(before.retired@);
    let has = stream_views(after.retired@);
    let n = before.retired@.len() as int;
    assert(had.len() == n && has.len() == after.retired@.len());
    if 0 <= i < n {
        assert(has[i] == had[i]);
    }
    if before.streams@.contains_key(id) {
        assert(ids.contains(id));
        let j = choose|j: int| 0 <= j < ids.len() && ids[j] == id;
        assert(has[n + j] == retired_in_order(ids, before.streams@)[j]);
        assert(after.retired@[n + j]@ == has[n + j]);
    }
    if n <= i < after.retired@.len() {
        assert(has[i] == retired_in_order(ids, before.streams@)[i - n]);
        assert(ids.contains(ids[i - n]));
        assert(before.streams@.contains_key(ids[i - n]));
    }
}

/// Bytes are counted one by one, and from zero on again when the count does not fit any more.
pub proof fn law_bytes_are_counted(bytes: usize, n: nat)
    requires
        n <= usize::MAX,
    ensures
        bytes + n <= usize::MAX ==> counted(bytes, n) == bytes + n,
        bytes + n > usize::MAX ==> counted(bytes, n) + usize::MAX + 1 == bytes + n,
{
}

/// Packets that were gathered go out one after the other: the first one is sent first, and after each
/// one that went out, and is counted, the next one. After the last, work is waited for where there
/// will be more; else the association is closed and the loop is over. Nothing else happens to the
/// association.
pub proof fn law_gathered_packets_go_out_in_order(
    a: Association,
    packets: Seq<Seq<u8>>,
    sent: int,
    ok: bool,
    after: Association,
    r: (WriteState, WriteAction),
)
    requires
        0 <= sent < packets.len() || packets.len() == 0,
        packets.len() > 0 ==> packets[sent].len() <= usize::MAX,
    ensures
        a.began_sending(packets, ok, after, r) && packets.len() > 0 ==> after == a && (
        r.1 matches WriteAction::Send(raw) && bytes_content(raw) == packets[0]) && (
        r.0 matches WriteState::Sending(all, count, more) && contents(all@) == packets && count == 0
            && more == ok),
        a.began_sending(packets, ok, after, r) && packets.len() == 0 && ok ==> after == a && r.0
            is Waiting && r.1 is Wait,
        a.began_sending(packets, ok, after, r) && packets.len() == 0 && !ok ==> r.0 is Exited && r.1
            is Exit && after.state == AssociationState::Closed,
        a.sent_one(packets, sent, ok, after, r) && sent + 1 < packets.len() ==> (
        r.1 matches WriteAction::Send(raw) && bytes_content(raw) == packets[sent + 1]) && (
        r.0 matches WriteState::Sending(all, count, more) && contents(all@) == packets && count
            == sent + 1 && more == ok),
        a.sent_one(packets, sent, ok, after, r) && 0 < packets.len() == sent + 1 && ok ==> r.0
            is Waiting && r.1 is Wait,
        a.sent_one(packets, sent, ok, after, r) && 0 < packets.len() == sent + 1 && !ok ==> r.0
            is Exited && r.1 is Exit && after.state == AssociationState::Closed,
        a.sent_one(packets, sent, ok, after, r) && 0 < packets.len() && a.bytes_sent
            + packets[sent].len() <= usize::MAX ==> after.bytes_sent == a.bytes_sent
            + packets[sent].len(),
        a.sent_one(packets, sent, ok, after, r) && 0 < packets.len() && a.bytes_sent
            + packets[sent].len() > usize::MAX ==> after.bytes_sent + usize::MAX + 1 == a.bytes_sent
            + packets[sent].len(),
        a.sent_one(packets, sent, ok, after, r) && 0 < packets.len() && (sent + 1 < packets.len()
            || ok) ==> after == (Association { bytes_sent: after.bytes_sent, ..a }),
        a.ended_writing(after, r) ==> after.state == AssociationState::Closed && r.0 is Exited
            && r.1 is Exit,
{
}

/// What is ready to be taken leaves in the order in which it came.
pub proof fn law_first_come_first_taken<T>(before: Seq<T>, after: Seq<T>, r: Option<T>)
    requires
        popped(before, after, r),
    ensures
        before.len() > 0 ==> r == Some(before[0]) && after == before.skip(1),
        before.len() == 0 ==> r is None && after.len() == 0,
{
    if before.len() > 0 {
        assert(after =~= before.skip(1));
    }
}

/// An association that is closed stays as it is when it is closed again.
pub proof fn law_closed_association_stays(before: Association, after: Association)
    requires
        before.state == AssociationState::Closed,
        before.closed_into(after),
    ensures
        after == before,
{
}

/// With a server configuration one is on the side of the server, else on that of the client; and a
/// chunk may carry what fits a packet of the initial size behind its headers.
pub proof fn law_sides_and_sizes()
    ensures
        side_of(true) == Side::Server,
        side_of(false) == Side::Client,
        initial_max_payload_size() == 1200,
{
}

/// The queue of the stored chunks: asking for the INIT chunk to be sent puts it into a packet for the
/// peer and stores it no longer; where none is stored, nothing changes. The same holds of the
/// COOKIE-ECHO chunk, which stays stored.
pub proof fn law_stored_chunks_are_sent(before: Association, after: Association)
    ensures
        before.sent_init(after) && before.stored_init is None ==> after == before,
        before.sent_init(after) && before.stored_init is Some ==> {
            &&& after.stored_init is None
            &&& after.source_port == 5000 && after.destination_port == 5000
            &&& packet_views(after.control_queue@).drop_last() == packet_views(
                before.control_queue@,
            )
            &&& packet_views(after.control_queue@).last().verification_tag
                == before.peer_verification_tag
            &&& packet_views(after.control_queue@).last().chunks == seq![
                ChunkValue::Init(before.stored_init->0@),
            ]
            &&& after == (Association {
                stored_init: after.stored_init,
                source_port: after.source_port,
                destination_port: after.destination_port,
                control_queue: after.control_queue,
                ..before
            })
        },
        before.sent_cookie_echo(after) && before.stored_cookie_echo is None ==> after == before,
        before.sent_cookie_echo(after) && before.stored_cookie_echo is Some ==> {
            &&& packet_views(after.control_queue@).drop_last() == packet_views(
                before.control_queue@,
            )
            &&& packet_views(after.control_queue@).last().verification_tag
                == before.peer_verification_tag
            &&& packet_views(after.control_queue@).last().source_port == before.source_port
            &&& packet_views(after.control_queue@).last().destination_port
                == before.destination_port
            &&& packet_views(after.control_queue@).last().chunks == seq![
                ChunkValue::CookieEcho(before.stored_cookie_echo->0@),
            ]
            &&& after == (Association { control_queue: after.control_queue, ..before })
        },
{
    if (before.sent_init(after) && before.stored_init is Some) || (before.sent_cookie_echo(after)
        && before.stored_cookie_echo is Some) {
        assert(packet_views(after.control_queue@).drop_last() =~= packet_views(
            before.control_queue@,
        ));
    }
}

/// The values of packets, of what they carry and of the timers are those of their parts.
pub proof fn law_values_of_packets(
    init: ChunkInit,
    echo: ChunkCookieEcho,
    packet: Packet,
    timers: TimerTable,
    i: int,
)
    ensures
        init@.initiate_tag == init.initiate_tag,
        init@.advertised_receiver_window_credit == init.advertised_receiver_window_credit,
        init@.num_outbound_streams == init.num_outbound_streams,
        init@.num_inbound_streams == init.num_inbound_streams,
        init@.initial_tsn == init.initial_tsn,
        init@.supported_extensions == init.supported_extensions@,
        echo@ == bytes_content(echo.cookie),
        packet@.source_port == packet.source_port,
        packet@.destination_port == packet.destination_port,
        packet@.verification_tag == packet.verification_tag,
        packet@.chunks.len() == packet.chunks@.len(),
        0 <= i < packet.chunks@.len() ==> (packet.chunks@[i] matches PacketChunk::Init(c)
            ==> packet@.chunks[i] == ChunkValue::Init(c@)),
        0 <= i < packet.chunks@.len() ==> (packet.chunks@[i] matches PacketChunk::CookieEcho(c)
            ==> packet@.chunks[i] == ChunkValue::CookieEcho(c@)),
        timers@ == timers.data@,
{
}

} // verus!
