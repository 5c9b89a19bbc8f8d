//! What an association does when a timer expires, when a stream comes or goes, and when it closes.

use vstd::prelude::*;

use crate::association::state::{AckState, AssociationState};
use crate::association::stats::{next_count, AssociationStats};
use crate::association::timer::{Timer, TIMER_COUNT};
use crate::association::Association;
use crate::chunk::DataChunk;
use crate::error::Error;
use crate::queue::payload_queue::{given_up_run, marked_to_retransmit, tsn_after};
use crate::stream::state::{StreamModel, StreamState};
use crate::time::Instant;
use crate::util::{serial32_before, sna32gt};

verus! {

/// The timers whose expiration leads to a retransmission.
#[derive(Debug, Clone, Copy, PartialEq, Eq, Structural)]
pub enum RtxTimerId {
    T1Init,
    T1Cookie,
    T2Shutdown,
    T3RTX,
    Reconfig,
}

/// The loop that writes packets, if there is one, told to look for work.
pub open spec fn woken(ch: Option<bool>) -> Option<bool> {
    match ch {
        Some(_) => Some(true),
        None => None,
    }
}

/// The stream, closed.
pub open spec fn closed_stream(s: StreamModel) -> StreamModel {
    StreamModel { closed: true, ..s }
}

/// The values of a list of streams.
pub open spec fn stream_views(streams: Seq<StreamState>) -> Seq<StreamModel> {
    streams.map_values(|s: StreamState| s@)
}

/// Whether `ids` lists the streams of a map, each once.
pub open spec fn lists_streams(ids: Seq<u16>, streams: Map<u16, StreamState>) -> bool {
    &&& ids.no_duplicates()
    &&& forall|id: u16| #[trigger] ids.contains(id) <==> streams.contains_key(id)
}

/// Whether `after` is the association `before` once its T3-rtx timer has expired: the congestion
/// window falls back to one packet, the chunks that were given up are passed over, and what is in
/// flight is marked for retransmission.
pub open spec fn slowed_down(before: Association, after: Association) -> bool {
    let point = before.advanced_peer_tsn_ack_point;
    let advanced = if before.use_forward_tsn {
        tsn_after(point, given_up_run(before.inflight_queue@, point) as int)
    } else {
        point
    };
    let skips = before.use_forward_tsn && advanced != before.cumulative_tsn_ack_point
        && !serial32_before(advanced, before.cumulative_tsn_ack_point);
    &&& after == (Association {
        stats: AssociationStats {
            n_t3timeouts: next_count(before.stats.n_t3timeouts),
            ..before.stats
        },
        ssthresh: if before.cwnd / 2 >= 4 * before.mtu {
            (before.cwnd / 2) as u32
        } else {
            (4 * before.mtu) as u32
        },
        cwnd: before.mtu,
        advanced_peer_tsn_ack_point: advanced,
        will_send_forward_tsn: before.will_send_forward_tsn || skips,
        inflight_queue: after.inflight_queue,
        awake_write_loop_ch: woken(before.awake_write_loop_ch),
        ..before
    })
    &&& after.inflight_queue@ == before.inflight_queue@.map_values(
        |c: DataChunk| marked_to_retransmit(c),
    )
}

/// Whether `after` is the association `before` once the retransmission timer `id` has expired.
pub open spec fn retransmits(before: Association, id: RtxTimerId, after: Association) -> bool {
    match id {
        RtxTimerId::T1Init => before.sent_init(after),
        RtxTimerId::T1Cookie => before.sent_cookie_echo(after),
        RtxTimerId::T2Shutdown => after == (match before.state {
            AssociationState::ShutdownSent => Association {
                will_send_shutdown: true,
                awake_write_loop_ch: woken(before.awake_write_loop_ch),
                ..before
            },
            AssociationState::ShutdownAckSent => Association {
                will_send_shutdown_ack: true,
                awake_write_loop_ch: woken(before.awake_write_loop_ch),
                ..before
            },
            _ => before,
        }),
        RtxTimerId::T3RTX => slowed_down(before, after),
        RtxTimerId::Reconfig => after == (Association {
            will_retransmit_reconfig: true,
            awake_write_loop_ch: woken(before.awake_write_loop_ch),
            ..before
        }),
    }
}

/// The association once its acknowledgement timer has expired: an acknowledgement is due at once.
pub open spec fn acknowledges(before: Association) -> Association {
    Association {
        stats: AssociationStats {
            n_ack_timeouts: next_count(before.stats.n_ack_timeouts),
            ..before.stats
        },
        ack_state: AckState::Immediate,
        awake_write_loop_ch: woken(before.awake_write_loop_ch),
        ..before
    }
}

/// The error that a failed handshake ends with; the other timers do not fail the handshake.
pub open spec fn handshake_error(id: RtxTimerId) -> Option<Error> {
    match id {
        RtxTimerId::T1Init => Some(Error::ErrHandshakeInitAck),
        RtxTimerId::T1Cookie => Some(Error::ErrHandshakeCookieEcho),
        _ => None,
    }
}

/// The retransmission timer that a timer is; the acknowledgement timer is none.
pub open spec fn rtx_timer(t: Timer) -> Option<RtxTimerId> {
    match t {
        Timer::T1Init => Some(RtxTimerId::T1Init),
        Timer::T1Cookie => Some(RtxTimerId::T1Cookie),
        Timer::T2Shutdown => Some(RtxTimerId::T2Shutdown),
        Timer::T3RTX => Some(RtxTimerId::T3RTX),
        Timer::Reconfig => Some(RtxTimerId::Reconfig),
        Timer::Ack => None,
    }
}

/// Whether the timer at that place has expired.
pub open spec fn expired(times: Seq<Option<Instant>>, place: int, now: Instant) -> bool {
    times[place] matches Some(t) && t.nanos <= now.nanos
}

/// Whether `after` is the association `before` once it has looked after the timer `t`: a timer that
/// has expired is stopped, and acted upon.
pub open spec fn serves_timer(
    before: Association,
    t: Timer,
    now: Instant,
    after: Association,
) -> bool {
    if expired(before.timers@, t.place(), now) {
        let stopped = Association { timers: after.timers, ..before };
        &&& after.timers@ == before.timers@.update(t.place(), None)
        &&& match rtx_timer(t) {
            Some(id) => retransmits(stopped, id, after),
            None => after == acknowledges(stopped),
        }
    } else {
        after == before
    }
}

/// Whether `steps` leads an association through its timers one after the other.
pub open spec fn serves_timers(steps: Seq<Association>, now: Instant) -> bool {
    &&& steps.len() == TIMER_COUNT + 1
    &&& serves_timer(steps[0], Timer::T1Init, now, steps[1])
    &&& serves_timer(steps[1], Timer::T1Cookie, now, steps[2])
    &&& serves_timer(steps[2], Timer::T2Shutdown, now, steps[3])
    &&& serves_timer(steps[3], Timer::T3RTX, now, steps[4])
    &&& serves_timer(steps[4], Timer::Reconfig, now, steps[5])
    &&& serves_timer(steps[5], Timer::Ack, now, steps[6])
}

/// Whether `after` is the association `before` once it has looked after all of its timers.
pub open spec fn handles_timeout(before: Association, now: Instant, after: Association) -> bool {
    exists|steps: Seq<Association>| #[trigger]
        serves_timers(steps, now) && steps[0] == before && steps[TIMER_COUNT as int] == after
}

/// Looking after a timer leaves alone what has arrived and what is ready to be taken.
proof fn lemma_timer_keeps_queues(before: Association, t: Timer, now: Instant, after: Association)
    requires
        serves_timer(before, t, now, after),
    ensures
        after.endpoint_events == before.endpoint_events,
        after.transmits == before.transmits,
        after.inbound == before.inbound,
        after.events == before.events,
{
}

/// An association that looks after its timers leaves alone what has arrived and what is ready to be
/// taken.
pub proof fn lemma_timeout_keeps_queues(before: Association, now: Instant, after: Association)
    requires
        handles_timeout(before, now, after),
    ensures
        after.endpoint_events == before.endpoint_events,
        after.transmits == before.transmits,
        after.inbound == before.inbound,
        after.events == before.events,
{
    let steps = choose|steps: Seq<Association>| #[trigger]
        serves_timers(steps, now) && steps[0] == before && steps[TIMER_COUNT as int] == after;
    lemma_timer_keeps_queues(steps[0], Timer::T1Init, now, steps[1]);
    lemma_timer_keeps_queues(steps[1], Timer::T1Cookie, now, steps[2]);
    lemma_timer_keeps_queues(steps[2], Timer::T2Shutdown, now, steps[3]);
    lemma_timer_keeps_queues(steps[3], Timer::T3RTX, now, steps[4]);
    lemma_timer_keeps_queues(steps[4], Timer::Reconfig, now, steps[5]);
    lemma_timer_keeps_queues(steps[5], Timer::Ack, now, steps[6]);
}

impl Timer {
    /// The retransmission timer that the timer is, if it is one.
    pub fn rtx(self) -> (r: Option<RtxTimerId>)
        ensures
            r == rtx_timer(self),
    {
        match self {
            Timer::T1Init => Some(RtxTimerId::T1Init),
            Timer::T1Cookie => Some(RtxTimerId::T1Cookie),
            Timer::T2Shutdown => Some(RtxTimerId::T2Shutdown),
            Timer::T3RTX => Some(RtxTimerId::T3RTX),
            Timer::Reconfig => Some(RtxTimerId::Reconfig),
            Timer::Ack => None,
        }
    }
}

impl Association {
    /// Whether what the T3-rtx timer leads to can be done: the chunks in flight are in order, and the
    /// least threshold that it sets can be told.
    pub open spec fn can_slow_down(&self) -> bool {
        &&& self.inflight_queue.wf()
        &&& 4 * self.mtu <= u32::MAX
    }

    /// Tells the loop that writes packets to look for work.
    pub fn awake_write_loop(&mut self)
        ensures
            *final(self) == (Association {
                awake_write_loop_ch: woken(old(self).awake_write_loop_ch),
                ..*old(self)
            }),
    {
        if self.awake_write_loop_ch.is_some() {
            self.awake_write_loop_ch = Some(true);
        }
    }

    /// Stops all timers.
    pub fn close_all_timers(&mut self)
        ensures
            *final(self) == (Association { timers: final(self).timers, ..*old(self) }),
            final(self).timers@ == Seq::new(TIMER_COUNT as nat, |i: int| None::<Instant>),
    {
        self.timers.stop(Timer::T1Init);
        self.timers.stop(Timer::T1Cookie);
        self.timers.stop(Timer::T2Shutdown);
        self.timers.stop(Timer::T3RTX);
        self.timers.stop(Timer::Reconfig);
        self.timers.stop(Timer::Ack);
        assert(self.timers@ =~= Seq::new(TIMER_COUNT as nat, |i: int| None::<Instant>));
    }

    /// Handles the expiration of the acknowledgement timer.
    pub fn on_ack_timeout(&mut self)
        ensures
            *final(self) == acknowledges(*old(self)),
    {
        self.stats.inc_ack_timeouts();
        self.ack_state = AckState::Immediate;
        self.awake_write_loop();
    }

    /// Handles the expiration of a retransmission timer, the `n_rtos`th in a row.
    pub fn on_retransmission_timeout(&mut self, id: RtxTimerId, n_rtos: usize)
        requires
            id == RtxTimerId::T3RTX ==> old(self).can_slow_down(),
        ensures
            old(self).can_slow_down() ==> final(self).can_slow_down(),
            old(self).wf() ==> final(self).wf(),
            retransmits(*old(self), id, *final(self)),
            final(self).timers == old(self).timers,
    {
        match id {
            RtxTimerId::T1Init => {
                let _ = self.send_init();
            },
            RtxTimerId::T1Cookie => {
                let _ = self.send_cookie_echo();
            },
            RtxTimerId::T2Shutdown => {
                match self.get_state() {
                    AssociationState::ShutdownSent => {
                        self.will_send_shutdown = true;
                        self.awake_write_loop();
                    },
                    AssociationState::ShutdownAckSent => {
                        self.will_send_shutdown_ack = true;
                        self.awake_write_loop();
                    },
                    _ => {},
                }
            },
            RtxTimerId::T3RTX => {
                self.on_data_timeout();
            },
            RtxTimerId::Reconfig => {
                self.will_retransmit_reconfig = true;
                self.awake_write_loop();
            },
        }
    }

    /// Handles the expiration of the T3-rtx timer.
    fn on_data_timeout(&mut self)
        requires
            old(self).can_slow_down(),
        ensures
            final(self).can_slow_down(),
            old(self).wf() ==> final(self).wf(),
            slowed_down(*old(self), *final(self)),
    {
        // RFC 4960 sec 7.2.3: ssthresh = max(cwnd / 2, 4 * MTU), and cwnd = MTU.
        let half: u32 = self.cwnd / 2;
        let least: u32 = 4 * self.mtu;
        let ssthresh: u32 = if half >= least {
            half
        } else {
            least
        };

        // RFC 3758 sec 3.5, A5: try to advance the peer's acknowledgement point.
        let mut advanced: u32 = self.advanced_peer_tsn_ack_point;
        let mut forward: bool = self.will_send_forward_tsn;
        if self.use_forward_tsn {
            // C2
            advanced = self.inflight_queue.skip_given_up(advanced);

            // C3
            if sna32gt(advanced, self.cumulative_tsn_ack_point) {
                forward = true;
            }
        }
        self.inflight_queue.mark_all_to_retrasmit();
        assert(*self == (Association { inflight_queue: self.inflight_queue, ..*old(self) }));
        self.stats.inc_t3timeouts();
        self.ssthresh = ssthresh;
        self.cwnd = self.mtu;
        self.advanced_peer_tsn_ack_point = advanced;
        self.will_send_forward_tsn = forward;
        self.awake_write_loop();
    }

    /// Handles the failure of a retransmission timer, whose retransmissions all went unanswered:
    /// where that ends the handshake, whoever waits for it is told.
    pub fn on_retransmission_failure(&mut self, id: RtxTimerId)
        ensures
            *final(self) == (Association {
                handshake_completed_ch: final(self).handshake_completed_ch,
                ..*old(self)
            }),
            match (handshake_error(id), old(self).handshake_completed_ch) {
                (Some(e), Some(told)) => final(self).handshake_completed_ch matches Some(now_told)
                    && now_told@ == told@.push(Some(e)),
                _ => final(self).handshake_completed_ch == old(self).handshake_completed_ch,
            },
    {
        match id {
            RtxTimerId::T1Init => {
                self.report_handshake(Some(Error::ErrHandshakeInitAck));
            },
            RtxTimerId::T1Cookie => {
                self.report_handshake(Some(Error::ErrHandshakeCookieEcho));
            },
            RtxTimerId::T2Shutdown => {},
            // The T3-rtx timer is not meant to fail: the layer below notices that the peer is gone.
            RtxTimerId::T3RTX => {},
            RtxTimerId::Reconfig => {},
        }
    }

    /// Tells whoever waits for the handshake how it ended.
    fn report_handshake(&mut self, outcome: Option<Error>)
        ensures
            *final(self) == (Association {
                handshake_completed_ch: final(self).handshake_completed_ch,
                ..*old(self)
            }),
            match old(self).handshake_completed_ch {
                Some(told) => final(self).handshake_completed_ch matches Some(now_told)
                    && now_told@ == told@.push(outcome),
                None => final(self).handshake_completed_ch is None,
            },
    {
        if let Some(mut told) = self.handshake_completed_ch.take() {
            told.push(outcome);
            self.handshake_completed_ch = Some(told);
        }
    }

    /// Looks after the timers: those that have expired by `now` are stopped and acted upon, in the
    /// order of the table.
    pub fn handle_timeout(&mut self, now: Instant)
        requires
            expired(old(self).timers@, Timer::T3RTX.place(), now) ==> old(self).can_slow_down(),
        ensures
            old(self).wf() ==> final(self).wf(),
            handles_timeout(*old(self), now, *final(self)),
    {
        let ghost s0 = *self;
        self.serve_timer(Timer::T1Init, now);
        let ghost s1 = *self;
        self.serve_timer(Timer::T1Cookie, now);
        let ghost s2 = *self;
        self.serve_timer(Timer::T2Shutdown, now);
        let ghost s3 = *self;
        self.serve_timer(Timer::T3RTX, now);
        let ghost s4 = *self;
        self.serve_timer(Timer::Reconfig, now);
        let ghost s5 = *self;
        self.serve_timer(Timer::Ack, now);
        let ghost steps = seq![s0, s1, s2, s3, s4, s5, *self];
        assert(serves_timers(steps, now));
        assert(steps[0] == s0 && steps[TIMER_COUNT as int] == *self);
    }

    /// Looks after one timer.
    fn serve_timer(&mut self, timer: Timer, now: Instant)
        requires
            timer == Timer::T3RTX && expired(old(self).timers@, timer.place(), now) ==> old(
                self,
            ).can_slow_down(),
        ensures
            old(self).can_slow_down() ==> final(self).can_slow_down(),
            old(self).wf() ==> final(self).wf(),
            serves_timer(*old(self), timer, now, *final(self)),
    {
        if !self.timers.is_expired(timer, now) {
            return;
        }
        self.timers.stop(timer);
        let ghost stopped = *self;
        assert(stopped == (Association { timers: stopped.timers, ..*old(self) }));
        self.act_on_timer(timer);
        assert(stopped == (Association { timers: self.timers, ..*old(self) }));
    }

    /// Acts on a timer that has expired.
    fn act_on_timer(&mut self, timer: Timer)
        requires
            timer == Timer::T3RTX ==> old(self).can_slow_down(),
        ensures
            old(self).can_slow_down() ==> final(self).can_slow_down(),
            old(self).wf() ==> final(self).wf(),
            final(self).timers == old(self).timers,
            match rtx_timer(timer) {
                Some(id) => retransmits(*old(self), id, *final(self)),
                None => *final(self) == acknowledges(*old(self)),
            },
    {
        match timer.rtx() {
            Some(id) => {
                self.on_retransmission_timeout(id, 1);
            },
            None => {
                self.on_ack_timeout();
            },
        }
    }
}

/// Once an association has looked after its timers, none of them has expired any more, and those
/// that had not expired run on.
pub proof fn law_timeout_leaves_no_expired_timer(
    before: Association,
    now: Instant,
    after: Association,
    place: int,
)
    requires
        handles_timeout(before, now, after),
        before.timers@.len() == TIMER_COUNT,
        0 <= place < TIMER_COUNT,
    ensures
        !expired(after.timers@, place, now),
        !expired(before.timers@, place, now) ==> after.timers@[place] == before.timers@[place],
{
    let steps = choose|steps: Seq<Association>| #[trigger]
        serves_timers(steps, now) && steps[0] == before && steps[TIMER_COUNT as int] == after;
    lemma_timer_served(steps[0], Timer::T1Init, now, steps[1], place);
    lemma_timer_served(steps[1], Timer::T1Cookie, now, steps[2], place);
    lemma_timer_served(steps[2], Timer::T2Shutdown, now, steps[3], place);
    lemma_timer_served(steps[3], Timer::T3RTX, now, steps[4], place);
    lemma_timer_served(steps[4], Timer::Reconfig, now, steps[5], place);
    lemma_timer_served(steps[5], Timer::Ack, now, steps[6], place);
}

proof fn lemma_timer_served(
    before: Association,
    t: Timer,
    now: Instant,
    after: Association,
    place: int,
)
    requires
        serves_timer(before, t, now, after),
        before.timers@.len() == TIMER_COUNT,
        0 <= place < TIMER_COUNT,
    ensures
        after.timers@.len() == TIMER_COUNT,
        !expired(before.timers@, place, now) ==> after.timers@[place] == before.timers@[place],
        t.place() == place ==> !expired(after.timers@, place, now),
        t.place() != place ==> after.timers@[place] == before.timers@[place],
{
}

} // verus!
