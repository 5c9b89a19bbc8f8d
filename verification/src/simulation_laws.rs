//! What holds of endpoints driven by hand, in terms of the datagrams on their way, of their
//! associations and of the clock.

use std::collections::VecDeque;

use bytes::Bytes;
use vstd::prelude::*;

use crate::association::internal::{handles_timeout, lemma_timeout_keeps_queues};
use crate::association::timer::is_earliest;
use crate::association::Association;
use crate::buf::bytes_content;
use crate::endpoint::{answers_event, AssociationHandle, Endpoint, Roster};
use crate::shared::{
    AssociationEvent, AssociationEventInner, AssociationId, EndpointEvent, Payload, SocketAddr,
    Transmit,
};
use crate::simulation::{
    advances_to, all_arrivals, all_datagrams, all_idle, answered, answers, answers_all, arrivals_of,
    arrived, collected, datagrams, datagrams_among, datagrams_of, delays, drives, drives_both,
    drives_side, drove, drove_association, drove_each, entered, event_queues, has_connection, is_due,
    inbound_views, is_connection, is_queue, later, next_of, pending_events, precedes, received,
    releases, sends, sent_views, took_and_gave, took_event, with_connection, with_event, Inbound, Pair,
    TestEndpoint,
};
use crate::time::Instant;

verus! {

/// A time comes before another where fewer nanoseconds have passed by then.
pub proof fn law_earlier_times(a: Instant, b: Instant)
    ensures
        precedes(a, b) == (a.nanos < b.nanos),
        later(a, b) == (if a.nanos >= b.nanos {
            a
        } else {
            b
        }),
{
}

/// An endpoint is handed the datagrams in the order of their arrival up to the first that is still on
/// its way; that one and those behind it stay on their way. Nothing else changes.
pub proof fn law_arrived_datagrams_are_received(
    before: TestEndpoint,
    now: Instant,
    after: TestEndpoint,
    i: int,
)
    requires
        received(before, now, after),
    ensures
        after.inbound@.len() <= before.inbound@.len(),
        0 <= i < before.inbound@.len() - after.inbound@.len() ==> before.inbound@[i].0.nanos
            <= now.nanos,
        0 <= i < after.inbound@.len() ==> after.inbound@[i] == before.inbound@[before.inbound@.len()
            - after.inbound@.len() + i],
        after.inbound@.len() > 0 ==> after.inbound@[0].0.nanos > now.nanos,
        after == (TestEndpoint { inbound: after.inbound, ..before }),
{
    let k = choose|k: int| #[trigger]
        arrived(before.inbound@, now, k) && after.inbound@ == before.inbound@.skip(k);
    assert(arrived(before.inbound@, now, k));
}

/// What an endpoint itself has to send goes out behind what was to go out, in order.
pub proof fn law_transmissions_are_collected(before: TestEndpoint, after: TestEndpoint, i: int)
    requires
        collected(before, after),
    ensures
        after.endpoint.transmits@.len() == 0,
        after.outbound@.len() == before.outbound@.len() + before.endpoint.transmits@.len(),
        0 <= i < before.outbound@.len() ==> after.outbound@[i] == before.outbound@[i],
        0 <= i < before.endpoint.transmits@.len() ==> after.outbound@[before.outbound@.len() + i]
            == before.endpoint.transmits@[i],
        after.inbound == before.inbound && after.connections == before.connections
            && after.conn_events == before.conn_events && after.delayed == before.delayed
            && after.timeout == before.timeout && after.accepted == before.accepted && after.addr
            == before.addr,
{
}

/// An association that is driven has its timers looked after just where its endpoint's time has come,
/// gets all datagrams that wait for associations, and leaves nothing ready to be taken: its
/// transmissions go out behind what was to go out. The other associations are not touched, and the
/// endpoint is to be looked after again when the first of the association's timers expires.
pub proof fn law_driven_association(before: TestEndpoint, i: int, now: Instant, after: TestEndpoint, j:
    int)
    requires
        drove(before, i, now, after),
        0 <= i < before.connections@.len(),
    ensures
        after.connections@.len() == before.connections@.len(),
        0 <= j < before.connections@.len() && j != i ==> after.connections@[j]
            == before.connections@[j],
        after.connections@[i].0 == before.connections@[i].0,
        after.connections@[i].1.transmits@.len() == 0,
        after.connections@[i].1.endpoint_events@.len() == 0,
        after.connections@[i].1.inbound@ == before.connections@[i].1.inbound@ + datagrams(
            event_queues(before.conn_events@),
        ),
        after.outbound@ == before.outbound@ + before.connections@[i].1.transmits@,
        after.conn_events@.len() == 0,
        is_earliest(after.connections@[i].1.timers@, after.timeout),
        !(before.timeout matches Some(t) && t.nanos <= now.nanos)
            ==> after.connections@[i].1.timers == before.connections@[i].1.timers
            && after.connections@[i].1.stats == before.connections@[i].1.stats
            && after.connections@[i].1.inflight_queue == before.connections@[i].1.inflight_queue,
        (before.timeout matches Some(t) && t.nanos <= now.nanos) ==> exists|mid: Association|
            #[trigger]
            handles_timeout(before.connections@[i].1, now, mid) && after.connections@[i].1.timers
                == mid.timers && after.connections@[i].1.inflight_queue == mid.inflight_queue
                && after.connections@[i].1.stats == mid.stats,
        after.endpoint == before.endpoint && after.inbound == before.inbound && after.delayed
            == before.delayed && after.accepted == before.accepted && after.addr == before.addr,
{
    reveal(drove);
    lemma_driven(
        before.connections@[i].1,
        before.timeout matches Some(t) && t.nanos <= now.nanos,
        now,
        datagrams(event_queues(before.conn_events@)),
        after.connections@[i].1,
    );
}

proof fn lemma_driven(
    before: Association,
    timed_out: bool,
    now: Instant,
    coming: Seq<Transmit>,
    after: Association,
)
    requires
        drove_association(before, timed_out, now, coming, after),
    ensures
        after.transmits@.len() == 0,
        after.endpoint_events@.len() == 0,
        after.inbound@ == before.inbound@ + coming,
        !timed_out ==> after.timers == before.timers && after.stats == before.stats
            && after.inflight_queue == before.inflight_queue,
        timed_out ==> exists|mid: Association| #[trigger]
            handles_timeout(before, now, mid) && after.timers == mid.timers && after.inflight_queue
                == mid.inflight_queue && after.stats == mid.stats,
{
    let mid = choose|mid: Association|
        (if timed_out {
            handles_timeout(before, now, mid)
        } else {
            mid == before
        }) && #[trigger] took_and_gave(mid, coming, after);
    if timed_out {
        lemma_timeout_keeps_queues(before, now, mid);
    }
}

/// Events of associations wait in the order in which they came: one more goes behind those of its
/// association, and leaves those of the others alone.
pub proof fn law_events_wait_in_order(
    before: Seq<(AssociationHandle, Seq<AssociationEvent>)>,
    ch: AssociationHandle,
    event: AssociationEvent,
    after: Seq<(AssociationHandle, Seq<AssociationEvent>)>,
    i: int,
)
    requires
        with_event(before, ch, event, after),
        forall|j: int, k: int|
            0 <= j < k < before.len() ==> (#[trigger] before[j]).0 != (#[trigger] before[k]).0,
    ensures
        0 <= i < before.len() && before[i].0 != ch ==> after[i] == before[i],
        0 <= i < before.len() && before[i].0 == ch ==> after[i] == (ch, before[i].1.push(event))
            && after.len() == before.len(),
        (forall|j: int| 0 <= j < before.len() ==> (#[trigger] before[j]).0 != ch) ==> after.len()
            == before.len() + 1 && after.last() == (ch, seq![event]),
{
    if exists|j: int| is_queue(before, ch, j) {
        let j = choose|j: int| #[trigger]
            is_queue(before, ch, j) && after == before.update(j, (ch, before[j].1.push(event)));
        assert(before[j].0 == ch);
    } else if 0 <= i < before.len() && before[i].0 == ch {
        assert(is_queue(before, ch, i));
    }
}

/// The datagrams among events are taken in order, association by association, and none but these.
pub proof fn law_datagrams_are_taken_in_order(
    events: Seq<AssociationEvent>,
    event: AssociationEvent,
    queues: Seq<(AssociationHandle, Seq<AssociationEvent>)>,
    ch: AssociationHandle,
)
    ensures
        datagrams_among(Seq::<AssociationEvent>::empty()).len() == 0,
        event.0 matches AssociationEventInner::Datagram(x) ==> datagrams_among(events.push(event))
            == datagrams_among(events).push(x),
        !(event.0 is Datagram) ==> datagrams_among(events.push(event)) == datagrams_among(events),
        datagrams(Seq::<(AssociationHandle, Seq<AssociationEvent>)>::empty()).len() == 0,
        datagrams(queues.push((ch, events))) == datagrams(queues) + datagrams_among(events),
{
    assert(events.push(event).drop_last() =~= events);
    assert(queues.push((ch, events)).drop_last() =~= queues);
}

/// The queues of events are those of the associations that they are kept for.
pub proof fn law_event_queues(
    conn_events: Seq<(AssociationHandle, VecDeque<AssociationEvent>)>,
    i: int,
)
    ensures
        event_queues(conn_events).len() == conn_events.len(),
        0 <= i < conn_events.len() ==> event_queues(conn_events)[i] == (
            conn_events[i].0,
            conn_events[i].1@,
        ),
{
}

/// What associations have to tell their endpoint is told in the order of the associations, each event
/// with the association that it comes from.
pub proof fn law_events_are_told_in_order(
    connections: Seq<(AssociationHandle, Association)>,
    ch: AssociationHandle,
    conn: Association,
    i: int,
)
    ensures
        pending_events(Seq::<(AssociationHandle, Association)>::empty()).len() == 0,
        ({
            let told = pending_events(connections);
            let more = pending_events(connections.push((ch, conn)));
            &&& more.len() == told.len() + conn.endpoint_events@.len()
            &&& 0 <= i < told.len() ==> more[i] == told[i]
            &&& 0 <= i < conn.endpoint_events@.len() ==> more[told.len() + i] == (
                ch,
                conn.endpoint_events@[i],
            )
        }),
{
    assert(connections.push((ch, conn)).drop_last() =~= connections);
}

/// An association is kept under its handle, in place of one that was kept there or else behind all
/// others, which are not touched.
pub proof fn law_kept_association_is_found(
    before: Seq<(AssociationHandle, Association)>,
    ch: AssociationHandle,
    conn: Association,
    after: Seq<(AssociationHandle, Association)>,
    i: int,
)
    requires
        with_connection(before, ch, conn, after),
        forall|j: int, k: int|
            0 <= j < k < before.len() ==> (#[trigger] before[j]).0 != (#[trigger] before[k]).0,
    ensures
        0 <= i < before.len() && before[i].0 != ch ==> after[i] == before[i],
        0 <= i < before.len() && before[i].0 == ch ==> after[i] == (ch, conn) && after.len()
            == before.len(),
        (forall|j: int| 0 <= j < before.len() ==> (#[trigger] before[j]).0 != ch) ==> after.len()
            == before.len() + 1 && after.last() == (ch, conn),
{
    if has_connection(before, ch) {
        let j = choose|j: int| #[trigger]
            is_connection(before, ch, j) && after == before.update(j, (ch, conn));
        assert(before[j].0 == ch);
    } else if 0 <= i < before.len() && before[i].0 == ch {
        assert(is_connection(before, ch, i));
    }
}

/// A transmission has one datagram for each of its packets, in order, for where it goes; those arrive
/// at the peer where that is its address, at the time and with the mark that they have, and nowhere
/// else.
pub proof fn law_datagrams_arrive_where_they_go(
    x: Transmit,
    packets: Vec<Bytes>,
    addr: SocketAddr,
    at: Instant,
    i: int,
)
    requires
        x.payload == Payload::RawEncode(packets),
    ensures
        datagrams_of(x).len() == packets@.len(),
        0 <= i < packets@.len() ==> datagrams_of(x)[i] == (bytes_content(packets@[i]), x.remote),
        addr != x.remote ==> arrivals_of(x, addr, at).len() == 0,
        addr == x.remote ==> arrivals_of(x, addr, at).len() == packets@.len(),
        addr == x.remote && 0 <= i < packets@.len() ==> arrivals_of(x, addr, at)[i] == (
            at,
            x.ecn,
            bytes_content(packets@[i]),
        ),
{
}

/// Sending out empties what is to go out: all of its datagrams are sent in order, and those for the
/// peer are on their way to it behind those that were before. Nothing else changes on either side.
pub proof fn law_all_that_goes_out_is_sent(
    from: TestEndpoint,
    to: TestEndpoint,
    at: Instant,
    from_after: TestEndpoint,
    to_after: TestEndpoint,
    sent: Seq<(Seq<u8>, SocketAddr)>,
    i: int,
)
    requires
        sends(from, to, at, from_after, to_after, sent),
    ensures
        from_after.outbound@.len() == 0,
        sent == all_datagrams(from.outbound@),
        to_after.inbound@.len() == to.inbound@.len() + all_arrivals(
            from.outbound@,
            to.addr,
            at,
        ).len(),
        0 <= i < to.inbound@.len() ==> to_after.inbound@[i].0 == to.inbound@[i].0
            && to_after.inbound@[i].1 == to.inbound@[i].1 && bytes_content(to_after.inbound@[i].2)
            == bytes_content(to.inbound@[i].2),
        0 <= i < all_arrivals(from.outbound@, to.addr, at).len() ==> {
            let x = to_after.inbound@[to.inbound@.len() + i];
            (x.0, x.1, bytes_content(x.2)) == all_arrivals(from.outbound@, to.addr, at)[i]
        },
        from_after == (TestEndpoint { outbound: from_after.outbound, ..from }),
        to_after == (TestEndpoint { inbound: to_after.inbound, ..to }),
{
    let had = inbound_views(to.inbound@);
    let has = inbound_views(to_after.inbound@);
    let coming = all_arrivals(from.outbound@, to.addr, at);
    assert(had.len() == to.inbound@.len() && has.len() == to_after.inbound@.len());
    assert(has == had + coming);
    if 0 <= i < to.inbound@.len() {
        assert(has[i] == had[i]);
    }
    if 0 <= i < coming.len() {
        assert(has[to.inbound@.len() + i] == coming[i]);
    }
}

/// The datagrams of transmissions, one after the other.
pub proof fn law_datagrams_of_all(outbound: Seq<Transmit>, x: Transmit, addr: SocketAddr, at: Instant)
    ensures
        all_datagrams(Seq::<Transmit>::empty()).len() == 0,
        all_datagrams(outbound.push(x)) == all_datagrams(outbound) + datagrams_of(x),
        all_arrivals(Seq::<Transmit>::empty(), addr, at).len() == 0,
        all_arrivals(outbound.push(x), addr, at) == all_arrivals(outbound, addr, at) + arrivals_of(
            x,
            addr,
            at,
        ),
{
    assert(outbound.push(x).drop_last() =~= outbound);
}

/// Something is due next on a side when the time that it is to be looked after comes, or when the
/// first datagram arrives, whichever is first.
pub proof fn law_next_wakeup(t: TestEndpoint)
    ensures
        t.wakeup() is None <==> t.timeout is None && t.inbound@.len() == 0,
        t.timeout is Some ==> t.wakeup()->0.nanos <= t.timeout->0.nanos,
        t.inbound@.len() > 0 ==> t.wakeup()->0.nanos <= t.inbound@[0].0.nanos,
        t.wakeup() is Some ==> t.wakeup() == t.timeout || (t.inbound@.len() > 0 && t.wakeup()
            == Some(t.inbound@[0].0)),
{
}

/// A pair advances to the earlier of what is due next on its sides, unless no timer of any association
/// runs on either of them.
pub proof fn law_pair_advances(pair: Pair, i: int)
    ensures
        (forall|j: int|
            #![trigger pair.client.connections@[j]]
            0 <= j < pair.client.connections@.len() ==> is_earliest(
                pair.client.connections@[j].1.timers@,
                None,
            )) && (forall|j: int|
            #![trigger pair.server.connections@[j]]
            0 <= j < pair.server.connections@.len() ==> is_earliest(
                pair.server.connections@[j].1.timers@,
                None,
            )) ==> advances_to(pair) is None,
        0 <= i < pair.client.connections@.len() && !is_earliest(
            pair.client.connections@[i].1.timers@,
            None,
        ) || 0 <= i < pair.server.connections@.len() && !is_earliest(
            pair.server.connections@[i].1.timers@,
            None,
        ) ==> {
            &&& pair.client.wakeup() is Some ==> advances_to(pair) is Some
                && advances_to(pair)->0.nanos <= pair.client.wakeup()->0.nanos
            &&& pair.server.wakeup() is Some ==> advances_to(pair) is Some
                && advances_to(pair)->0.nanos <= pair.server.wakeup()->0.nanos
            &&& advances_to(pair) == pair.client.wakeup() || advances_to(pair)
                == pair.server.wakeup()
        },
{
}

/// The next event of an association for the application is its first one, and the others stay in
/// their order; the other associations are not touched.
pub proof fn law_next_event_is_taken(before: TestEndpoint, k: int, after: TestEndpoint, i: int)
    requires
        took_event(before, k, after),
        0 <= k < before.connections@.len(),
    ensures
        after.connections@.len() == before.connections@.len(),
        0 <= i < before.connections@.len() && i != k ==> after.connections@[i]
            == before.connections@[i],
        before.connections@[k].1.events@.len() > 0 ==> next_of(before.connections@[k].1.events@)
            == Some(before.connections@[k].1.events@[0]) && after.connections@[k].1.events@
            == before.connections@[k].1.events@.skip(1),
        before.connections@[k].1.events@.len() == 0 ==> next_of(before.connections@[k].1.events@)
            is None && after.connections@[k].1.events@.len() == 0,
        after.connections@[k].0 == before.connections@[k].0,
        after.connections@[k].1 == (Association {
            events: after.connections@[k].1.events,
            ..before.connections@[k].1
        }),
        after == (TestEndpoint { connections: after.connections, ..before }),
{
}

/// What is held back is what was to go out, and goes out again behind what is to go out then.
pub proof fn law_held_back_transmissions(before: TestEndpoint, after: TestEndpoint)
    ensures
        delays(before, after) ==> after.delayed@ == before.outbound@ && after.outbound@
            == before.delayed@,
        releases(before, after) ==> after.outbound@ == before.outbound@ + before.delayed@
            && after.delayed@.len() == 0,
        delays(before, after) || releases(before, after) ==> after == (TestEndpoint {
            outbound: after.outbound,
            delayed: after.delayed,
            ..before
        }),
{
}

/// A quiet endpoint has no associations, nothing on its way, and nothing due.
pub proof fn law_quiet_endpoint(t: TestEndpoint)
    requires
        t.is_quiet(),
    ensures
        t.timeout is None && t.accepted is None,
        t.outbound@.len() == 0 && t.delayed@.len() == 0 && t.inbound@.len() == 0,
        t.connections@.len() == 0 && t.conn_events@.len() == 0,
        t.wakeup() is None,
        all_idle(t.connections@),
{
}

/// What some associations have to send, one behind the other.
pub open spec fn ready_to_go_out(connections: Seq<(AssociationHandle, Association)>) -> Seq<Transmit>
    decreases connections.len(),
{
    if connections.len() == 0 {
        Seq::empty()
    } else {
        ready_to_go_out(connections.drop_last()) + connections.last().1.transmits@
    }
}

/// What has come of the endpoint `first` once its first `n` associations were driven.
spec fn partly_driven(first: TestEndpoint, n: int, t: TestEndpoint) -> bool {
    &&& t == (TestEndpoint {
        timeout: t.timeout,
        outbound: t.outbound,
        connections: t.connections,
        conn_events: t.conn_events,
        ..first
    })
    &&& t.connections@.len() == first.connections@.len()
    &&& t.outbound@ == first.outbound@ + ready_to_go_out(first.connections@.take(n))
    &&& forall|i: int|
        0 <= i < first.connections@.len() ==> (#[trigger] t.connections@[i]).0
            == first.connections@[i].0
    &&& forall|i: int|
        0 <= i < n ==> (#[trigger] t.connections@[i]).1.transmits@.len() == 0
            && t.connections@[i].1.endpoint_events@.len() == 0
    &&& forall|i: int|
        n <= i < first.connections@.len() ==> #[trigger] t.connections@[i]
            == first.connections@[i]
    &&& n > 0 ==> t.conn_events@.len() == 0
}

proof fn lemma_partly_driven(steps: Seq<TestEndpoint>, now: Instant, n: int)
    requires
        drove_each(steps, now),
        0 <= n < steps.len(),
    ensures
        partly_driven(steps[0], n, steps[n]),
    decreases n,
{
    let first = steps[0];
    if n == 0 {
        assert(first.connections@.take(0) =~= Seq::<(AssociationHandle, Association)>::empty());
        assert(first.outbound@ + ready_to_go_out(first.connections@.take(0)) =~= first.outbound@);
    } else {
        let m = n - 1;
        lemma_partly_driven(steps, now, m);
        let before = steps[m];
        let after = steps[n];
        assert(drove(steps[m], m, now, steps[m + 1]));
        reveal(drove);
        lemma_driven(
            before.connections@[m].1,
            is_due(before.timeout, now),
            now,
            datagrams(event_queues(before.conn_events@)),
            after.connections@[m].1,
        );
        assert(before.connections@[m] == first.connections@[m]);
        assert(first.connections@.take(n).drop_last() =~= first.connections@.take(m));
        assert(first.connections@.take(n).last() == first.connections@[m]);
        assert(after.outbound@ =~= first.outbound@ + ready_to_go_out(first.connections@.take(n)));
        assert forall|i: int| 0 <= i < first.connections@.len() implies (
        #[trigger] after.connections@[i]).0 == first.connections@[i].0 by {
            assert(before.connections@[i].0 == first.connections@[i].0);
        }
        assert forall|i: int| 0 <= i < n implies (
        #[trigger] after.connections@[i]).1.transmits@.len() == 0
            && after.connections@[i].1.endpoint_events@.len() == 0 by {
            if i < m {
                assert(after.connections@[i] == before.connections@[i]);
            }
        }
        assert forall|i: int| n <= i < first.connections@.len() implies #[trigger]
            after.connections@[i] == first.connections@[i] by {
            assert(after.connections@[i] == before.connections@[i]);
        }
    }
}

/// Driving an endpoint takes in all datagrams in order up to the first that is still on its way, and
/// puts out all that the endpoint and its associations have to send, in that order. Afterwards none of
/// them has anything ready to be taken, and no association came or went.
pub proof fn law_driving_takes_in_and_puts_out(
    before: TestEndpoint,
    now: Instant,
    after: TestEndpoint,
    i: int,
)
    requires
        drives(before, now, after),
    ensures
        after.inbound@.len() <= before.inbound@.len(),
        0 <= i < before.inbound@.len() - after.inbound@.len() ==> before.inbound@[i].0.nanos
            <= now.nanos,
        after.inbound@.len() > 0 ==> after.inbound@[0].0.nanos > now.nanos,
        after.outbound@ == before.outbound@ + before.endpoint.transmits@ + ready_to_go_out(
            before.connections@,
        ),
        after.connections@.len() == before.connections@.len(),
        0 <= i < before.connections@.len() ==> after.connections@[i].0 == before.connections@[i].0
            && after.connections@[i].1.transmits@.len() == 0
            && after.connections@[i].1.endpoint_events@.len() == 0,
        before.connections@.len() > 0 ==> after.conn_events@.len() == 0,
        after.addr == before.addr && after.delayed == before.delayed && after.accepted
            == before.accepted,
{
    let (taken, steps) = choose|taken: TestEndpoint, steps: Seq<TestEndpoint>|
        #![trigger received(before, now, taken), drove_each(steps, now)]
        received(before, now, taken) && drove_each(steps, now) && collected(taken, steps.first())
            && answered(steps.last(), pending_events(before.connections@), after);
    law_arrived_datagrams_are_received(before, now, taken, i);
    law_arrived_datagrams_are_received(before, now, taken, 0);
    let n = before.connections@.len() as int;
    assert(steps.first() == steps[0] && steps.last() == steps[n]);
    lemma_partly_driven(steps, now, n);
    assert(steps[0].connections@.take(n) =~= before.connections@);
    assert(steps[0].outbound@ =~= before.outbound@ + before.endpoint.transmits@);
    if 0 <= i < n {
        assert(after.connections@[i] == steps[n].connections@[i]);
    }
}

/// The events of associations are answered one after the other, each of them once, each by what the
/// endpoint has become by then.
pub proof fn law_each_event_is_answered(
    before: TestEndpoint,
    events: Seq<(AssociationHandle, EndpointEvent)>,
    after: TestEndpoint,
) -> (states: Seq<Endpoint>)
    requires
        answered(before, events, after),
    ensures
        states.len() == events.len() + 1,
        states[0] == before.endpoint,
        states[events.len() as int] == after.endpoint,
        forall|i: int|
            0 <= i < events.len() ==> answers(
                #[trigger] states[i],
                events[i].0,
                events[i].1,
                states[i + 1],
            ),
        after == (TestEndpoint { endpoint: after.endpoint, ..before }),
{
    choose|states: Seq<Endpoint>| #[trigger]
        answers_all(states, events) && states.first() == before.endpoint && states.last()
            == after.endpoint
}

/// An event is answered by the endpoint as it answers events, with the answer dropped.
pub proof fn law_an_event_is_answered(
    before: Endpoint,
    ch: AssociationHandle,
    event: EndpointEvent,
    after: Endpoint,
) -> (r: Option<AssociationEvent>)
    requires
        answers(before, ch, event, after),
    ensures
        answers_event(before, ch, event.0, after, r),
{
    reveal(answers);
    choose|r: Option<AssociationEvent>| #[trigger] answers_event(before, ch, event.0, after, r)
}

proof fn lemma_all_arrive_then(outbound: Seq<Transmit>, addr: SocketAddr, at: Instant, i: int)
    requires
        0 <= i < all_arrivals(outbound, addr, at).len(),
    ensures
        all_arrivals(outbound, addr, at)[i].0 == at,
    decreases outbound.len(),
{
    if outbound.len() > 0 {
        let rest = all_arrivals(outbound.drop_last(), addr, at);
        if i < rest.len() {
            lemma_all_arrive_then(outbound.drop_last(), addr, at, i);
        }
    }
}

/// What one side sends arrives at the other after just as long as a datagram takes.
pub proof fn law_datagrams_take_their_time(
    from: TestEndpoint,
    to: TestEndpoint,
    now: Instant,
    latency: u64,
    from_after: TestEndpoint,
    to_after: TestEndpoint,
    sent: Seq<(Seq<u8>, SocketAddr)>,
    i: int,
)
    requires
        drives_side(from, to, now, latency, from_after, to_after, sent),
        now.nanos + latency <= u64::MAX,
        to.inbound@.len() <= i < to_after.inbound@.len(),
    ensures
        to_after.inbound@[i].0.nanos == now.nanos + latency,
        from_after.outbound@.len() == 0,
{
    let mid = choose|mid: TestEndpoint| #[trigger]
        drives(from, now, mid) && sends(
            mid,
            to,
            Instant { nanos: (now.nanos + latency) as u64 },
            from_after,
            to_after,
            sent,
        );
    let at = Instant { nanos: (now.nanos + latency) as u64 };
    let k = i - to.inbound@.len();
    law_all_that_goes_out_is_sent(mid, to, at, from_after, to_after, sent, k);
    lemma_all_arrive_then(mid.outbound@, to.addr, at, k);
}

/// Driving both sides drives the client first and then the server, at the same time.
pub proof fn law_both_sides_are_driven(
    before: Pair,
    after: Pair,
    client_sent: Seq<(Seq<u8>, SocketAddr)>,
    server_sent: Seq<(Seq<u8>, SocketAddr)>,
)
    requires
        drives_both(before, after, client_sent, server_sent),
    ensures
        after.time == before.time && after.latency == before.latency,
        exists|client: TestEndpoint, server: TestEndpoint, mid: TestEndpoint, end: TestEndpoint|
            #![trigger drives(before.client, before.time, mid), sends(
                mid,
                before.server,
                Instant { nanos: (before.time.nanos + before.latency) as u64 },
                client,
                server,
                client_sent,
            ), drives(server, before.time, end)]
            drives(before.client, before.time, mid) && sends(
                mid,
                before.server,
                Instant { nanos: (before.time.nanos + before.latency) as u64 },
                client,
                server,
                client_sent,
            ) && drives(server, before.time, end) && sends(
                end,
                client,
                Instant { nanos: (before.time.nanos + before.latency) as u64 },
                after.server,
                after.client,
                server_sent,
            ),
{
    let (client, server) = choose|client: TestEndpoint, server: TestEndpoint|
        drives_side(
            before.client,
            before.server,
            before.time,
            before.latency,
            client,
            server,
            client_sent,
        ) && #[trigger] drives_side(
            server,
            client,
            before.time,
            before.latency,
            after.server,
            after.client,
            server_sent,
        );
    let at = Instant { nanos: (before.time.nanos + before.latency) as u64 };
    let mid = choose|mid: TestEndpoint| #[trigger]
        drives(before.client, before.time, mid) && sends(
            mid,
            before.server,
            at,
            client,
            server,
            client_sent,
        );
    let end = choose|end: TestEndpoint| #[trigger]
        drives(server, before.time, end) && sends(
            end,
            client,
            at,
            after.server,
            after.client,
            server_sent,
        );
    assert(drives(before.client, before.time, mid));
    assert(drives(server, before.time, end));
}

/// An association that is entered into a roster is so under an identifier that was not in use, which
/// leads to it.
pub proof fn law_entered_association(
    before: Roster,
    ch: AssociationHandle,
    init_cid: AssociationId,
    loc_cid: AssociationId,
    remote: SocketAddr,
    after: Roster,
)
    requires
        entered(before, ch, init_cid, loc_cid, remote, after),
    ensures
        !before.ids.contains_key(loc_cid),
        after.ids == before.ids.insert(loc_cid, ch),
        after.members.contains_key(ch.0),
        after.members[ch.0].init_cid == init_cid,
        after.members[ch.0].initial_remote == remote,
        after.members.dom() == before.members.dom().insert(ch.0),
{
}

/// The values of datagrams are those of their parts.
pub proof fn law_values_of_datagrams(
    inbound: Seq<Inbound>,
    sent: Seq<(Bytes, SocketAddr)>,
    i: int,
)
    ensures
        inbound_views(inbound).len() == inbound.len(),
        0 <= i < inbound.len() ==> inbound_views(inbound)[i] == (
            inbound[i].0,
            inbound[i].1,
            bytes_content(inbound[i].2),
        ),
        sent_views(sent).len() == sent.len(),
        0 <= i < sent.len() ==> sent_views(sent)[i] == (bytes_content(sent[i].0), sent[i].1),
{
}

} // verus!
